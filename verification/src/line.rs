//! One line of cells, a row or a column read from the edge that the tiles
//! move to: what a move makes of it, and sums over its cells.

use vstd::prelude::*;
use crate::tile::worth;

verus! {

/// The tiles of a line: its non-empty cells, in order.
pub open spec fn tiles(s: Seq<nat>) -> Seq<nat> {
    s.filter(|v: nat| v != 0)
}

/// Merges equal neighbours pairwise from the front. A tile that came out of a
/// merge is not looked at again, so no tile merges twice.
pub open spec fn merged(t: Seq<nat>) -> Seq<nat>
    decreases t.len(),
{
    if t.len() < 2 {
        t
    } else if t[0] == t[1] {
        seq![(2 * t[0]) as nat] + merged(t.skip(2))
    } else {
        seq![t[0]] + merged(t.skip(1))
    }
}

/// What the merges of `merged` are worth: each one scores the tile it makes.
pub open spec fn merge_gain(t: Seq<nat>) -> nat
    decreases t.len(),
{
    if t.len() < 2 {
        0
    } else if t[0] == t[1] {
        2 * t[0] + merge_gain(t.skip(2))
    } else {
        merge_gain(t.skip(1))
    }
}

/// `t` followed by empty cells, up to length `n`.
pub open spec fn padded(t: Seq<nat>, n: nat) -> Seq<nat> {
    t + Seq::new((n - t.len()) as nat, |i: int| 0nat)
}

/// The line with its gaps closed: the tiles first, then the empty cells.
pub open spec fn packed(s: Seq<nat>) -> Seq<nat> {
    padded(tiles(s), s.len())
}

/// The line after a move towards its front.
pub open spec fn slid(s: Seq<nat>) -> Seq<nat> {
    padded(merged(tiles(s)), s.len())
}

/// The score that a move towards the front of the line earns.
pub open spec fn gain(s: Seq<nat>) -> nat {
    merge_gain(tiles(s))
}

/// The sum of `f` over the cells of a line.
pub open spec fn total(s: Seq<nat>, f: spec_fn(nat) -> int) -> int
    decreases s.len(),
{
    if s.len() == 0 {
        0
    } else {
        total(s.drop_last(), f) + f(s.last())
    }
}

/// Counts a tile: 1 for a tile, 0 for an empty cell.
pub open spec fn filled() -> spec_fn(nat) -> int {
    |v: nat| if v != 0 { 1int } else { 0int }
}

/// Counts a cell that holds `t` or more.
pub open spec fn reaches(t: nat) -> spec_fn(nat) -> int {
    |v: nat| if v >= t { 1int } else { 0int }
}

/// The value of a cell.
pub open spec fn face() -> spec_fn(nat) -> int {
    |v: nat| v as int
}

/// What a cell is worth.
pub open spec fn worth_fn() -> spec_fn(nat) -> int {
    |v: nat| worth(v) as int
}

} // verus!
