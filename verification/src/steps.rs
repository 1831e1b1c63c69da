//! The single steps in which a move works on a line in place: sweeps that
//! close the gaps, and the scan that merges.

use vstd::prelude::*;

verus! {

/// One step of a sweep: the tile in cell `p` moves into cell `p - 1` if that is empty.
pub open spec fn nudged(s: Seq<nat>, p: int) -> Seq<nat> {
    if 0 < p < s.len() && s[p - 1] == 0 && s[p] != 0 {
        s.update(p - 1, s[p]).update(p, 0)
    } else {
        s
    }
}

/// The line after the steps of a sweep at the cells `1..=p`.
pub open spec fn swept_to(s: Seq<nat>, p: nat) -> Seq<nat>
    decreases p,
{
    if p == 0 {
        s
    } else {
        nudged(swept_to(s, (p - 1) as nat), p as int)
    }
}

/// The line after `n` whole sweeps.
pub open spec fn swept(s: Seq<nat>, n: nat) -> Seq<nat>
    decreases n,
{
    if n == 0 {
        s
    } else {
        swept_to(swept(s, (n - 1) as nat), (s.len() - 1) as nat)
    }
}

/// Whether the scan merges the tile in cell `p` into cell `p - 1`.
pub open spec fn fuses_at(s: Seq<nat>, p: int) -> bool {
    0 < p < s.len() && s[p] != 0 && s[p] == s[p - 1]
}

/// One step of the merge scan, at cell `p`.
pub open spec fn fused(s: Seq<nat>, p: int) -> Seq<nat> {
    if fuses_at(s, p) {
        s.update(p - 1, (2 * s[p]) as nat).update(p, 0)
    } else {
        s
    }
}

/// The line after the steps of the merge scan at the cells `1..=p`.
pub open spec fn fused_to(s: Seq<nat>, p: nat) -> Seq<nat>
    decreases p,
{
    if p == 0 {
        s
    } else {
        fused(fused_to(s, (p - 1) as nat), p as int)
    }
}

/// What the steps of the merge scan at the cells `1..=p` have scored.
pub open spec fn fuse_gain_to(s: Seq<nat>, p: nat) -> nat
    decreases p,
{
    if p == 0 {
        0
    } else {
        let before = fused_to(s, (p - 1) as nat);
        let here: nat = if fuses_at(before, p as int) {
            2 * before[p as int]
        } else {
            0
        };
        fuse_gain_to(s, (p - 1) as nat) + here
    }
}

} // verus!
