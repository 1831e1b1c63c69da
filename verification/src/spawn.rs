//! The new tile: the empty cells, and the board with a tile in one of them.

use vstd::prelude::*;
use vstd::arithmetic::power2::{lemma2_to64, lemma_pow2_strictly_increases, pow2};
use crate::bounds::{
    board_worth, count_reaching, grid_total, lemma_grid_total, lemma_total_to, plausible,
    tile_count, total_to,
};
use crate::grid::{grid_of, shaped, with_tile, Grid, SIZE};
use crate::line::{filled, reaches, worth_fn};
use crate::tile::{is_tile, lemma_tile_values};

verus! {

/// The empty cells among the first `n` cells of the board, which are counted
/// row by row, each as its row and its column.
pub open spec fn empties_to(g: Grid, n: nat) -> Seq<(int, int)>
    decreases n,
{
    if n == 0 {
        Seq::empty()
    } else {
        let i = (n - 1) / 4;
        let j = (n - 1) % 4;
        if g[i][j] == 0 {
            empties_to(g, (n - 1) as nat).push((i, j))
        } else {
            empties_to(g, (n - 1) as nat)
        }
    }
}

/// The empty cells of the board, row by row.
pub open spec fn empty_cells(g: Grid) -> Seq<(int, int)> {
    empties_to(g, 16)
}

/// The tile that a roll gives: a 2 for a roll below nine, else a 4.
pub open spec fn rolled(roll: nat) -> nat {
    if roll < 9 {
        2
    } else {
        4
    }
}

/// The board with a new tile in the empty cell number `pick`. A `pick` that
/// names no empty cell leaves the board as it is.
pub open spec fn spawned(g: Grid, pick: int, roll: nat) -> Grid {
    let at = empty_cells(g);
    if 0 <= pick < at.len() {
        with_tile(g, at[pick].0, at[pick].1, rolled(roll))
    } else {
        g
    }
}

/// `after` is `before` with one new tile, a 2 or a 4, in a cell that was empty.
pub open spec fn spawn_of(before: Grid, after: Grid) -> bool {
    exists|pick: int, roll: nat|
        0 <= pick < empty_cells(before).len() && roll < 10 && after == #[trigger] spawned(
            before,
            pick,
            roll,
        )
}

/// What `empties_to` lists are empty cells of the board, and no more of them
/// than cells counted.
pub proof fn lemma_empties_to(g: Grid, n: nat)
    requires
        shaped(g),
        n <= 16,
    ensures
        empties_to(g, n).len() <= n,
        forall|m: int|
            0 <= m < empties_to(g, n).len() ==> {
                let c = #[trigger] empties_to(g, n)[m];
                0 <= c.0 < 4 && 0 <= c.1 < 4 && g[c.0][c.1] == 0
            },
    decreases n,
{
    if n > 0 {
        lemma_empties_to(g, (n - 1) as nat);
    }
}

/// Each of the first `n` cells is listed as empty or holds a tile.
proof fn lemma_empties_and_tiles(g: Grid, n: nat)
    requires
        shaped(g),
        n <= 16,
    ensures
        empties_to(g, n).len() + total_to(g, filled(), n) == n,
    decreases n,
{
    if n > 0 {
        lemma_empties_and_tiles(g, (n - 1) as nat);
    }
}

/// Each cell is listed as empty or holds a tile.
pub proof fn lemma_empties_count(g: Grid)
    requires
        shaped(g),
    ensures
        empty_cells(g).len() == 16 - tile_count(g),
{
    lemma_empties_and_tiles(g, 16);
    lemma_total_to(g, filled());
}

/// A 2 or a 4 in an empty cell of a plausible board gives a plausible board
/// with one tile more, worth no less.
pub proof fn lemma_with_tile(g: Grid, i: int, j: int, v: nat)
    requires
        plausible(g),
        0 <= i < 4,
        0 <= j < 4,
        g[i][j] == 0,
        v == 2 || v == 4,
    ensures
        plausible(with_tile(g, i, j, v)),
        tile_count(with_tile(g, i, j, v)) == tile_count(g) + 1,
        board_worth(with_tile(g, i, j, v)) >= board_worth(g),
        with_tile(g, i, j, v) != g,
{
    let h = with_tile(g, i, j, v);
    assert(shaped(h));
    assert(h[i][j] == v);
    assert forall|f: spec_fn(nat) -> int| #[trigger]
        grid_total(h, f) == grid_total(g, f) - f(0) + f(v) by {
        lemma_grid_total(g, f);
        lemma_grid_total(h, f);
    }
    assert(filled()(0) == 0 && filled()(v) == 1);
    assert(worth_fn()(0) == 0 && worth_fn()(v) >= 0);
    assert forall|a: int, b: int| 0 <= a < 4 && 0 <= b < 4 implies is_tile(#[trigger] h[a][b]) by {
        lemma_tile_values(v);
        if a == i && b == j {
        } else {
            assert(h[a][b] == g[a][b]);
        }
    }
    assert forall|e: nat| 3 <= e <= 17 implies count_reaching(h, #[trigger] pow2(e)) + e <= 18 by {
        let t = pow2(e);
        lemma_pow2_strictly_increases(2, e);
        lemma2_to64();
        assert(t > 4);
        assert(reaches(t)(0) == 0 && reaches(t)(v) == 0);
        assert(count_reaching(g, t) + e <= 18);
    }
}

/// A new tile on a plausible board gives a plausible board.
pub proof fn lemma_spawned(g: Grid, pick: int, roll: nat)
    requires
        plausible(g),
    ensures
        plausible(spawned(g, pick, roll)),
        board_worth(spawned(g, pick, roll)) >= board_worth(g),
        tile_count(spawned(g, pick, roll)) == tile_count(g) + (if 0 <= pick < empty_cells(g).len() {
            1int
        } else {
            0int
        }),
{
    let at = empty_cells(g);
    if 0 <= pick < at.len() {
        lemma_empties_to(g, 16);
        let c = at[pick];
        lemma_with_tile(g, c.0, c.1, rolled(roll));
    }
}

/// The cells of a list as pairs of mathematical integers.
pub open spec fn as_places(at: Seq<(usize, usize)>) -> Seq<(int, int)> {
    at.map_values(|c: (usize, usize)| (c.0 as int, c.1 as int))
}

/// Lists the empty cells of the board, row by row.
pub fn find_empty_cells(cells: &[[usize; SIZE]; SIZE]) -> (at: Vec<(usize, usize)>)
    ensures
        as_places(at@) == empty_cells(grid_of(*cells)),
{
    let ghost g = grid_of(*cells);
    let mut at: Vec<(usize, usize)> = Vec::new();
    let mut i: usize = 0;
    assert(as_places(at@) =~= empties_to(g, 0));
    while i < SIZE
        invariant
            i <= 4,
            g == grid_of(*cells),
            as_places(at@) == empties_to(g, (4 * i) as nat),
        decreases 4 - i,
    {
        let mut j: usize = 0;
        while j < SIZE
            invariant
                i < 4,
                j <= 4,
                g == grid_of(*cells),
                as_places(at@) == empties_to(g, (4 * i + j) as nat),
            decreases 4 - j,
        {
            let ghost before = at@;
            if cells[i][j] == 0 {
                at.push((i, j));
                assert(as_places(at@) =~= as_places(before).push((i as int, j as int)));
            }
            assert((4 * i + j + 1 - 1) / 4 == i && (4 * i + j + 1 - 1) % 4 == j);
            assert(g[i as int][j as int] == cells[i as int][j as int]);
            j += 1;
        }
        i += 1;
    }
    at
}

} // verus!
