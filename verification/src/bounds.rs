//! What holds of every board that play leads to, and why no number of a game
//! comes near the limit of `usize`.

use vstd::prelude::*;
use vstd::arithmetic::power2::{
    lemma2_to64, lemma_pow2_pos, lemma_pow2_strictly_increases, lemma_pow2_unfold, pow2,
};
use crate::four::{
    lemma_packed_from, lemma_packed_total, lemma_slid_filled, lemma_slid_reaches, lemma_slid_tiles,
    lemma_total4,
};
use crate::grid::{
    blank, compacted, earned, grid_of, lane, lane_of, lemma_lanes_fix_grid, lemma_lanes_of_results,
    place_of, pushed, shaped, stuck, Direction, Grid, SIZE,
};
use crate::line::{face, filled, gain, packed, reaches, slid, total, worth_fn};
use crate::moves::move_fits;
use crate::tile::{check_tile, is_tile, lemma_tile_values, lemma_worth_bound, worth};

verus! {

/// The sum of `f` over the cells of a board.
pub open spec fn grid_total(g: Grid, f: spec_fn(nat) -> int) -> int {
    total(g[0], f) + total(g[1], f) + total(g[2], f) + total(g[3], f)
}

/// How many cells hold a tile.
pub open spec fn tile_count(g: Grid) -> int {
    grid_total(g, filled())
}

/// How many cells hold `t` or more.
pub open spec fn count_reaching(g: Grid, t: nat) -> int {
    grid_total(g, reaches(t))
}

/// The most that the merges which made the tiles of a board can have scored.
pub open spec fn board_worth(g: Grid) -> int {
    grid_total(g, worth_fn())
}

/// What holds of every board that play leads to. The cells hold tiles, and
/// large tiles are few: to make a tile of 2^e a second one of 2^(e-1) had to
/// stand beside the first, so at most 18 - e cells hold 2^e or more. With
/// sixteen cells, no tile exceeds 2^17.
pub open spec fn plausible(g: Grid) -> bool {
    &&& shaped(g)
    &&& forall|i: int, j: int| 0 <= i < 4 && 0 <= j < 4 ==> is_tile(#[trigger] g[i][j])
    &&& forall|e: nat| 3 <= e <= 17 ==> count_reaching(g, #[trigger] pow2(e)) + e <= 18
}

/// The sum over a board, written out.
pub proof fn lemma_grid_total(g: Grid, f: spec_fn(nat) -> int)
    requires
        shaped(g),
    ensures
        grid_total(g, f) == f(g[0][0]) + f(g[0][1]) + f(g[0][2]) + f(g[0][3]) + f(g[1][0]) + f(
            g[1][1],
        ) + f(g[1][2]) + f(g[1][3]) + f(g[2][0]) + f(g[2][1]) + f(g[2][2]) + f(g[2][3]) + f(
            g[3][0],
        ) + f(g[3][1]) + f(g[3][2]) + f(g[3][3]),
{
    lemma_total4(g[0], f);
    lemma_total4(g[1], f);
    lemma_total4(g[2], f);
    lemma_total4(g[3], f);
}

/// The sum of `f` over the first `n` cells of a board, which are counted row
/// by row.
pub open spec fn total_to(g: Grid, f: spec_fn(nat) -> int, n: nat) -> int
    decreases n,
{
    if n == 0 {
        0
    } else {
        total_to(g, f, (n - 1) as nat) + f(g[(n - 1) / 4][(n - 1) % 4])
    }
}

/// The sum over all sixteen cells is the sum over the board.
pub proof fn lemma_total_to(g: Grid, f: spec_fn(nat) -> int)
    requires
        shaped(g),
    ensures
        total_to(g, f, 16) == grid_total(g, f),
{
    lemma_grid_total(g, f);
    reveal_with_fuel(total_to, 17);
}

/// A sum over a board is the sum over its lanes, whichever way they run.
pub proof fn lemma_total_by_lanes(g: Grid, d: Direction, f: spec_fn(nat) -> int)
    requires
        shaped(g),
    ensures
        grid_total(g, f) == total(lane(g, d, 0), f) + total(lane(g, d, 1), f) + total(
            lane(g, d, 2),
            f,
        ) + total(lane(g, d, 3), f),
{
    lemma_grid_total(g, f);
    lemma_total4(lane(g, d, 0), f);
    lemma_total4(lane(g, d, 1), f);
    lemma_total4(lane(g, d, 2), f);
    lemma_total4(lane(g, d, 3), f);
}

/// No more than sixteen cells hold anything.
pub proof fn lemma_count_bound(g: Grid, t: nat)
    requires
        shaped(g),
    ensures
        0 <= count_reaching(g, t) <= 16,
        0 <= tile_count(g) <= 16,
{
    lemma_grid_total(g, reaches(t));
    lemma_grid_total(g, filled());
}

/// On a plausible board no two cells of a lane hold the largest tile.
proof fn lemma_lane_top(g: Grid, d: Direction, k: int)
    requires
        plausible(g),
        0 <= k < 4,
    ensures
        lane(g, d, k).len() == 4,
        forall|q: int| 0 <= q < 4 ==> is_tile(#[trigger] lane(g, d, k)[q]),
        total(lane(g, d, k), reaches(131072)) <= 1,
{
    lemma2_to64();
    assert(count_reaching(g, pow2(17)) + 17 <= 18);
    lemma_total_by_lanes(g, d, reaches(131072));
    lemma_total4(lane(g, d, 0), reaches(131072));
    lemma_total4(lane(g, d, 1), reaches(131072));
    lemma_total4(lane(g, d, 2), reaches(131072));
    lemma_total4(lane(g, d, 3), reaches(131072));
}

/// A move leads from a plausible board to a plausible board. The tiles are no
/// more than before, and worth what they were worth and what the move earned.
pub proof fn lemma_pushed_plausible(g: Grid, d: Direction)
    requires
        plausible(g),
    ensures
        plausible(pushed(g, d)),
        tile_count(pushed(g, d)) <= tile_count(g),
        board_worth(pushed(g, d)) == board_worth(g) + earned(g, d),
{
    let h = pushed(g, d);
    lemma_lanes_of_results(g, d, 0);
    assert forall|k: int| 0 <= k < 4 implies {
        &&& #[trigger] lane(h, d, k) == slid(lane(g, d, k))
        &&& total(lane(h, d, k), filled()) <= total(lane(g, d, k), filled())
        &&& total(lane(h, d, k), worth_fn()) == total(lane(g, d, k), worth_fn()) + gain(
            lane(g, d, k),
        )
        &&& forall|p: int| 0 <= p < 4 ==> is_tile(#[trigger] lane(h, d, k)[p])
    } by {
        lemma_lanes_of_results(g, d, k);
        lemma_lane_top(g, d, k);
        lemma_slid_filled(lane(g, d, k));
        lemma_slid_tiles(lane(g, d, k));
    }
    assert(lane(h, d, 0) == slid(lane(g, d, 0)));
    assert(lane(h, d, 1) == slid(lane(g, d, 1)));
    assert(lane(h, d, 2) == slid(lane(g, d, 2)));
    assert(lane(h, d, 3) == slid(lane(g, d, 3)));
    lemma_total_by_lanes(g, d, filled());
    lemma_total_by_lanes(h, d, filled());
    lemma_total_by_lanes(g, d, worth_fn());
    lemma_total_by_lanes(h, d, worth_fn());
    assert forall|i: int, j: int| 0 <= i < 4 && 0 <= j < 4 implies is_tile(#[trigger] h[i][j]) by {
        let k = lane_of(d, i, j);
        let p = place_of(d, i, j);
        assert(lane(h, d, k) == slid(lane(g, d, k)));
        assert(lane(h, d, k)[p] == h[i][j]);
    }
    assert forall|e: nat| 3 <= e <= 17 implies count_reaching(h, #[trigger] pow2(e)) + e <= 18 by {
        let t = pow2((e - 1) as nat);
        lemma_pow2_unfold(e);
        lemma_pow2_pos((e - 1) as nat);
        assert(pow2(e) == 2 * t);
        lemma_slid_reaches(lane(g, d, 0), t);
        lemma_slid_reaches(lane(g, d, 1), t);
        lemma_slid_reaches(lane(g, d, 2), t);
        lemma_slid_reaches(lane(g, d, 3), t);
        lemma_total_by_lanes(g, d, reaches(2 * t));
        lemma_total_by_lanes(g, d, reaches(t));
        lemma_total_by_lanes(h, d, reaches(2 * t));
        assert(2 * count_reaching(h, 2 * t) <= count_reaching(g, 2 * t) + count_reaching(g, t));
        assert(count_reaching(g, pow2(e)) + e <= 18);
        if e == 3 {
            lemma_count_bound(g, t);
        } else {
            assert(count_reaching(g, pow2((e - 1) as nat)) + (e - 1) <= 18);
        }
    }
}

/// Closing the gaps leads from a plausible board to a plausible board with
/// the same tiles.
pub proof fn lemma_compacted_plausible(g: Grid, d: Direction)
    requires
        plausible(g),
    ensures
        plausible(compacted(g, d)),
        tile_count(compacted(g, d)) == tile_count(g),
        board_worth(compacted(g, d)) == board_worth(g),
{
    let h = compacted(g, d);
    lemma_lanes_of_results(g, d, 0);
    assert forall|k: int| 0 <= k < 4 implies #[trigger] lane(h, d, k) == packed(lane(g, d, k)) by {
        lemma_lanes_of_results(g, d, k);
    }
    assert(lane(h, d, 0) == packed(lane(g, d, 0)));
    assert(lane(h, d, 1) == packed(lane(g, d, 1)));
    assert(lane(h, d, 2) == packed(lane(g, d, 2)));
    assert(lane(h, d, 3) == packed(lane(g, d, 3)));
    assert forall|f: spec_fn(nat) -> int| f(0) == 0 implies #[trigger] grid_total(h, f)
        == grid_total(g, f) by {
        lemma_total_by_lanes(g, d, f);
        lemma_total_by_lanes(h, d, f);
        lemma_packed_total(lane(g, d, 0), f);
        lemma_packed_total(lane(g, d, 1), f);
        lemma_packed_total(lane(g, d, 2), f);
        lemma_packed_total(lane(g, d, 3), f);
    }
    assert(filled()(0) == 0);
    assert(worth_fn()(0) == 0);
    assert forall|i: int, j: int| 0 <= i < 4 && 0 <= j < 4 implies is_tile(#[trigger] h[i][j]) by {
        let k = lane_of(d, i, j);
        let p = place_of(d, i, j);
        lemma_lane_top(g, d, k);
        lemma_packed_from(lane(g, d, k));
        assert(lane(h, d, k) == packed(lane(g, d, k)));
        assert(lane(h, d, k)[p] == h[i][j]);
    }
    assert forall|e: nat| 3 <= e <= 17 implies count_reaching(h, #[trigger] pow2(e)) + e <= 18 by {
        lemma_pow2_pos(e);
        assert(reaches(pow2(e))(0) == 0);
        assert(count_reaching(g, pow2(e)) + e <= 18);
    }
}

/// Counts the cells that hold `t` or more.
pub fn count_cells_reaching(cells: &[[usize; SIZE]; SIZE], t: usize) -> (count: usize)
    ensures
        count == count_reaching(grid_of(*cells), t as nat),
{
    let ghost g = grid_of(*cells);
    let ghost f = reaches(t as nat);
    let mut count: usize = 0;
    let mut i: usize = 0;
    while i < SIZE
        invariant
            i <= 4,
            g == grid_of(*cells),
            f == reaches(t as nat),
            count == total_to(g, f, (4 * i) as nat),
            count <= 4 * i,
        decreases 4 - i,
    {
        let mut j: usize = 0;
        while j < SIZE
            invariant
                i < 4,
                j <= 4,
                g == grid_of(*cells),
                f == reaches(t as nat),
                count == total_to(g, f, (4 * i + j) as nat),
                count <= 4 * i + j,
            decreases 4 - j,
        {
            assert((4 * i + j + 1 - 1) / 4 == i && (4 * i + j + 1 - 1) % 4 == j);
            assert(g[i as int][j as int] == cells[i as int][j as int]);
            if cells[i][j] >= t {
                count += 1;
            }
            j += 1;
        }
        i += 1;
    }
    proof {
        lemma_total_to(g, f);
    }
    count
}

/// Whether the board is one that play can lead to.
pub fn check_plausible(cells: &[[usize; SIZE]; SIZE]) -> (ok: bool)
    ensures
        ok <==> plausible(grid_of(*cells)),
{
    let ghost g = grid_of(*cells);
    let mut i: usize = 0;
    while i < SIZE
        invariant
            i <= 4,
            g == grid_of(*cells),
            forall|a: int, b: int| 0 <= a < i && 0 <= b < 4 ==> is_tile(#[trigger] g[a][b]),
        decreases 4 - i,
    {
        let mut j: usize = 0;
        while j < SIZE
            invariant
                i < 4,
                j <= 4,
                g == grid_of(*cells),
                forall|a: int, b: int| 0 <= a < i && 0 <= b < 4 ==> is_tile(#[trigger] g[a][b]),
                forall|b: int| 0 <= b < j ==> is_tile(#[trigger] g[i as int][b]),
            decreases 4 - j,
        {
            assert(g[i as int][j as int] == cells[i as int][j as int]);
            if !check_tile(cells[i][j]) {
                return false;
            }
            j += 1;
        }
        i += 1;
    }
    let mut e: usize = 3;
    let mut t: usize = 8;
    proof {
        lemma2_to64();
    }
    while e <= 17
        invariant
            3 <= e <= 18,
            t == pow2(e as nat),
            t <= 262144,
            g == grid_of(*cells),
            forall|f: nat| 3 <= f < e ==> count_reaching(g, #[trigger] pow2(f)) + f <= 18,
        decreases 18 - e,
    {
        let count = count_cells_reaching(cells, t);
        proof {
            lemma_count_bound(g, t as nat);
        }
        if count + e > 18 {
            return false;
        }
        proof {
            lemma_pow2_unfold((e + 1) as nat);
            lemma2_to64();
            if e < 17 {
                lemma_pow2_strictly_increases(e as nat, 17);
            }
        }
        t = 2 * t;
        e = e + 1;
    }
    true
}

/// On a plausible board with a score that its tiles can have earned, a move
/// stays within the limits of `usize`.
pub proof fn lemma_move_fits(g: Grid, score: nat, d: Direction)
    requires
        plausible(g),
        score <= board_worth(g),
    ensures
        move_fits(g, score, d),
{
    assert forall|i: int, j: int| 0 <= i < 4 && 0 <= j < 4 implies 2 * #[trigger] g[i][j]
        <= 262144 && worth(g[i][j]) <= 2097152 by {
        lemma_tile_values(g[i][j]);
        lemma_worth_bound(g[i][j]);
    }
    lemma_grid_total(g, worth_fn());
    lemma_grid_total(g, face());
    lemma_total_by_lanes(g, d, face());
    lemma_slid_filled(lane(g, d, 0));
    lemma_slid_filled(lane(g, d, 1));
    lemma_slid_filled(lane(g, d, 2));
    lemma_slid_filled(lane(g, d, 3));
    assert(earned(g, d) <= 16 * 131072);
    assert(score <= 16 * 2097152);
}

/// A move that changes the board leaves a cell empty.
pub proof fn lemma_move_leaves_room(g: Grid, d: Direction)
    requires
        shaped(g),
    ensures
        pushed(g, d) != g ==> tile_count(pushed(g, d)) < 16,
{
    let h = pushed(g, d);
    lemma_lanes_of_results(g, d, 0);
    if h != g {
        if forall|k: int| 0 <= k < 4 ==> #[trigger] lane(h, d, k) == lane(g, d, k) {
            lemma_lanes_fix_grid(h, g, d);
        }
        let k = choose|k: int| 0 <= k < 4 && #[trigger] lane(h, d, k) != lane(g, d, k);
        lemma_lanes_of_results(g, d, k);
        lemma_slid_filled(lane(g, d, k));
        assert(lane(h, d, k)[3] == 0);
        lemma_total_by_lanes(h, d, filled());
        lemma_total4(lane(h, d, 0), filled());
        lemma_total4(lane(h, d, 1), filled());
        lemma_total4(lane(h, d, 2), filled());
        lemma_total4(lane(h, d, 3), filled());
    }
}

/// The blank board is one that play can lead to, and holds no tile.
pub proof fn lemma_blank()
    ensures
        plausible(blank()),
        tile_count(blank()) == 0,
        board_worth(blank()) == 0,
{
    let g = blank();
    lemma_grid_total(g, filled());
    lemma_grid_total(g, worth_fn());
    assert forall|e: nat| 3 <= e <= 17 implies count_reaching(g, #[trigger] pow2(e)) + e <= 18 by {
        lemma_pow2_pos(e);
        lemma_grid_total(g, reaches(pow2(e)));
    }
}

/// The tiles of a board are worth no less than nothing.
pub proof fn lemma_worth_floor(g: Grid)
    requires
        shaped(g),
    ensures
        board_worth(g) >= 0,
{
    lemma_grid_total(g, worth_fn());
}

/// A board with an empty cell is not stuck.
pub proof fn lemma_not_stuck(g: Grid)
    requires
        shaped(g),
        tile_count(g) < 16,
    ensures
        !stuck(g),
{
    lemma_grid_total(g, filled());
    if stuck(g) {
        assert(g[0][0] != 0 && g[0][1] != 0 && g[0][2] != 0 && g[0][3] != 0);
        assert(g[1][0] != 0 && g[1][1] != 0 && g[1][2] != 0 && g[1][3] != 0);
        assert(g[2][0] != 0 && g[2][1] != 0 && g[2][2] != 0 && g[2][3] != 0);
        assert(g[3][0] != 0 && g[3][1] != 0 && g[3][2] != 0 && g[3][3] != 0);
    }
}

} // verus!
