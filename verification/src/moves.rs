//! The move on an array of cells: closing the gaps, merging, and both
//! together, each shown to give what the model of the board says.

use vstd::prelude::*;
use crate::four::{lemma_packed_from, lemma_scan_merges, lemma_scan_step, lemma_sweeps_pack};
use crate::grid::{
    cell_at, col_of, compacted, earned, grid_of, lane, lane_of, lemma_lanes_fix_grid,
    lemma_lanes_of_results, lemma_pushed_fixed, place_of, pushed, row_of, shaped, Direction, Grid,
    SIZE,
};
use crate::line::{gain, packed};
use crate::steps::{fuse_gain_to, fused, fused_to, fuses_at, nudged, swept, swept_to};

verus! {

/// How far the tiles of four cells stand from the front, summed.
spec fn weight(s: Seq<nat>) -> int {
    (if s[1] != 0 {
        1int
    } else {
        0
    }) + (if s[2] != 0 {
        2int
    } else {
        0
    }) + (if s[3] != 0 {
        3int
    } else {
        0
    })
}

/// The weights of the four lanes, summed.
spec fn drift(g: Grid, d: Direction) -> int {
    weight(lane(g, d, 0)) + weight(lane(g, d, 1)) + weight(lane(g, d, 2)) + weight(lane(g, d, 3))
}

/// `after` is `before` with the value `v` in cell `p` of lane `k`.
spec fn written(
    before: [[usize; SIZE]; SIZE],
    after: [[usize; SIZE]; SIZE],
    d: Direction,
    k: int,
    p: int,
    v: usize,
) -> bool {
    forall|i: int, j: int|
        0 <= i < 4 && 0 <= j < 4 ==> #[trigger] after[i][j] == (if i == row_of(d, k, p) && j
            == col_of(d, k, p) {
            v
        } else {
            before[i][j]
        })
}

/// A write into a cell changes that cell of its lane and no other lane.
proof fn lemma_written(
    before: [[usize; SIZE]; SIZE],
    after: [[usize; SIZE]; SIZE],
    d: Direction,
    k: int,
    p: int,
    v: usize,
)
    requires
        0 <= k < 4,
        0 <= p < 4,
        written(before, after, d, k, p, v),
    ensures
        lane(grid_of(after), d, k) == lane(grid_of(before), d, k).update(p, v as nat),
        forall|k2: int|
            0 <= k2 < 4 && k2 != k ==> #[trigger] lane(grid_of(after), d, k2) == lane(
                grid_of(before),
                d,
                k2,
            ),
{
    assert(lane(grid_of(after), d, k) =~= lane(grid_of(before), d, k).update(p, v as nat));
    assert forall|k2: int| 0 <= k2 < 4 && k2 != k implies #[trigger] lane(grid_of(after), d, k2)
        == lane(grid_of(before), d, k2) by {
        assert(lane(grid_of(after), d, k2) =~= lane(grid_of(before), d, k2));
    }
}

/// Where the tiles of one lane have come nearer to the front and the other
/// lanes are as they were, the tiles of the board have come nearer to it.
proof fn lemma_drift_falls(g: Grid, h: Grid, d: Direction, k: int)
    requires
        0 <= k < 4,
        weight(lane(h, d, k)) < weight(lane(g, d, k)),
        forall|k2: int| 0 <= k2 < 4 && k2 != k ==> #[trigger] lane(h, d, k2) == lane(g, d, k2),
    ensures
        drift(h, d) < drift(g, d),
{
    assert(lane(h, d, 0) == lane(g, d, 0) || k == 0);
    assert(lane(h, d, 1) == lane(g, d, 1) || k == 1);
    assert(lane(h, d, 2) == lane(g, d, 2) || k == 2);
    assert(lane(h, d, 3) == lane(g, d, 3) || k == 3);
}

/// One step of a sweep: the tile in cell `p` of lane `k` moves into the cell
/// before it if that is empty. Returns whether it moved.
fn nudge_cell(
    cells: &mut [[usize; SIZE]; SIZE],
    d: &Direction,
    k: usize,
    p: usize,
) -> (moved: bool)
    requires
        k < 4,
        1 <= p < 4,
    ensures
        lane(grid_of(*final(cells)), *d, k as int) == nudged(
            lane(grid_of(*old(cells)), *d, k as int),
            p as int,
        ),
        forall|k2: int|
            0 <= k2 < 4 && k2 != k ==> #[trigger] lane(grid_of(*final(cells)), *d, k2) == lane(
                grid_of(*old(cells)),
                *d,
                k2,
            ),
        !moved ==> *final(cells) == *old(cells),
        moved ==> drift(grid_of(*final(cells)), *d) < drift(grid_of(*old(cells)), *d),
{
    let (r, c) = cell_at(d, k, p);
    let (r0, c0) = cell_at(d, k, p - 1);
    let ghost here = *cells;
    let ghost cur = lane(grid_of(here), *d, k as int);
    assert(cur[p as int] == here[r as int][c as int]);
    assert(cur[p - 1] == here[r0 as int][c0 as int]);
    if cells[r0][c0] == 0 && cells[r][c] != 0 {
        let v = cells[r][c];
        cells[r0][c0] = v;
        let ghost mid = *cells;
        cells[r][c] = 0;
        proof {
            assert(written(here, mid, *d, k as int, p - 1, v));
            lemma_written(here, mid, *d, k as int, p - 1, v);
            assert(written(mid, *cells, *d, k as int, p as int, 0));
            lemma_written(mid, *cells, *d, k as int, p as int, 0);
            assert(lane(grid_of(*cells), *d, k as int) == nudged(cur, p as int));
            lemma_drift_falls(grid_of(here), grid_of(*cells), *d, k as int);
        }
        true
    } else {
        false
    }
}

/// Closes the gaps of every lane towards `d`, in four sweeps over the board.
/// In a sweep each tile moves one cell on if that cell is empty. Reports
/// whether any tile moved.
pub(crate) fn shift_cells(cells: &mut [[usize; SIZE]; SIZE], d: &Direction) -> (moved: bool)
    ensures
        grid_of(*final(cells)) == compacted(grid_of(*old(cells)), *d),
        moved <==> grid_of(*final(cells)) != grid_of(*old(cells)),
{
    let ghost start = grid_of(*cells);
    let mut moved = false;
    let mut n: usize = 0;
    while n < SIZE
        invariant
            n <= 4,
            forall|k: int|
                0 <= k < 4 ==> #[trigger] lane(grid_of(*cells), *d, k) == swept(
                    lane(start, *d, k),
                    n as nat,
                ),
            moved ==> drift(grid_of(*cells), *d) < drift(start, *d),
            !moved ==> grid_of(*cells) == start,
        decreases 4 - n,
    {
        let ghost pass = grid_of(*cells);
        let mut k: usize = 0;
        while k < SIZE
            invariant
                k <= 4,
                forall|k2: int|
                    0 <= k2 < k ==> #[trigger] lane(grid_of(*cells), *d, k2) == swept_to(
                        lane(pass, *d, k2),
                        3,
                    ),
                forall|k2: int|
                    k <= k2 < 4 ==> #[trigger] lane(grid_of(*cells), *d, k2) == lane(pass, *d, k2),
                moved ==> drift(grid_of(*cells), *d) < drift(start, *d),
                !moved ==> grid_of(*cells) == start,
            decreases 4 - k,
        {
            let ghost row = grid_of(*cells);
            let mut p: usize = 1;
            while p < SIZE
                invariant
                    k < 4,
                    1 <= p <= 4,
                    lane(grid_of(*cells), *d, k as int) == swept_to(
                        lane(row, *d, k as int),
                        (p - 1) as nat,
                    ),
                    forall|k2: int|
                        0 <= k2 < 4 && k2 != k ==> #[trigger] lane(grid_of(*cells), *d, k2) == lane(
                            row,
                            *d,
                            k2,
                        ),
                    moved ==> drift(grid_of(*cells), *d) < drift(start, *d),
                    !moved ==> grid_of(*cells) == start,
                decreases 4 - p,
            {
                if nudge_cell(cells, d, k, p) {
                    moved = true;
                }
                p += 1;
            }
            k += 1;
        }
        proof {
            assert forall|k2: int| 0 <= k2 < 4 implies #[trigger] lane(grid_of(*cells), *d, k2)
                == swept(lane(start, *d, k2), (n + 1) as nat) by {
                assert(lane(pass, *d, k2) == swept(lane(start, *d, k2), n as nat));
                assert(lane(pass, *d, k2).len() == 4);
                assert(swept(lane(start, *d, k2), n as nat).len() == lane(start, *d, k2).len());
            }
        }
        n += 1;
    }
    proof {
        let end = grid_of(*cells);
        assert forall|k: int| 0 <= k < 4 implies #[trigger] lane(end, *d, k) == lane(
            compacted(start, *d),
            *d,
            k,
        ) by {
            lemma_sweeps_pack(lane(start, *d, k));
            lemma_lanes_of_results(start, *d, k);
        }
        lemma_lanes_of_results(start, *d, 0);
        lemma_lanes_fix_grid(end, compacted(start, *d), *d);
    }
    moved
}

/// The board after the merge scan has run over every lane.
pub open spec fn scanned(g: Grid, d: Direction) -> Grid {
    Seq::new(
        4,
        |i: int|
            Seq::new(4, |j: int| fused_to(lane(g, d, lane_of(d, i, j)), 3)[place_of(d, i, j)]),
    )
}

/// What the merge scan scores over the lanes before lane `k`.
pub open spec fn scan_gain_to(g: Grid, d: Direction, k: nat) -> nat
    decreases k,
{
    if k == 0 {
        0
    } else {
        scan_gain_to(g, d, (k - 1) as nat) + fuse_gain_to(lane(g, d, k - 1), 3)
    }
}

/// Every cell can be doubled, and the score can take what the scan earns.
pub open spec fn scan_fits(g: Grid, score: nat, d: Direction) -> bool {
    &&& forall|i: int, j: int| 0 <= i < 4 && 0 <= j < 4 ==> 2 * #[trigger] g[i][j] <= usize::MAX
    &&& score + scan_gain_to(g, d, 4) <= usize::MAX
}

/// One step of the merge scan: a tile in cell `p` of lane `k` that equals the
/// cell before it is merged into that cell, and the doubled value is added to
/// the score. Returns whether it merged.
fn fuse_cell(
    cells: &mut [[usize; SIZE]; SIZE],
    score: &mut usize,
    d: &Direction,
    k: usize,
    p: usize,
) -> (merged: bool)
    requires
        k < 4,
        1 <= p < 4,
        ({
            let s = lane(grid_of(*old(cells)), *d, k as int);
            fuses_at(s, p as int) ==> 2 * s[p as int] <= usize::MAX && *old(score) + 2 * s[p as int]
                <= usize::MAX
        }),
    ensures
        lane(grid_of(*final(cells)), *d, k as int) == fused(
            lane(grid_of(*old(cells)), *d, k as int),
            p as int,
        ),
        forall|k2: int|
            0 <= k2 < 4 && k2 != k ==> #[trigger] lane(grid_of(*final(cells)), *d, k2) == lane(
                grid_of(*old(cells)),
                *d,
                k2,
            ),
        merged <==> fuses_at(lane(grid_of(*old(cells)), *d, k as int), p as int),
        !merged ==> *final(score) == *old(score),
        merged ==> *final(score) > *old(score),
        merged ==> *final(score) == *old(score) + 2 * lane(
            grid_of(*old(cells)),
            *d,
            k as int,
        )[p as int],
{
    let (r, c) = cell_at(d, k, p);
    let (r0, c0) = cell_at(d, k, p - 1);
    let ghost here = *cells;
    let ghost cur = lane(grid_of(here), *d, k as int);
    assert(cur[p as int] == here[r as int][c as int]);
    assert(cur[p - 1] == here[r0 as int][c0 as int]);
    if cells[r][c] == cells[r0][c0] && cells[r][c] != 0 {
        let v = cells[r][c];
        *score = *score + 2 * v;
        cells[r0][c0] = 2 * v;
        let ghost mid = *cells;
        cells[r][c] = 0;
        proof {
            assert(written(here, mid, *d, k as int, p - 1, (2 * v) as usize));
            lemma_written(here, mid, *d, k as int, p - 1, (2 * v) as usize);
            assert(written(mid, *cells, *d, k as int, p as int, 0));
            lemma_written(mid, *cells, *d, k as int, p as int, 0);
            assert(lane(grid_of(*cells), *d, k as int) == fused(cur, p as int));
        }
        true
    } else {
        false
    }
}

/// What the scan has scored before lane `k` and in lane `k` is part of what
/// it scores in all.
proof fn lemma_scan_gain_part(g: Grid, d: Direction, k: int, p: int)
    requires
        shaped(g),
        0 <= k < 4,
        1 <= p <= 3,
    ensures
        scan_gain_to(g, d, k as nat) + fuse_gain_to(lane(g, d, k), p as nat) <= scan_gain_to(
            g,
            d,
            4,
        ),
        scan_gain_to(g, d, (k + 1) as nat) == scan_gain_to(g, d, k as nat) + fuse_gain_to(
            lane(g, d, k),
            3,
        ),
{
    reveal_with_fuel(scan_gain_to, 5);
    lemma_scan_step(lane(g, d, k), p);
}

/// Scans every lane from the cell behind its front to its last cell. A tile
/// that equals the cell before it is merged into that cell, which doubles, and
/// the doubled value is added to the score. Returns whether anything merged.
pub(crate) fn merge_cells(
    cells: &mut [[usize; SIZE]; SIZE],
    score: &mut usize,
    d: &Direction,
) -> (merged: bool)
    requires
        scan_fits(grid_of(*old(cells)), *old(score) as nat, *d),
    ensures
        grid_of(*final(cells)) == scanned(grid_of(*old(cells)), *d),
        *final(score) == *old(score) + scan_gain_to(grid_of(*old(cells)), *d, 4),
        merged <==> *final(score) != *old(score),
{
    let ghost start = grid_of(*cells);
    let ghost score0 = *score;
    let mut merged = false;
    let mut k: usize = 0;
    while k < SIZE
        invariant
            k <= 4,
            scan_fits(start, score0 as nat, *d),
            shaped(start),
            forall|k2: int|
                0 <= k2 < k ==> #[trigger] lane(grid_of(*cells), *d, k2) == fused_to(
                    lane(start, *d, k2),
                    3,
                ),
            forall|k2: int|
                k <= k2 < 4 ==> #[trigger] lane(grid_of(*cells), *d, k2) == lane(start, *d, k2),
            *score == score0 + scan_gain_to(start, *d, k as nat),
            merged <==> *score != score0,
        decreases 4 - k,
    {
        let ghost row = grid_of(*cells);
        let ghost u = lane(start, *d, k as int);
        let ghost base = *score;
        let mut p: usize = 1;
        while p < SIZE
            invariant
                k < 4,
                1 <= p <= 4,
                shaped(start),
                u == lane(start, *d, k as int),
                scan_fits(start, score0 as nat, *d),
                base == score0 + scan_gain_to(start, *d, k as nat),
                lane(grid_of(*cells), *d, k as int) == fused_to(u, (p - 1) as nat),
                forall|k2: int|
                    0 <= k2 < 4 && k2 != k ==> #[trigger] lane(grid_of(*cells), *d, k2) == lane(
                        row,
                        *d,
                        k2,
                    ),
                *score == base + fuse_gain_to(u, (p - 1) as nat),
                merged <==> *score != score0,
            decreases 4 - p,
        {
            proof {
                lemma_scan_step(u, p as int);
                lemma_scan_gain_part(start, *d, k as int, p as int);
                assert(u[p as int] == start[row_of(*d, k as int, p as int)][col_of(
                    *d,
                    k as int,
                    p as int,
                )]);
            }
            if fuse_cell(cells, score, d, k, p) {
                merged = true;
            }
            p += 1;
        }
        proof {
            lemma_scan_gain_part(start, *d, k as int, 3);
        }
        k += 1;
    }
    proof {
        let end = grid_of(*cells);
        assert forall|k: int| 0 <= k < 4 implies #[trigger] lane(end, *d, k) == lane(
            scanned(start, *d),
            *d,
            k,
        ) by {
            lemma_lanes_of_scanned(start, *d, k);
        }
        lemma_lanes_of_scanned(start, *d, 0);
        lemma_lanes_fix_grid(end, scanned(start, *d), *d);
    }
    merged
}

/// The lanes of the scanned board are the scanned lanes.
proof fn lemma_lanes_of_scanned(g: Grid, d: Direction, k: int)
    requires
        shaped(g),
        0 <= k < 4,
    ensures
        shaped(scanned(g, d)),
        lane(scanned(g, d), d, k) == fused_to(lane(g, d, k), 3),
{
    lemma_scan_step(lane(g, d, k), 1);
    reveal_with_fuel(fused_to, 4);
    assert(lane(scanned(g, d), d, k) =~= fused_to(lane(g, d, k), 3));
}

/// Every cell can be doubled, and the score can take what the move earns.
pub open spec fn move_fits(g: Grid, score: nat, d: Direction) -> bool {
    &&& forall|i: int, j: int| 0 <= i < 4 && 0 <= j < 4 ==> 2 * #[trigger] g[i][j] <= usize::MAX
    &&& score + earned(g, d) <= usize::MAX
}

/// After the gaps are closed, the merge scan fits where the move fits, and
/// scores what the move earns.
proof fn lemma_scan_fits(g: Grid, score: nat, d: Direction)
    requires
        shaped(g),
        move_fits(g, score, d),
    ensures
        scan_fits(compacted(g, d), score, d),
        scan_gain_to(compacted(g, d), d, 4) == earned(g, d),
{
    let g1 = compacted(g, d);
    reveal_with_fuel(scan_gain_to, 5);
    assert forall|k: int| 0 <= k < 4 implies {
        &&& #[trigger] lane(g1, d, k) == packed(lane(g, d, k))
        &&& fuse_gain_to(lane(g1, d, k), 3) == gain(lane(g, d, k))
        &&& forall|p: int| 0 <= p < 4 ==> 2 * lane(g1, d, k)[p] <= usize::MAX
    } by {
        lemma_lanes_of_results(g, d, k);
        lemma_scan_merges(lane(g, d, k));
        assert forall|q: int| 0 <= q < 4 implies 2 * lane(g, d, k)[q] <= usize::MAX by {
            assert(2 * g[row_of(d, k, q)][col_of(d, k, q)] <= usize::MAX);
        }
        lemma_packed_from(lane(g, d, k));
    }
    assert forall|i: int, j: int| 0 <= i < 4 && 0 <= j < 4 implies 2 * #[trigger] g1[i][j]
        <= usize::MAX by {
        let k = lane_of(d, i, j);
        let p = place_of(d, i, j);
        assert(lane(g1, d, k)[p] == g1[i][j]);
    }
    assert(lane(g1, d, 0) == packed(lane(g, d, 0)));
    assert(lane(g1, d, 1) == packed(lane(g, d, 1)));
    assert(lane(g1, d, 2) == packed(lane(g, d, 2)));
    assert(lane(g1, d, 3) == packed(lane(g, d, 3)));
}

/// Closing the gaps, scanning and closing the gaps again is the move.
proof fn lemma_three_steps(g: Grid, d: Direction)
    requires
        shaped(g),
    ensures
        compacted(scanned(compacted(g, d), d), d) == pushed(g, d),
{
    let g1 = compacted(g, d);
    let g2 = scanned(g1, d);
    let g3 = compacted(g2, d);
    lemma_lanes_of_results(g, d, 0);
    lemma_lanes_of_scanned(g1, d, 0);
    lemma_lanes_of_results(g2, d, 0);
    assert forall|k: int| 0 <= k < 4 implies #[trigger] lane(g3, d, k) == lane(
        pushed(g, d),
        d,
        k,
    ) by {
        lemma_lanes_of_results(g, d, k);
        lemma_lanes_of_scanned(g1, d, k);
        lemma_lanes_of_results(g2, d, k);
        lemma_scan_merges(lane(g, d, k));
    }
    lemma_lanes_fix_grid(g3, pushed(g, d), d);
}

/// The transform of a move: closes the gaps towards `d`, merges, and closes
/// the gaps that the merges left. Returns whether the board changed.
pub(crate) fn slide_cells(
    cells: &mut [[usize; SIZE]; SIZE],
    score: &mut usize,
    d: &Direction,
) -> (moved: bool)
    requires
        move_fits(grid_of(*old(cells)), *old(score) as nat, *d),
    ensures
        grid_of(*final(cells)) == pushed(grid_of(*old(cells)), *d),
        *final(score) == *old(score) + earned(grid_of(*old(cells)), *d),
        moved <==> grid_of(*final(cells)) != grid_of(*old(cells)),
{
    let ghost g = grid_of(*cells);
    proof {
        lemma_scan_fits(g, *score as nat, *d);
        lemma_three_steps(g, *d);
        lemma_pushed_fixed(g, *d);
    }
    let closed = shift_cells(cells, d);
    let merged = merge_cells(cells, score, d);
    shift_cells(cells, d);
    closed || merged
}

} // verus!
