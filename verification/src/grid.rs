//! The board as a mathematical value, its lanes for each direction, and what
//! a move makes of it.

use vstd::prelude::*;
use crate::four::lemma_slid_fixed;
use crate::line::{gain, packed, slid};

verus! {

/// The width and the height of the board.
pub const SIZE: usize = 4;

/// The direction of a move.
#[derive(Debug, Clone, Copy, PartialEq, Eq, Structural)]
pub enum Direction {
    Up,
    Down,
    Left,
    Right,
}

/// A board as a mathematical value: its rows from top to bottom, each row its
/// cells from left to right. An empty cell holds 0.
pub type Grid = Seq<Seq<nat>>;

/// Four rows of four cells.
pub open spec fn shaped(g: Grid) -> bool {
    &&& g.len() == 4
    &&& forall|i: int| 0 <= i < 4 ==> (#[trigger] g[i]).len() == 4
}

/// The board without a tile.
pub open spec fn blank() -> Grid {
    Seq::new(4, |i: int| Seq::new(4, |j: int| 0nat))
}

/// The board that an array of cells stands for.
pub open spec fn grid_of(cells: [[usize; SIZE]; SIZE]) -> Grid {
    Seq::new(4, |i: int| Seq::new(4, |j: int| cells[i][j] as nat))
}

/// A move works on four lanes, the rows or the columns. A lane is read from the
/// edge that the tiles move to. This is the row of cell `p` of lane `k`.
pub open spec fn row_of(d: Direction, k: int, p: int) -> int {
    match d {
        Direction::Left => k,
        Direction::Right => k,
        Direction::Up => p,
        Direction::Down => 3 - p,
    }
}

/// The column of cell `p` of lane `k`.
pub open spec fn col_of(d: Direction, k: int, p: int) -> int {
    match d {
        Direction::Left => p,
        Direction::Right => 3 - p,
        Direction::Up => k,
        Direction::Down => k,
    }
}

/// The lane that holds the cell in row `i` and column `j`.
pub open spec fn lane_of(d: Direction, i: int, j: int) -> int {
    match d {
        Direction::Left => i,
        Direction::Right => i,
        Direction::Up => j,
        Direction::Down => j,
    }
}

/// The place of the cell in row `i` and column `j` within its lane.
pub open spec fn place_of(d: Direction, i: int, j: int) -> int {
    match d {
        Direction::Left => j,
        Direction::Right => 3 - j,
        Direction::Up => i,
        Direction::Down => 3 - i,
    }
}

/// Lane `k` of the board for a move in direction `d`, its first cell at the
/// edge that the tiles move to.
pub open spec fn lane(g: Grid, d: Direction, k: int) -> Seq<nat> {
    Seq::new(4, |p: int| g[row_of(d, k, p)][col_of(d, k, p)])
}

/// The board with every lane's gaps closed towards `d`, nothing merged.
pub open spec fn compacted(g: Grid, d: Direction) -> Grid {
    Seq::new(
        4,
        |i: int| Seq::new(4, |j: int| packed(lane(g, d, lane_of(d, i, j)))[place_of(d, i, j)]),
    )
}

/// The board after a move in direction `d`, before a new tile appears.
pub open spec fn pushed(g: Grid, d: Direction) -> Grid {
    Seq::new(
        4,
        |i: int| Seq::new(4, |j: int| slid(lane(g, d, lane_of(d, i, j)))[place_of(d, i, j)]),
    )
}

/// The score that a move in direction `d` earns: the sum of the tiles that its
/// merges make.
pub open spec fn earned(g: Grid, d: Direction) -> nat {
    gain(lane(g, d, 0)) + gain(lane(g, d, 1)) + gain(lane(g, d, 2)) + gain(lane(g, d, 3))
}

/// The board with the value `v` in row `i`, column `j`.
pub open spec fn with_tile(g: Grid, i: int, j: int, v: nat) -> Grid {
    g.update(i, g[i].update(j, v))
}

/// No cell is empty and no two neighbours in a row or a column are equal.
pub open spec fn stuck(g: Grid) -> bool {
    &&& forall|i: int, j: int| 0 <= i < 4 && 0 <= j < 4 ==> #[trigger] g[i][j] != 0
    &&& forall|i: int, j: int| 0 <= i < 4 && 0 <= j < 3 ==> #[trigger] g[i][j] != g[i][j + 1]
    &&& forall|i: int, j: int| 0 <= i < 3 && 0 <= j < 4 ==> #[trigger] g[i][j] != g[i + 1][j]
}

/// The row and the column of cell `p` of lane `k`.
pub(crate) fn cell_at(d: &Direction, k: usize, p: usize) -> (rc: (usize, usize))
    requires
        k < 4,
        p < 4,
    ensures
        rc.0 == row_of(*d, k as int, p as int),
        rc.1 == col_of(*d, k as int, p as int),
        rc.0 < 4,
        rc.1 < 4,
{
    match d {
        Direction::Left => (k, p),
        Direction::Right => (k, 3 - p),
        Direction::Up => (p, k),
        Direction::Down => (3 - p, k),
    }
}

/// Two boards with the same lanes are the same board.
pub proof fn lemma_lanes_fix_grid(g: Grid, h: Grid, d: Direction)
    requires
        shaped(g),
        shaped(h),
        forall|k: int| 0 <= k < 4 ==> #[trigger] lane(g, d, k) == lane(h, d, k),
    ensures
        g == h,
{
    assert forall|i: int, j: int| 0 <= i < 4 && 0 <= j < 4 implies g[i][j] == h[i][j] by {
        let k = lane_of(d, i, j);
        let p = place_of(d, i, j);
        assert(lane(g, d, k)[p] == lane(h, d, k)[p]);
    }
    assert forall|i: int| 0 <= i < 4 implies g[i] == h[i] by {
        assert(g[i] =~= h[i]);
    }
    assert(g =~= h);
}

/// The lanes of the compacted board are the packed lanes, and those of the
/// board after a move are the lanes after the move.
pub proof fn lemma_lanes_of_results(g: Grid, d: Direction, k: int)
    requires
        shaped(g),
        0 <= k < 4,
    ensures
        shaped(compacted(g, d)),
        shaped(pushed(g, d)),
        lane(g, d, k).len() == 4,
        lane(compacted(g, d), d, k) == packed(lane(g, d, k)),
        lane(pushed(g, d), d, k) == slid(lane(g, d, k)),
{
    lemma_slid_fixed(lane(g, d, k));
    assert(lane(compacted(g, d), d, k) =~= packed(lane(g, d, k)));
    assert(lane(pushed(g, d), d, k) =~= slid(lane(g, d, k)));
}

/// A move leaves a lane as it is exactly if the lane has no gap to close and
/// nothing merges in it.
proof fn lemma_lane_fixed(g: Grid, d: Direction, k: int)
    requires
        shaped(g),
        0 <= k < 4,
    ensures
        lane(pushed(g, d), d, k) == lane(g, d, k) <==> (lane(compacted(g, d), d, k) == lane(
            g,
            d,
            k,
        ) && gain(lane(g, d, k)) == 0),
{
    lemma_lanes_of_results(g, d, k);
    lemma_slid_fixed(lane(g, d, k));
}

/// A move leaves the board as it is exactly if no lane has a gap to close and
/// nothing merges.
pub proof fn lemma_pushed_fixed(g: Grid, d: Direction)
    requires
        shaped(g),
    ensures
        pushed(g, d) == g <==> (compacted(g, d) == g && earned(g, d) == 0),
{
    let h = pushed(g, d);
    let c = compacted(g, d);
    lemma_lanes_of_results(g, d, 0);
    assert(h == g ==> c == g && earned(g, d) == 0) by {
        if h == g {
            assert forall|k: int| 0 <= k < 4 implies #[trigger] lane(c, d, k) == lane(g, d, k) by {
                lemma_lane_fixed(g, d, k);
            }
            lemma_lanes_fix_grid(c, g, d);
            lemma_lane_fixed(g, d, 0);
            lemma_lane_fixed(g, d, 1);
            lemma_lane_fixed(g, d, 2);
            lemma_lane_fixed(g, d, 3);
        }
    }
    assert(c == g && earned(g, d) == 0 ==> h == g) by {
        if c == g && earned(g, d) == 0 {
            assert forall|k: int| 0 <= k < 4 implies #[trigger] lane(h, d, k) == lane(g, d, k) by {
                lemma_lane_fixed(g, d, k);
            }
            lemma_lanes_fix_grid(h, g, d);
        }
    }
}

} // verus!
