//! What holds of a game as a whole.

use vstd::prelude::*;
use crate::bounds::{
    lemma_blank, lemma_move_leaves_room, lemma_not_stuck, lemma_pushed_plausible, plausible,
    tile_count,
};
use crate::four::lemma_slid_blocked;
use crate::game::{follows, fresh, opening, Position};
use crate::grid::{
    blank, col_of, earned, lane, lemma_lanes_fix_grid, lemma_lanes_of_results, pushed, row_of,
    shaped, stuck, Direction, Grid,
};
use crate::spawn::{
    empty_cells, lemma_empties_count, lemma_empties_to, lemma_spawned, rolled, spawn_of, spawned,
};

verus! {

/// A game starts with exactly two tiles, each a 2 or a 4, and is not over.
pub proof fn lemma_opening(p: Position)
    requires
        opening(p),
    ensures
        fresh(p),
        plausible(p.board),
{
    let first = choose|first: Grid| #[trigger] spawn_of(blank(), first) && spawn_of(first, p.board);
    lemma_blank();
    let (pick1, roll1) = choose|pick: int, roll: nat|
        0 <= pick < empty_cells(blank()).len() && roll < 10 && first == #[trigger] spawned(
            blank(),
            pick,
            roll,
        );
    lemma_spawned(blank(), pick1, roll1);
    lemma_empties_to(blank(), 16);
    let (pick2, roll2) = choose|pick: int, roll: nat|
        0 <= pick < empty_cells(first).len() && roll < 10 && p.board == #[trigger] spawned(
            first,
            pick,
            roll,
        );
    lemma_spawned(first, pick2, roll2);
    lemma_empties_to(first, 16);
    lemma_not_stuck(p.board);
    assert forall|i: int, j: int| 0 <= i < 4 && 0 <= j < 4 implies {
        let v = #[trigger] p.board[i][j];
        v == 0 || v == 2 || v == 4
    } by {
        let v1 = first[i][j];
        assert(blank()[i][j] == 0);
        assert(v1 == 0 || v1 == 2 || v1 == 4);
    }
}

/// A move that changes nothing leaves the board and the score as they were.
pub proof fn lemma_idle_move(before: Position, d: Direction, after: Position)
    requires
        follows(before, d, after),
        pushed(before.board, d) == before.board,
    ensures
        after == before,
{
}

/// A call of `make_move` never lowers the score: it adds what the merges of
/// the move made, and nothing where the move changes nothing.
pub proof fn lemma_score_step(before: Position, d: Direction, after: Position)
    requires
        shaped(before.board),
        follows(before, d, after),
    ensures
        after.score >= before.score,
        after.score == before.score || after.score == before.score + earned(before.board, d),
{
}

/// A call of `make_move` adds at most one tile to the board.
pub proof fn lemma_tile_step(before: Position, d: Direction, after: Position)
    requires
        plausible(before.board),
        follows(before, d, after),
    ensures
        plausible(after.board),
        tile_count(after.board) <= tile_count(before.board) + 1,
{
    let h = pushed(before.board, d);
    lemma_pushed_plausible(before.board, d);
    if h != before.board {
        let (pick, roll) = choose|pick: int, roll: nat|
            0 <= pick < empty_cells(h).len() && roll < 10 && after.board == #[trigger] spawned(
                h,
                pick,
                roll,
            );
        lemma_spawned(h, pick, roll);
    }
}

/// The positions of a game, one after each call of `make_move`.
pub open spec fn played(trace: Seq<Position>, moves: Seq<Direction>) -> bool {
    &&& trace.len() == moves.len() + 1
    &&& forall|n: int| 0 <= n < moves.len() ==> #[trigger] follows(trace[n], moves[n], trace[n + 1])
}

/// Over any sequence of moves the score never falls.
pub proof fn lemma_score_never_falls(trace: Seq<Position>, moves: Seq<Direction>, a: int, b: int)
    requires
        played(trace, moves),
        0 <= a <= b < trace.len(),
    ensures
        trace[a].score <= trace[b].score,
    decreases b - a,
{
    if a < b {
        lemma_score_never_falls(trace, moves, a, b - 1);
        assert(follows(trace[b - 1], moves[b - 1], trace[b - 1 + 1]));
    }
}

/// Over any sequence of moves from a board that play can lead to, the boards
/// stay such boards, and no move adds more than one tile.
pub proof fn lemma_tiles_over_play(trace: Seq<Position>, moves: Seq<Direction>, n: int)
    requires
        played(trace, moves),
        plausible(trace[0].board),
        0 <= n < trace.len(),
    ensures
        plausible(trace[n].board),
        n > 0 ==> tile_count(trace[n].board) <= tile_count(trace[n - 1].board) + 1,
    decreases n,
{
    if n > 0 {
        lemma_tiles_over_play(trace, moves, n - 1);
        assert(follows(trace[n - 1], moves[n - 1], trace[n - 1 + 1]));
        lemma_tile_step(trace[n - 1], moves[n - 1], trace[n]);
    }
}

/// Once the game is over no move changes the board, whatever its direction.
pub proof fn lemma_stuck_stays(g: Grid, d: Direction)
    requires
        shaped(g),
        stuck(g),
    ensures
        pushed(g, d) == g,
{
    lemma_lanes_of_results(g, d, 0);
    let h = pushed(g, d);
    assert forall|k: int| 0 <= k < 4 implies #[trigger] lane(h, d, k) == lane(g, d, k) by {
        let s = lane(g, d, k);
        lemma_lanes_of_results(g, d, k);
        assert forall|q: int| 0 <= q < 4 implies #[trigger] s[q] != 0 by {
            assert(g[row_of(d, k, q)][col_of(d, k, q)] != 0);
        }
        match d {
            Direction::Left => {
                assert(g[k][0int] != g[k][0int + 1]);
                assert(g[k][1int] != g[k][1int + 1]);
                assert(g[k][2int] != g[k][2int + 1]);
            },
            Direction::Right => {
                assert(g[k][0int] != g[k][0int + 1]);
                assert(g[k][1int] != g[k][1int + 1]);
                assert(g[k][2int] != g[k][2int + 1]);
            },
            Direction::Up => {
                assert(g[0int][k] != g[0int + 1][k]);
                assert(g[1int][k] != g[1int + 1][k]);
                assert(g[2int][k] != g[2int + 1][k]);
            },
            Direction::Down => {
                assert(g[0int][k] != g[0int + 1][k]);
                assert(g[1int][k] != g[1int + 1][k]);
                assert(g[2int][k] != g[2int + 1][k]);
            },
        }
        lemma_slid_blocked(s);
    }
    lemma_lanes_fix_grid(pushed(g, d), g, d);
}

/// A move that changes the board leaves room for the new tile.
pub proof fn lemma_room_after_move(g: Grid, d: Direction)
    requires
        shaped(g),
        pushed(g, d) != g,
    ensures
        empty_cells(pushed(g, d)).len() > 0,
{
    lemma_lanes_of_results(g, d, 0);
    lemma_move_leaves_room(g, d);
    lemma_empties_count(pushed(g, d));
}

/// The new tile stands in the empty cell that `pick` names and is the tile
/// that `roll` gives; every other cell is as before. The same board and the
/// same two draws give the same tile in the same cell.
pub proof fn lemma_spawn_is_fixed(g: Grid, pick: int, roll: nat)
    requires
        shaped(g),
        0 <= pick < empty_cells(g).len(),
    ensures
        ({
            let at = empty_cells(g)[pick];
            &&& 0 <= at.0 < 4 && 0 <= at.1 < 4
            &&& g[at.0][at.1] == 0
            &&& spawned(g, pick, roll)[at.0][at.1] == rolled(roll)
            &&& forall|i: int, j: int|
                0 <= i < 4 && 0 <= j < 4 && (i != at.0 || j != at.1) ==> #[trigger] spawned(
                    g,
                    pick,
                    roll,
                )[i][j] == g[i][j]
        }),
        rolled(roll) == 2 || rolled(roll) == 4,
{
    lemma_empties_to(g, 16);
}

} // verus!
