//! The game: a board, a score and a generator for the new tiles.

use vstd::prelude::*;
use crate::bounds::{
    board_worth, check_plausible, lemma_blank, lemma_compacted_plausible, lemma_move_fits,
    lemma_move_leaves_room, lemma_pushed_plausible, lemma_worth_floor, plausible, tile_count,
};
use crate::grid::{
    blank, compacted, earned, grid_of, lemma_pushed_fixed, pushed, stuck, Direction, Grid, SIZE,
};
use crate::laws::{lemma_opening, lemma_stuck_stays};
use crate::moves::{shift_cells, slide_cells};
use crate::random::{draw_below, fresh_state};
use crate::spawn::{
    as_places, empty_cells, find_empty_cells, lemma_empties_count, lemma_empties_to, lemma_spawned,
    spawn_of, spawned,
};

verus! {

/// What can be seen of a game: its board and its score.
pub struct Position {
    pub board: Grid,
    pub score: nat,
}

/// A position at the start of a game: no score, and two tiles, each a 2 or a
/// 4, that were put on the blank board one after the other.
pub open spec fn opening(p: Position) -> bool {
    &&& p.score == 0
    &&& exists|first: Grid| #[trigger] spawn_of(blank(), first) && spawn_of(first, p.board)
}

/// What a player sees at the start of a game: no score, exactly two tiles,
/// each a 2 or a 4, and a game that is not over.
pub open spec fn fresh(p: Position) -> bool {
    &&& p.score == 0
    &&& tile_count(p.board) == 2
    &&& forall|i: int, j: int|
        0 <= i < 4 && 0 <= j < 4 ==> {
            let v = #[trigger] p.board[i][j];
            v == 0 || v == 2 || v == 4
        }
    &&& !stuck(p.board)
}

/// What a call of `make_move` with direction `d` may lead to from `before`:
/// where the move changes nothing, the same position; else the moved board
/// with one new tile, and the score with what the move earned.
pub open spec fn follows(before: Position, d: Direction, after: Position) -> bool {
    if pushed(before.board, d) == before.board {
        after == before
    } else {
        &&& spawn_of(pushed(before.board, d), after.board)
        &&& after.score == before.score + earned(before.board, d)
    }
}

/// The cells and the score of a game.
struct Standing {
    board: [[usize; SIZE]; SIZE],
    score: usize,
}

impl Standing {
    /// The board is one that play can lead to, and the score is no more than
    /// its tiles can have earned. That keeps every number of a game far below
    /// the limit of `usize`.
    #[verifier::type_invariant]
    spec fn within_play(self) -> bool {
        &&& plausible(grid_of(self.board))
        &&& self.score <= board_worth(grid_of(self.board))
    }
}

/// A game of 2048: the board, the score, and the state of the generator
/// that places the new tiles.
pub struct Game2048 {
    standing: Standing,
    state: u64,
}

impl View for Game2048 {
    type V = Position;

    closed spec fn view(&self) -> Position {
        Position { board: grid_of(self.standing.board), score: self.standing.score as nat }
    }
}

impl Game2048 {
    /// The state of the generator that places the new tiles. A draw is made
    /// from this state and leaves the next one; nothing else changes it but
    /// `reseed`.
    pub closed spec fn generator(&self) -> u64 {
        self.state
    }

    /// A game on the blank board, without its first two tiles, with its
    /// generator in the given state.
    fn bare(state: u64) -> (game: Self)
        ensures
            game@ == (Position { board: blank(), score: 0 }),
            game.generator() == state,
    {
        let board = [[0usize; SIZE]; SIZE];
        proof {
            let g = grid_of(board);
            assert forall|i: int| 0 <= i < 4 implies g[i] == blank()[i] by {
                assert(g[i] =~= blank()[i]);
            }
            assert(g =~= blank());
            lemma_blank();
        }
        Game2048 { standing: Standing { board, score: 0 }, state }
    }

    /// Puts the first two tiles on the board of a bare game.
    fn open_game(self) -> (game: Self)
        requires
            self@ == (Position { board: blank(), score: 0 }),
        ensures
            opening(game@),
            fresh(game@),
            plausible(game@.board),
    {
        let mut game = self;
        proof {
            lemma_blank();
            lemma_empties_count(blank());
        }
        game.add_random_tile();
        let ghost first = game@.board;
        proof {
            lemma_empties_count(first);
        }
        game.add_random_tile();
        proof {
            assert(spawn_of(blank(), first) && spawn_of(first, game@.board));
            lemma_opening(game@);
        }
        game
    }

    /// A new game whose tiles are placed by a generator that starts from `seed`.
    /// Two games from one seed see the same tiles as long as they are played
    /// alike.
    pub fn with_seed(seed: u64) -> (game: Self)
        ensures
            opening(game@),
            fresh(game@),
            plausible(game@.board),
    {
        Self::bare(seed).open_game()
    }

    /// A game that starts from the given board, with no score. Only a board
    /// that play can lead to is taken.
    pub fn with_board(board: [[usize; SIZE]; SIZE]) -> (game: Option<Self>)
        ensures
            game.is_some() <==> plausible(grid_of(board)),
            game matches Some(g) ==> g@ == (Position { board: grid_of(board), score: 0 }),
    {
        if check_plausible(&board) {
            proof {
                lemma_worth_floor(grid_of(board));
            }
            Some(Game2048 { standing: Standing { board, score: 0 }, state: fresh_state() })
        } else {
            None
        }
    }

    /// Restarts the generator from `seed`, so that the tiles to come are those
    /// that any game with this board sees after the same call. The board and
    /// the score stay.
    pub fn reseed(&mut self, seed: u64)
        ensures
            final(self).generator() == seed,
            final(self)@ == old(self)@,
    {
        self.state = seed;
    }

    /// How many cells are empty.
    pub fn count_empty(&self) -> (count: usize)
        ensures
            count == empty_cells(self@.board).len(),
            count == 16 - tile_count(self@.board),
    {
        proof {
            lemma_empties_count(grid_of(self.standing.board));
        }
        let at = find_empty_cells(&self.standing.board);
        assert(as_places(at@).len() == at@.len());
        at.len()
    }

    /// The score.
    pub fn get_score(&self) -> (score: usize)
        ensures
            score == self@.score,
            score <= board_worth(self@.board),
    {
        proof {
            use_type_invariant(&self.standing);
        }
        self.standing.score
    }

    /// The board. It is one that play can lead to: every cell is empty or
    /// holds a power of two.
    pub fn get_board(&self) -> (board: &[[usize; SIZE]; SIZE])
        ensures
            grid_of(*board) == self@.board,
            plausible(self@.board),
    {
        proof {
            use_type_invariant(&self.standing);
        }
        &self.standing.board
    }

    /// Puts a new tile into the empty cell number `pick`, counted row by row
    /// from 0: a 4 if `roll` is 9 or more, else a 2. Where `pick` names no
    /// empty cell, nothing changes.
    pub fn place_tile(&mut self, pick: usize, roll: usize)
        ensures
            final(self)@.board == spawned(old(self)@.board, pick as int, roll as nat),
            final(self)@.score == old(self)@.score,
            final(self).generator() == old(self).generator(),
            plausible(final(self)@.board),
    {
        proof {
            use_type_invariant(&self.standing);
        }
        let ghost g = grid_of(self.standing.board);
        let at = find_empty_cells(&self.standing.board);
        proof {
            lemma_spawned(g, pick as int, roll as nat);
            lemma_empties_to(g, 16);
        }
        if pick < at.len() {
            let (i, j) = at[pick];
            assert(as_places(at@)[pick as int] == (i as int, j as int));
            let value: usize = if roll < 9 {
                2
            } else {
                4
            };
            let mut board = self.standing.board;
            board[i][j] = value;
            proof {
                let h = spawned(g, pick as int, roll as nat);
                assert forall|a: int| 0 <= a < 4 implies grid_of(board)[a] == h[a] by {
                    assert(grid_of(board)[a] =~= h[a]);
                }
                assert(grid_of(board) =~= h);
            }
            self.standing.board = board;
        }
    }

    /// Puts a new tile into an empty cell that the generator picks: a 2 in
    /// nine cases of ten, else a 4. On a full board nothing changes.
    pub fn add_random_tile(&mut self)
        ensures
            final(self)@.score == old(self)@.score,
            empty_cells(old(self)@.board).len() == 0 ==> final(self)@ == old(self)@
                && final(self).generator() == old(self).generator(),
            empty_cells(old(self)@.board).len() > 0 ==> spawn_of(
                old(self)@.board,
                final(self)@.board,
            ),
            tile_count(final(self)@.board) == tile_count(old(self)@.board) + (if empty_cells(
                old(self)@.board,
            ).len() > 0 {
                1int
            } else {
                0int
            }),
            plausible(final(self)@.board),
    {
        proof {
            use_type_invariant(&self.standing);
        }
        let ghost g = grid_of(self.standing.board);
        let at = find_empty_cells(&self.standing.board);
        if at.len() == 0 {
            return ;
        }
        let pick = draw_below(&mut self.state, at.len());
        let roll = draw_below(&mut self.state, 10);
        proof {
            lemma_spawned(g, pick as int, roll as nat);
        }
        self.place_tile(pick, roll);
    }

    /// Whether the game is over: the board is full and no two neighbours are
    /// equal, so that no move can change it.
    pub fn is_game_over(&self) -> (over: bool)
        ensures
            over <==> stuck(self@.board),
    {
        let board = &self.standing.board;
        let ghost g = grid_of(self.standing.board);
        let mut i: usize = 0;
        while i < SIZE
            invariant
                i <= 4,
                g == grid_of(*board),
                g == self@.board,
                forall|a: int, b: int| 0 <= a < i && 0 <= b < 4 ==> #[trigger] g[a][b] != 0,
            decreases 4 - i,
        {
            let mut j: usize = 0;
            while j < SIZE
                invariant
                    i < 4,
                    j <= 4,
                    g == grid_of(*board),
                    g == self@.board,
                    forall|a: int, b: int| 0 <= a < i && 0 <= b < 4 ==> #[trigger] g[a][b] != 0,
                    forall|b: int| 0 <= b < j ==> #[trigger] g[i as int][b] != 0,
                decreases 4 - j,
            {
                assert(g[i as int][j as int] == board[i as int][j as int]);
                if board[i][j] == 0 {
                    return false;
                }
                j += 1;
            }
            i += 1;
        }
        let mut i: usize = 0;
        while i < SIZE
            invariant
                i <= 4,
                g == grid_of(*board),
                g == self@.board,
                forall|a: int, b: int| 0 <= a < 4 && 0 <= b < 4 ==> #[trigger] g[a][b] != 0,
                forall|a: int, b: int|
                    0 <= a < i && 0 <= b < 3 ==> #[trigger] g[a][b] != g[a][b + 1],
                forall|a: int, b: int|
                    0 <= b < i && 0 <= a < 3 ==> #[trigger] g[a][b] != g[a + 1][b],
            decreases 4 - i,
        {
            let mut j: usize = 0;
            while j < SIZE - 1
                invariant
                    i < 4,
                    j <= 3,
                    g == grid_of(*board),
                    g == self@.board,
                    forall|a: int, b: int| 0 <= a < 4 && 0 <= b < 4 ==> #[trigger] g[a][b] != 0,
                    forall|a: int, b: int|
                        0 <= a < i && 0 <= b < 3 ==> #[trigger] g[a][b] != g[a][b + 1],
                    forall|a: int, b: int|
                        0 <= b < i && 0 <= a < 3 ==> #[trigger] g[a][b] != g[a + 1][b],
                    forall|b: int| 0 <= b < j ==> #[trigger] g[i as int][b] != g[i as int][b + 1],
                    forall|a: int| 0 <= a < j ==> #[trigger] g[a][i as int] != g[a + 1][i as int],
                decreases 3 - j,
            {
                assert(g[i as int][j as int] == board[i as int][j as int]);
                assert(g[i as int][j + 1] == board[i as int][j + 1]);
                assert(g[j as int][i as int] == board[j as int][i as int]);
                assert(g[j + 1][i as int] == board[j + 1][i as int]);
                if board[i][j] == board[i][j + 1] || board[j][i] == board[j + 1][i] {
                    return false;
                }
                j += 1;
            }
            i += 1;
        }
        true
    }

    /// Closes the gaps of the board towards `direction`, without merging.
    /// Returns whether a tile moved.
    pub fn shift_tiles(&mut self, direction: &Direction) -> (moved: bool)
        ensures
            final(self)@.board == compacted(old(self)@.board, *direction),
            final(self)@.score == old(self)@.score,
            final(self).generator() == old(self).generator(),
            moved <==> final(self)@.board != old(self)@.board,
            plausible(final(self)@.board),
    {
        proof {
            use_type_invariant(&self.standing);
            lemma_compacted_plausible(grid_of(self.standing.board), *direction);
        }
        let mut board = self.standing.board;
        let moved = shift_cells(&mut board, direction);
        self.standing.board = board;
        moved
    }

    /// The move without the new tile: closes the gaps towards `direction`,
    /// merges equal neighbours, each tile at most once, and closes the gaps
    /// again. The score grows by the tiles that the merges made. Reports
    /// whether the board changed.
    pub fn move1(&mut self, direction: &Direction) -> (moved: bool)
        ensures
            final(self)@.board == pushed(old(self)@.board, *direction),
            final(self)@.score == old(self)@.score + earned(old(self)@.board, *direction),
            final(self).generator() == old(self).generator(),
            moved <==> final(self)@.board != old(self)@.board,
            plausible(final(self)@.board),
    {
        proof {
            use_type_invariant(&self.standing);
            lemma_pushed_plausible(grid_of(self.standing.board), *direction);
            lemma_move_fits(grid_of(self.standing.board), self.standing.score as nat, *direction);
        }
        let mut board = self.standing.board;
        let mut score = self.standing.score;
        let moved = slide_cells(&mut board, &mut score, direction);
        self.standing.board = board;
        self.standing.score = score;
        moved
    }

    /// Makes a move. Where it changes the board, one new tile appears and the
    /// result is `true`. Where it changes nothing, the game stays as it is and
    /// the result is `false`.
    pub fn make_move(&mut self, direction: &Direction) -> (moved: bool)
        ensures
            moved <==> pushed(old(self)@.board, *direction) != old(self)@.board,
            follows(old(self)@, *direction, final(self)@),
            !moved ==> final(self)@ == old(self)@ && final(self).generator() == old(
                self,
            ).generator(),
            final(self)@.score == old(self)@.score + (if moved {
                earned(old(self)@.board, *direction)
            } else {
                0
            }),
            final(self)@.score >= old(self)@.score,
            tile_count(final(self)@.board) <= tile_count(old(self)@.board) + 1,
            stuck(old(self)@.board) ==> !moved,
            plausible(final(self)@.board),
    {
        proof {
            use_type_invariant(&self.standing);
            lemma_pushed_plausible(grid_of(self.standing.board), *direction);
            lemma_move_leaves_room(grid_of(self.standing.board), *direction);
            lemma_pushed_fixed(grid_of(self.standing.board), *direction);
            if stuck(grid_of(self.standing.board)) {
                lemma_stuck_stays(grid_of(self.standing.board), *direction);
            }
        }
        let moved = self.move1(direction);
        if moved {
            proof {
                lemma_empties_count(self@.board);
            }
            self.add_random_tile();
        }
        moved
    }
}

impl Default for Game2048 {
    /// A new game: the blank board with two tiles, no score.
    fn default() -> (game: Self)
        ensures
            opening(game@),
            fresh(game@),
            plausible(game@.board),
    {
        Self::bare(fresh_state()).open_game()
    }
}

} // verus!
