use rs_2048::{Direction, Game2048};

fn game_with(board: [[usize; 4]; 4]) -> Game2048 {
    Game2048::with_board(board).unwrap()
}

fn tiles_on(board: &[[usize; 4]; 4]) -> usize {
    board.iter().flatten().filter(|v| **v != 0).count()
}

fn after_move1(board: [[usize; 4]; 4], direction: Direction) -> ([[usize; 4]; 4], usize, bool) {
    let mut game = game_with(board);
    let moved = game.move1(&direction);
    (*game.get_board(), game.get_score(), moved)
}

#[test]
fn new_game_has_two_small_tiles() {
    let game = Game2048::default();
    assert_eq!(game.get_score(), 0);
    assert_eq!(tiles_on(game.get_board()), 2);
    assert!(game.get_board().iter().flatten().all(|v| *v == 0 || *v == 2 || *v == 4));
    assert!(!game.is_game_over());
    assert_eq!(game.count_empty(), 14);
}

#[test]
fn seeded_game_has_two_small_tiles() {
    for seed in 0..200u64 {
        let game = Game2048::with_seed(seed);
        assert_eq!(game.get_score(), 0);
        assert_eq!(tiles_on(game.get_board()), 2);
        assert!(game.get_board().iter().flatten().all(|v| *v == 0 || *v == 2 || *v == 4));
        assert!(!game.is_game_over());
    }
}

#[test]
fn four_equal_tiles_merge_in_pairs() {
    let (board, score, moved) =
        after_move1([[2, 2, 2, 2], [0, 0, 0, 0], [0, 0, 0, 0], [0, 0, 0, 0]], Direction::Left);
    assert_eq!(board, [[4, 4, 0, 0], [0, 0, 0, 0], [0, 0, 0, 0], [0, 0, 0, 0]]);
    assert_eq!(score, 8);
    assert!(moved);
}

#[test]
fn three_equal_tiles_merge_once_at_the_front() {
    let start = [[0, 0, 0, 0], [2, 2, 2, 0], [0, 0, 0, 0], [0, 0, 0, 0]];
    let (left, score, _) = after_move1(start, Direction::Left);
    assert_eq!(left, [[0, 0, 0, 0], [4, 2, 0, 0], [0, 0, 0, 0], [0, 0, 0, 0]]);
    assert_eq!(score, 4);
    let (right, score, _) = after_move1(start, Direction::Right);
    assert_eq!(right, [[0, 0, 0, 0], [0, 0, 2, 4], [0, 0, 0, 0], [0, 0, 0, 0]]);
    assert_eq!(score, 4);
}

#[test]
fn merged_tile_does_not_merge_again_right() {
    let (board, score, moved) =
        after_move1([[4, 2, 2, 0], [0, 0, 0, 0], [0, 0, 0, 0], [0, 0, 0, 0]], Direction::Right);
    assert_eq!(board, [[0, 0, 4, 4], [0, 0, 0, 0], [0, 0, 0, 0], [0, 0, 0, 0]]);
    assert_eq!(score, 4);
    assert!(moved);
}

#[test]
fn merged_tile_does_not_merge_again_down() {
    let (board, score, moved) =
        after_move1([[0, 0, 4, 0], [0, 0, 2, 0], [0, 0, 2, 0], [0, 0, 0, 0]], Direction::Down);
    assert_eq!(board, [[0, 0, 0, 0], [0, 0, 0, 0], [0, 0, 4, 0], [0, 0, 4, 0]]);
    assert_eq!(score, 4);
    assert!(moved);
}

#[test]
fn merged_tile_does_not_merge_again_left_and_up() {
    let (board, score, _) =
        after_move1([[2, 2, 4, 0], [0, 0, 0, 0], [0, 0, 0, 0], [0, 0, 0, 0]], Direction::Left);
    assert_eq!(board, [[4, 4, 0, 0], [0, 0, 0, 0], [0, 0, 0, 0], [0, 0, 0, 0]]);
    assert_eq!(score, 4);
    let (board, score, _) =
        after_move1([[0, 2, 0, 0], [0, 2, 0, 0], [0, 4, 0, 0], [0, 8, 0, 0]], Direction::Up);
    assert_eq!(board, [[0, 4, 0, 0], [0, 4, 0, 0], [0, 8, 0, 0], [0, 0, 0, 0]]);
    assert_eq!(score, 4);
}

#[test]
fn score_grows_by_the_merged_tiles() {
    let (board, score, _) =
        after_move1([[4, 4, 8, 8], [2, 0, 2, 0], [16, 16, 16, 0], [2, 4, 2, 4]], Direction::Left);
    assert_eq!(board, [[8, 16, 0, 0], [4, 0, 0, 0], [32, 16, 0, 0], [2, 4, 2, 4]]);
    assert_eq!(score, 8 + 16 + 4 + 32);
}

#[test]
fn moves_work_across_gaps() {
    let start = [[2, 0, 0, 2], [0, 4, 0, 4], [8, 0, 8, 0], [0, 0, 0, 16]];
    let (left, score, _) = after_move1(start, Direction::Left);
    assert_eq!(left, [[4, 0, 0, 0], [8, 0, 0, 0], [16, 0, 0, 0], [16, 0, 0, 0]]);
    assert_eq!(score, 28);
    let (right, score, _) = after_move1(start, Direction::Right);
    assert_eq!(right, [[0, 0, 0, 4], [0, 0, 0, 8], [0, 0, 0, 16], [0, 0, 0, 16]]);
    assert_eq!(score, 28);
    let (up, score, _) = after_move1(start, Direction::Up);
    assert_eq!(up, [[2, 4, 8, 2], [8, 0, 0, 4], [0, 0, 0, 16], [0, 0, 0, 0]]);
    assert_eq!(score, 0);
    let (down, score, _) = after_move1(start, Direction::Down);
    assert_eq!(down, [[0, 0, 0, 0], [0, 0, 0, 2], [2, 0, 0, 4], [8, 4, 8, 16]]);
    assert_eq!(score, 0);
}

#[test]
fn largest_tile_can_be_made() {
    let (board, score, moved) = after_move1(
        [[65536, 65536, 0, 0], [0, 0, 0, 0], [0, 0, 0, 0], [0, 0, 0, 0]],
        Direction::Right,
    );
    assert_eq!(board, [[0, 0, 0, 131072], [0, 0, 0, 0], [0, 0, 0, 0], [0, 0, 0, 0]]);
    assert_eq!(score, 131072);
    assert!(moved);
}

#[test]
fn move_that_changes_nothing_leaves_board_and_score() {
    let mut game = game_with([[2, 2, 0, 0], [4, 0, 0, 0], [0, 0, 0, 0], [0, 0, 0, 0]]);
    assert!(game.move1(&Direction::Left));
    assert_eq!(game.get_score(), 4);
    let board = *game.get_board();
    assert_eq!(board, [[4, 0, 0, 0], [4, 0, 0, 0], [0, 0, 0, 0], [0, 0, 0, 0]]);
    assert!(!game.make_move(&Direction::Left));
    assert_eq!(*game.get_board(), board);
    assert_eq!(game.get_score(), 4);
    assert!(!game.move1(&Direction::Left));
    assert_eq!(*game.get_board(), board);
    assert_eq!(game.get_score(), 4);
    assert!(!game.shift_tiles(&Direction::Left));
    assert_eq!(*game.get_board(), board);
}

#[test]
fn move_that_changes_the_board_adds_one_tile() {
    let mut game = game_with([[2, 0, 0, 2], [0, 4, 0, 4], [8, 0, 8, 0], [0, 0, 0, 16]]);
    assert!(game.make_move(&Direction::Left));
    assert_eq!(game.get_score(), 28);
    let board = *game.get_board();
    assert_eq!(tiles_on(&board), 5);
    assert_eq!([board[0][0], board[1][0], board[2][0], board[3][0]], [4, 8, 16, 16]);
    let new: Vec<usize> = (0..4)
        .flat_map(|i| (1..4).map(move |j| (i, j)))
        .map(|(i, j)| board[i][j])
        .filter(|v| *v != 0)
        .collect();
    assert_eq!(new.len(), 1);
    assert!(new[0] == 2 || new[0] == 4);
}

#[test]
fn tile_count_grows_by_at_most_one_and_score_never_falls() {
    let directions = [Direction::Left, Direction::Up, Direction::Right, Direction::Down];
    for seed in 0..20u64 {
        let mut game = Game2048::with_seed(seed);
        for step in 0..400usize {
            let direction = directions[(step + step / 7) % 4];
            let before = *game.get_board();
            let score = game.get_score();
            let mut twin = game_with(before);
            let twin_moved = twin.move1(&direction);
            let moved = game.make_move(&direction);
            assert_eq!(moved, twin_moved);
            assert_eq!(moved, *twin.get_board() != before);
            assert!(game.get_score() >= score);
            assert_eq!(game.get_score(), score + twin.get_score());
            assert!(tiles_on(game.get_board()) <= tiles_on(&before) + 1);
            if moved {
                assert_eq!(tiles_on(game.get_board()), tiles_on(twin.get_board()) + 1);
            } else {
                assert_eq!(*game.get_board(), before);
                assert_eq!(game.get_score(), score);
            }
            assert!(Game2048::with_board(*game.get_board()).is_some());
        }
    }
}

#[test]
fn full_board_without_equal_neighbours_is_over() {
    let game = game_with([[2, 4, 2, 4], [4, 2, 4, 2], [2, 4, 2, 4], [4, 2, 4, 2]]);
    assert!(game.is_game_over());
}

#[test]
fn board_with_an_empty_cell_is_not_over() {
    for i in 0..4 {
        for j in 0..4 {
            let mut board = [[2, 4, 2, 4], [4, 2, 4, 2], [2, 4, 2, 4], [4, 2, 4, 2]];
            board[i][j] = 0;
            assert!(!game_with(board).is_game_over());
        }
    }
}

#[test]
fn board_with_equal_neighbours_is_not_over() {
    for i in 0..4 {
        for j in 0..3 {
            let mut board = [[2, 4, 2, 4], [4, 2, 4, 2], [2, 4, 2, 4], [4, 2, 4, 2]];
            board[i][j] = 8;
            board[i][j + 1] = 8;
            assert!(!game_with(board).is_game_over());
            let mut board = [[2, 4, 2, 4], [4, 2, 4, 2], [2, 4, 2, 4], [4, 2, 4, 2]];
            board[j][i] = 8;
            board[j + 1][i] = 8;
            assert!(!game_with(board).is_game_over());
        }
    }
}

#[test]
fn no_move_changes_a_game_that_is_over() {
    let board = [[2, 4, 2, 4], [4, 2, 4, 2], [2, 4, 2, 4], [4, 2, 4, 2]];
    let mut game = game_with(board);
    for direction in [Direction::Up, Direction::Down, Direction::Left, Direction::Right] {
        assert!(!game.make_move(&direction));
        assert_eq!(*game.get_board(), board);
        assert_eq!(game.get_score(), 0);
    }
    assert!(game.is_game_over());
}

#[test]
fn games_from_one_seed_agree() {
    let directions = [Direction::Down, Direction::Left, Direction::Up, Direction::Right];
    for seed in [0u64, 1, 42, 0xdead_beef] {
        let mut one = Game2048::with_seed(seed);
        let mut two = Game2048::with_seed(seed);
        assert_eq!(one.get_board(), two.get_board());
        for step in 0..300usize {
            let direction = directions[step % 4];
            assert_eq!(one.make_move(&direction), two.make_move(&direction));
            assert_eq!(one.get_board(), two.get_board());
            assert_eq!(one.get_score(), two.get_score());
        }
    }
}

#[test]
fn seeds_give_different_games() {
    let first = *Game2048::with_seed(0).get_board();
    assert!((1..50u64).any(|seed| *Game2048::with_seed(seed).get_board() != first));
}

#[test]
fn placed_tile_goes_where_the_draws_say() {
    let start = [[2, 0, 4, 0], [0, 8, 0, 0], [2, 2, 2, 2], [0, 0, 0, 4]];
    let mut game = game_with(start);
    assert_eq!(game.count_empty(), 8);
    game.place_tile(0, 0);
    assert_eq!(*game.get_board(), [[2, 2, 4, 0], [0, 8, 0, 0], [2, 2, 2, 2], [0, 0, 0, 4]]);
    game.place_tile(1, 9);
    assert_eq!(*game.get_board(), [[2, 2, 4, 0], [4, 8, 0, 0], [2, 2, 2, 2], [0, 0, 0, 4]]);
    game.place_tile(5, 8);
    assert_eq!(*game.get_board(), [[2, 2, 4, 0], [4, 8, 0, 0], [2, 2, 2, 2], [0, 0, 2, 4]]);
    assert_eq!(game.count_empty(), 5);
    assert_eq!(game.get_score(), 0);
}

#[test]
fn placed_tile_is_the_same_for_the_same_draws() {
    let start = [[2, 0, 4, 0], [0, 8, 0, 0], [2, 2, 2, 2], [0, 0, 0, 4]];
    for pick in 0..8 {
        for roll in 0..10 {
            let mut one = game_with(start);
            let mut two = game_with(start);
            one.place_tile(pick, roll);
            two.place_tile(pick, roll);
            assert_eq!(one.get_board(), two.get_board());
            assert_eq!(tiles_on(one.get_board()), 9);
            let value = if roll < 9 { 2 } else { 4 };
            let changed: Vec<usize> = (0..16)
                .filter(|n| one.get_board()[n / 4][n % 4] != start[n / 4][n % 4])
                .collect();
            assert_eq!(changed.len(), 1);
            assert_eq!(start[changed[0] / 4][changed[0] % 4], 0);
            assert_eq!(one.get_board()[changed[0] / 4][changed[0] % 4], value);
        }
    }
}

#[test]
fn pick_beyond_the_empty_cells_places_nothing() {
    let start = [[2, 0, 4, 0], [0, 8, 0, 0], [2, 2, 2, 2], [0, 0, 0, 4]];
    let mut game = game_with(start);
    game.place_tile(8, 0);
    assert_eq!(*game.get_board(), start);
    game.place_tile(usize::MAX, 9);
    assert_eq!(*game.get_board(), start);
}

#[test]
fn random_tile_fills_the_only_empty_cell() {
    for round in 0..50 {
        let start = [[2, 4, 2, 4], [4, 2, 4, 2], [2, 4, 0, 4], [4, 2, 4, 2]];
        let mut game = game_with(start);
        game.add_random_tile();
        let board = *game.get_board();
        assert!(board[2][2] == 2 || board[2][2] == 4, "round {}", round);
        let mut rest = board;
        rest[2][2] = 0;
        assert_eq!(rest, start);
        assert_eq!(game.get_score(), 0);
    }
}

#[test]
fn random_tile_adds_one_tile_to_an_empty_cell() {
    let start = [[0, 0, 4, 0], [0, 8, 0, 0], [0, 0, 0, 0], [0, 0, 0, 0]];
    let mut seen = [[false; 4]; 4];
    for _ in 0..400 {
        let mut game = game_with(start);
        game.add_random_tile();
        let board = *game.get_board();
        assert_eq!(tiles_on(&board), 3);
        assert_eq!(board[0][2], 4);
        assert_eq!(board[1][1], 8);
        for i in 0..4 {
            for j in 0..4 {
                if board[i][j] != start[i][j] {
                    assert!(board[i][j] == 2 || board[i][j] == 4);
                    seen[i][j] = true;
                }
            }
        }
    }
    assert!(seen.iter().flatten().filter(|s| **s).count() > 1);
}

#[test]
fn random_tile_leaves_a_full_board() {
    let start = [[2, 4, 2, 4], [4, 2, 4, 2], [2, 4, 2, 4], [4, 2, 4, 2]];
    let mut game = game_with(start);
    game.add_random_tile();
    assert_eq!(*game.get_board(), start);
    assert_eq!(game.count_empty(), 0);
}

#[test]
fn shift_closes_gaps_and_merges_nothing() {
    let mut game = game_with([[2, 0, 2, 4], [0, 0, 0, 8], [4, 4, 0, 0], [0, 2, 0, 2]]);
    assert!(game.shift_tiles(&Direction::Left));
    assert_eq!(*game.get_board(), [[2, 2, 4, 0], [8, 0, 0, 0], [4, 4, 0, 0], [2, 2, 0, 0]]);
    assert_eq!(game.get_score(), 0);
    assert!(!game.shift_tiles(&Direction::Left));
    assert!(game.shift_tiles(&Direction::Down));
    assert_eq!(*game.get_board(), [[2, 0, 0, 0], [8, 2, 0, 0], [4, 4, 0, 0], [2, 2, 4, 0]]);
    assert!(game.shift_tiles(&Direction::Right));
    assert_eq!(*game.get_board(), [[0, 0, 0, 2], [0, 0, 8, 2], [0, 0, 4, 4], [0, 2, 2, 4]]);
    assert!(game.shift_tiles(&Direction::Up));
    assert_eq!(*game.get_board(), [[0, 2, 8, 2], [0, 0, 4, 2], [0, 0, 2, 4], [0, 0, 0, 4]]);
}

#[test]
fn board_must_hold_tiles() {
    for bad in [1usize, 3, 6, 10, 131073, 262144, usize::MAX] {
        let mut board = [[0; 4]; 4];
        board[1][2] = bad;
        assert!(Game2048::with_board(board).is_none(), "{}", bad);
    }
    for good in [0usize, 2, 4, 8, 1024, 2048, 65536, 131072] {
        let mut board = [[0; 4]; 4];
        board[1][2] = good;
        let game = Game2048::with_board(board).unwrap();
        assert_eq!(*game.get_board(), board);
        assert_eq!(game.get_score(), 0);
    }
}

#[test]
fn board_must_be_within_reach_of_play() {
    let fullest = [
        [131072, 65536, 32768, 16384],
        [1024, 2048, 4096, 8192],
        [512, 256, 128, 64],
        [4, 8, 16, 32],
    ];
    assert!(Game2048::with_board(fullest).is_some());
    let mut two_tops = [[0; 4]; 4];
    two_tops[0][0] = 131072;
    two_tops[3][3] = 131072;
    assert!(Game2048::with_board(two_tops).is_none());
    assert!(Game2048::with_board([[65536, 65536, 0, 0], [0; 4], [0; 4], [0; 4]]).is_some());
    assert!(Game2048::with_board([[65536, 65536, 65536, 0], [0; 4], [0; 4], [0; 4]]).is_none());
    assert!(Game2048::with_board([[8; 4], [8; 4], [8; 4], [8, 8, 8, 4]]).is_some());
    assert!(Game2048::with_board([[8; 4]; 4]).is_none());
    assert!(Game2048::with_board([[4; 4]; 4]).is_some());
}

fn line_after_move(line: [usize; 4]) -> ([usize; 4], usize) {
    let tiles: Vec<usize> = line.iter().copied().filter(|v| *v != 0).collect();
    let mut out = Vec::new();
    let mut gain = 0;
    let mut n = 0;
    while n < tiles.len() {
        if n + 1 < tiles.len() && tiles[n] == tiles[n + 1] {
            out.push(2 * tiles[n]);
            gain += 2 * tiles[n];
            n += 2;
        } else {
            out.push(tiles[n]);
            n += 1;
        }
    }
    out.resize(4, 0);
    ([out[0], out[1], out[2], out[3]], gain)
}

fn cell_of(direction: Direction, lane: usize, place: usize) -> (usize, usize) {
    match direction {
        Direction::Left => (lane, place),
        Direction::Right => (lane, 3 - place),
        Direction::Up => (place, lane),
        Direction::Down => (3 - place, lane),
    }
}

fn board_after_move(board: [[usize; 4]; 4], direction: Direction) -> ([[usize; 4]; 4], usize) {
    let mut out = [[0; 4]; 4];
    let mut gain = 0;
    for lane in 0..4 {
        let mut line = [0; 4];
        for place in 0..4 {
            let (i, j) = cell_of(direction, lane, place);
            line[place] = board[i][j];
        }
        let (moved, earned) = line_after_move(line);
        gain += earned;
        for place in 0..4 {
            let (i, j) = cell_of(direction, lane, place);
            out[i][j] = moved[place];
        }
    }
    (out, gain)
}

#[test]
fn every_line_of_small_tiles_moves_as_the_rule_says() {
    let values = [0usize, 2, 4, 8];
    for code in 0..256usize {
        let line = [values[code % 4], values[code / 4 % 4], values[code / 16 % 4], values[code / 64]];
        for direction in [Direction::Left, Direction::Right, Direction::Up, Direction::Down] {
            for lane in 0..4 {
                let mut board = [[0; 4]; 4];
                for place in 0..4 {
                    let (i, j) = cell_of(direction, lane, place);
                    board[i][j] = line[place];
                }
                let (expected, gain) = board_after_move(board, direction);
                let (after, score, moved) = after_move1(board, direction);
                assert_eq!(after, expected, "{:?} {:?}", line, direction);
                assert_eq!(score, gain);
                assert_eq!(moved, expected != board);
            }
        }
    }
}

#[test]
fn played_boards_move_as_the_rule_says() {
    let directions = [Direction::Up, Direction::Left, Direction::Down, Direction::Right];
    for seed in 100..130u64 {
        let mut game = Game2048::with_seed(seed);
        for step in 0..300usize {
            let board = *game.get_board();
            for direction in directions {
                let (expected, gain) = board_after_move(board, direction);
                let (after, score, moved) = after_move1(board, direction);
                assert_eq!(after, expected);
                assert_eq!(score, gain);
                assert_eq!(moved, expected != board);
            }
            game.make_move(&directions[(step * 7 + step / 3) % 4]);
        }
    }
}
