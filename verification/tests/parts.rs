use rs_2048::bounds::{check_plausible, count_cells_reaching};
use rs_2048::spawn::find_empty_cells;
use rs_2048::tile::{check_tile, MAX_TILE};
use rs_2048::{Direction, Game2048, SIZE};

#[test]
fn board_is_four_by_four() {
    assert_eq!(SIZE, 4);
    let game = Game2048::default();
    assert_eq!(game.get_board().len(), 4);
    assert!(game.get_board().iter().all(|row| row.len() == 4));
}

#[test]
fn tiles_are_the_powers_of_two_up_to_the_largest() {
    assert_eq!(MAX_TILE, 131072);
    assert!(check_tile(0));
    let mut tile = 2usize;
    let mut count = 0;
    while tile <= MAX_TILE {
        assert!(check_tile(tile), "{}", tile);
        assert!(!check_tile(tile + 1), "{}", tile + 1);
        assert!(!check_tile(tile - 1), "{}", tile - 1);
        tile *= 2;
        count += 1;
    }
    assert_eq!(count, 17);
    assert!(!check_tile(1));
    assert!(!check_tile(262144));
    assert!(!check_tile(usize::MAX));
    assert_eq!((0..=300000usize).filter(|v| check_tile(*v)).count(), 18);
}

#[test]
fn cells_that_reach_a_value_are_counted() {
    let board = [[2, 0, 4, 8], [8, 8, 0, 16], [0, 0, 0, 0], [1024, 2, 4, 131072]];
    assert_eq!(count_cells_reaching(&board, 0), 16);
    assert_eq!(count_cells_reaching(&board, 1), 10);
    assert_eq!(count_cells_reaching(&board, 2), 10);
    assert_eq!(count_cells_reaching(&board, 3), 8);
    assert_eq!(count_cells_reaching(&board, 8), 6);
    assert_eq!(count_cells_reaching(&board, 9), 3);
    assert_eq!(count_cells_reaching(&board, 131072), 1);
    assert_eq!(count_cells_reaching(&board, 131073), 0);
}

#[test]
fn large_tiles_must_be_few() {
    assert!(check_plausible(&[[0; 4]; 4]));
    assert!(check_plausible(&[[2; 4]; 4]));
    assert!(check_plausible(&[[4; 4]; 4]));
    for rank in 3..=17u32 {
        let tile = 1usize << rank;
        let most = (18 - rank) as usize;
        let mut board = [[0usize; 4]; 4];
        for n in 0..most.min(16) {
            board[n / 4][n % 4] = tile;
        }
        assert!(check_plausible(&board), "{} of {}", most, tile);
        if most < 16 {
            board[most / 4][most % 4] = tile;
            assert!(!check_plausible(&board), "{} of {}", most + 1, tile);
        }
    }
    assert!(!check_plausible(&[[2, 3, 0, 0], [0; 4], [0; 4], [0; 4]]));
    assert!(!check_plausible(&[[0; 4], [0; 4], [0; 4], [0, 0, 0, 262144]]));
}

#[test]
fn empty_cells_are_listed_row_by_row() {
    assert_eq!(find_empty_cells(&[[2; 4]; 4]), vec![]);
    assert_eq!(
        find_empty_cells(&[[2, 0, 4, 0], [0, 8, 0, 0], [2, 2, 2, 2], [0, 0, 0, 4]]),
        vec![(0, 1), (0, 3), (1, 0), (1, 2), (1, 3), (3, 0), (3, 1), (3, 2)]
    );
    let all = find_empty_cells(&[[0; 4]; 4]);
    assert_eq!(all.len(), 16);
    for (n, cell) in all.iter().enumerate() {
        assert_eq!(*cell, (n / 4, n % 4));
    }
}

#[test]
fn reseeded_games_see_the_same_tiles() {
    let start = [[2, 0, 4, 0], [0, 8, 0, 0], [2, 2, 2, 2], [0, 0, 0, 4]];
    let directions = [Direction::Up, Direction::Right, Direction::Down, Direction::Left];
    let mut one = Game2048::with_board(start).unwrap();
    let mut two = Game2048::with_board(start).unwrap();
    one.reseed(2048);
    two.reseed(2048);
    assert_eq!(*one.get_board(), start);
    assert_eq!(one.get_score(), 0);
    for step in 0..200usize {
        one.add_random_tile();
        two.add_random_tile();
        assert_eq!(one.get_board(), two.get_board());
        let direction = directions[step % 4];
        assert_eq!(one.make_move(&direction), two.make_move(&direction));
        assert_eq!(one.get_board(), two.get_board());
        assert_eq!(one.get_score(), two.get_score());
    }
}

#[test]
fn random_tiles_are_mostly_twos() {
    let mut twos = 0;
    let mut fours = 0;
    for seed in 0..2000u64 {
        let mut game = Game2048::with_board([[0; 4]; 4]).unwrap();
        game.reseed(seed);
        game.add_random_tile();
        assert_eq!(game.count_empty(), 15);
        let tile = *game.get_board().iter().flatten().find(|v| **v != 0).unwrap();
        if tile == 2 {
            twos += 1;
        } else {
            assert_eq!(tile, 4);
            fours += 1;
        }
    }
    assert!(twos > 1500, "{} twos", twos);
    assert!(fours > 50, "{} fours", fours);
}

#[test]
fn score_of_a_played_game_stays_below_what_its_tiles_are_worth() {
    fn worth(v: usize) -> usize {
        if v <= 2 {
            0
        } else {
            2 * worth(v / 2) + v
        }
    }
    let directions = [Direction::Left, Direction::Down, Direction::Right, Direction::Up];
    for seed in 0..10u64 {
        let mut game = Game2048::with_seed(seed);
        let mut step = 0usize;
        while !game.is_game_over() && step < 5000 {
            game.make_move(&directions[step % 4]);
            step += 1;
            let total: usize = game.get_board().iter().flatten().map(|v| worth(*v)).sum();
            assert!(game.get_score() <= total);
            assert!(check_plausible(game.get_board()));
        }
    }
}

#[test]
fn reseeded_blank_board_opens_like_a_seeded_game() {
    for seed in [0u64, 1, 7, 2048, u64::MAX] {
        let seeded = Game2048::with_seed(seed);
        let mut game = Game2048::with_board([[0; 4]; 4]).unwrap();
        game.reseed(seed);
        assert_eq!(*game.get_board(), [[0; 4]; 4]);
        game.add_random_tile();
        game.add_random_tile();
        assert_eq!(game.get_board(), seeded.get_board());
    }
}

#[test]
fn reseeding_changes_the_tiles_to_come() {
    let start = [[2, 0, 4, 0], [0, 8, 0, 0], [2, 2, 2, 2], [0, 0, 0, 4]];
    let mut boards = Vec::new();
    for seed in 0..40u64 {
        let mut game = Game2048::with_board(start).unwrap();
        game.reseed(seed);
        game.add_random_tile();
        game.add_random_tile();
        game.add_random_tile();
        boards.push(*game.get_board());
    }
    boards.sort();
    boards.dedup();
    assert!(boards.len() > 10, "{} boards", boards.len());
}
