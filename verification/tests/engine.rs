use rs_2048::{Direction, Game2048};

fn game_on(board: [[usize; 4]; 4]) -> Game2048 {
    Game2048::with_board(board).unwrap()
}

#[test]
fn test_game() {
    let mut game = Game2048::default();
    assert_eq!(game.get_score(), 0);
    assert!(!game.is_game_over());
    game.make_move(&Direction::Left);
}

#[test]
fn test_game2() {
    let board = [[2; 4]; 4];
    let mut game = game_on(board);
    assert!(!game.is_game_over());
    assert_eq!(game.get_board(), &[[2; 4]; 4]);

    game.make_move(&Direction::Up);
    game.make_move(&Direction::Left);
    game.make_move(&Direction::Down);
    game.make_move(&Direction::Right);
}

#[test]
fn test_game_over() {
    let board = [
        //
        [2, 4, 2, 4],
        [4, 2, 4, 2],
        [2, 4, 2, 4],
        [4, 2, 4, 2],
    ];
    let mut game = game_on(board);

    assert!(game.is_game_over());

    game.add_random_tile();

    assert_eq!(format!("{:?}", Direction::Up), "Up");
    assert_eq!(format!("{:?}", Direction::Down), "Down");
    assert_eq!(format!("{:?}", Direction::Left), "Left");
    assert_eq!(format!("{:?}", Direction::Right), "Right");
}

#[test]
fn test_down() {
    let board = [
        //
        [2, 0, 0, 0],
        [2, 0, 0, 0],
        [4, 0, 0, 0],
        [8, 0, 0, 0],
    ];
    let mut game = game_on(board);

    assert!(!game.is_game_over());

    game.move1(&Direction::Down);
    assert_eq!(
        game.get_board(),
        &[
            //
            [0, 0, 0, 0],
            [4, 0, 0, 0],
            [4, 0, 0, 0],
            [8, 0, 0, 0],
        ]
    );
}

#[test]
fn test_right() {
    let board = [
        //
        [2, 0, 0, 0],
        [2, 0, 0, 0],
        [4, 0, 0, 0],
        [2, 2, 4, 8],
    ];
    let mut game = game_on(board);

    assert!(!game.is_game_over());

    game.move1(&Direction::Right);
    assert_eq!(
        game.get_board(),
        &[
            //
            [0, 0, 0, 2],
            [0, 0, 0, 2],
            [0, 0, 0, 4],
            [0, 4, 4, 8],
        ]
    );
}

#[test]
fn test_left() {
    let board = [
        //
        [2, 0, 0, 0],
        [2, 0, 0, 0],
        [4, 0, 0, 0],
        [2, 2, 4, 8],
    ];
    let mut game = game_on(board);

    assert!(!game.is_game_over());

    game.move1(&Direction::Left);
    assert_eq!(
        game.get_board(),
        &[
            //
            [2, 0, 0, 0],
            [2, 0, 0, 0],
            [4, 0, 0, 0],
            [4, 4, 8, 0],
        ]
    );
}

#[test]
fn test_up() {
    let board = [
        //
        [2, 0, 0, 0],
        [2, 0, 0, 0],
        [4, 0, 0, 0],
        [2, 2, 4, 8],
    ];
    let mut game = game_on(board);

    assert!(!game.is_game_over());

    game.move1(&Direction::Up);
    assert_eq!(
        game.get_board(),
        &[
            //
            [4, 2, 4, 8],
            [4, 0, 0, 0],
            [2, 0, 0, 0],
            [0, 0, 0, 0],
        ]
    );
}
