use colony_sim::geometry::Position;
use colony_sim::rng::RandomSource;
use colony_sim::snake::Direction;
use colony_sim::snake::SnakeGame;
use colony_sim::sudoku::SudokuSolver;

fn classic_puzzle() -> [[u8; 9]; 9] {
    [
        [5, 3, 0, 0, 7, 0, 0, 0, 0],
        [6, 0, 0, 1, 9, 5, 0, 0, 0],
        [0, 9, 8, 0, 0, 0, 0, 6, 0],
        [8, 0, 0, 0, 6, 0, 0, 0, 3],
        [4, 0, 0, 8, 0, 3, 0, 0, 1],
        [7, 0, 0, 0, 2, 0, 0, 0, 6],
        [0, 6, 0, 0, 0, 0, 2, 8, 0],
        [0, 0, 0, 4, 1, 9, 0, 0, 5],
        [0, 0, 0, 0, 8, 0, 0, 7, 9],
    ]
}

#[test]
fn solver_fills_the_classic_puzzle() {
    let mut solver = SudokuSolver::new(classic_puzzle());
    assert!(solver.solve());
    let expected: [[u8; 9]; 9] = [
        [5, 3, 4, 6, 7, 8, 9, 1, 2],
        [6, 7, 2, 1, 9, 5, 3, 4, 8],
        [1, 9, 8, 3, 4, 2, 5, 6, 7],
        [8, 5, 9, 7, 6, 1, 4, 2, 3],
        [4, 2, 6, 8, 5, 3, 7, 9, 1],
        [7, 1, 3, 9, 2, 4, 8, 5, 6],
        [9, 6, 1, 5, 3, 7, 2, 8, 4],
        [2, 8, 7, 4, 1, 9, 6, 3, 5],
        [3, 4, 5, 2, 8, 6, 1, 7, 9],
    ];
    for r in 0..9 {
        for c in 0..9 {
            assert_eq!(solver.grid[r][c], expected[r][c]);
        }
    }
}

#[test]
fn solver_reports_an_unsolvable_puzzle() {
    let mut grid = [[0u8; 9]; 9];
    // the first empty cell is boxed in: its row holds one to eight and
    // its column already holds a nine
    grid[0] = [1, 2, 3, 4, 5, 6, 7, 8, 0];
    grid[1][8] = 9;
    let mut solver = SudokuSolver::new(grid);
    assert!(!solver.solve());
    // the grid is left untouched
    assert_eq!(solver.grid[0][8], 0);
    assert_eq!(solver.grid[1][8], 9);
}

#[test]
fn solver_accepts_a_full_grid() {
    let mut solver = SudokuSolver::new(classic_puzzle());
    assert!(solver.solve());
    let solved: Vec<Vec<u8>> = solver.grid.clone();
    let mut again = SudokuSolver::new(classic_puzzle());
    for r in 0..9 {
        for c in 0..9 {
            again.grid[r][c] = solved[r][c];
        }
    }
    assert!(again.solve());
}

#[test]
fn validity_checks_row_column_and_box() {
    let solver = SudokuSolver::new(classic_puzzle());
    // row 0 already holds 5; column 2 holds 8; the top-left box holds 9
    assert!(!solver.is_valid(0, 2, 5));
    assert!(!solver.is_valid(0, 2, 8));
    assert!(!solver.is_valid(0, 2, 9));
    assert!(solver.is_valid(0, 2, 4));
}

#[test]
fn find_empty_returns_the_first_hole() {
    let solver = SudokuSolver::new(classic_puzzle());
    assert_eq!(solver.find_empty(), Some((0, 2)));
    let full = [[1u8; 9]; 9];
    let full_solver = SudokuSolver::new(full);
    assert_eq!(full_solver.find_empty(), None);
}

#[test]
fn change_direction_refuses_reversal() {
    let mut rng = RandomSource::fixed(vec![3, 4]);
    let mut game = SnakeGame::new(30, 20, &mut rng);
    game.change_direction(Direction::Left);
    assert_eq!(game.direction, Direction::Right);
    game.change_direction(Direction::Up);
    assert_eq!(game.direction, Direction::Up);
    game.change_direction(Direction::Down);
    assert_eq!(game.direction, Direction::Up);
    game.change_direction(Direction::Right);
    assert_eq!(game.direction, Direction::Right);
}

#[test]
fn snake_moves_and_dies_on_the_wall() {
    let mut rng = RandomSource::fixed(vec![3, 4]);
    let mut game = SnakeGame::new(6, 6, &mut rng);
    assert_eq!(game.snake[0], Position { x: 3, y: 3 });
    game.update(&mut rng);
    assert_eq!(game.snake[0], Position { x: 4, y: 3 });
    game.update(&mut rng);
    assert_eq!(game.snake[0], Position { x: 5, y: 3 });
    assert!(!game.game_over);
    game.update(&mut rng);
    // the wall at x == 6 ends the game; the snake stays put
    assert!(game.game_over);
    assert_eq!(game.snake[0], Position { x: 5, y: 3 });
}

#[test]
fn snake_grows_and_scores_on_food() {
    let mut rng = RandomSource::fixed(vec![1, 1]);
    let mut game = SnakeGame::new(10, 10, &mut rng);
    game.food = Position { x: 6, y: 5 };
    game.update(&mut rng);
    assert_eq!(game.score, 1);
    assert_eq!(game.snake.len(), 2);
    assert_eq!(game.snake[0], Position { x: 6, y: 5 });
    // the next step leaves the tail behind again
    game.update(&mut rng);
    assert_eq!(game.snake.len(), 2);
    assert_eq!(game.snake[0], Position { x: 7, y: 5 });
}

#[test]
fn display_draws_the_board() {
    let solver = SudokuSolver::new(classic_puzzle());
    let expected = "5 3 . | . 7 . | . . . \n6 . . | 1 9 5 | . . . \n. 9 8 | . . . | . 6 . \n------+------+------\n8 . . | . 6 . | . . 3 \n4 . . | 8 . 3 | . . 1 \n7 . . | . 2 . | . . 6 \n------+------+------\n. 6 . | . . . | 2 8 . \n. . . | 4 1 9 | . . 5 \n. . . | . 8 . | . 7 9 \n";
    assert_eq!(solver.display(), expected);
}
