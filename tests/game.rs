use minesweeper::game::{Cell, CellInteraction, Game, GameStatus, Position};

fn board(width: usize, height: usize, mines: &[(usize, usize)]) -> Game {
    let mut layout = vec![vec![false; width]; height];
    for &(x, y) in mines {
        layout[y][x] = true;
    }
    Game::from_mines(width, height, &layout)
}

fn state(game: &Game, x: usize, y: usize) -> CellInteraction {
    game.grid().0[y][x].interaction()
}

fn counter(game: &Game, x: usize, y: usize) -> Option<u8> {
    game.grid().0[y][x].counter()
}

#[test]
fn game_test() {
    let mut game = Game::new(30, 30, 1, 10);
    game.open_random();
    println!("{}", game.render())
}

#[test]
fn new_cell_hides_its_content() {
    let cell = Cell::new(true);
    assert_eq!(cell.interaction(), CellInteraction::Closed);
    assert_eq!(cell.counter(), None);
    assert_eq!(cell.has_mine(), None);
}

#[test]
fn counts_include_the_cell_itself() {
    let mut game = board(3, 3, &[(0, 0), (2, 0)]);
    game.open(&Position::new(1, 2));
    assert_eq!(counter(&game, 0, 1), Some(1));
    assert_eq!(counter(&game, 1, 1), Some(2));
    assert_eq!(counter(&game, 2, 1), Some(1));
    for x in 0..3 {
        assert_eq!(counter(&game, x, 2), Some(0));
        assert_eq!(counter(&game, x, 0), None);
    }
    game.open(&Position::new(1, 0));
    assert_eq!(counter(&game, 1, 0), Some(2));
    assert!(matches!(game.status, GameStatus::OnGoing));
}

#[test]
fn counts_match_a_brute_force_count() {
    let mines = [(0, 0), (3, 1), (1, 2), (4, 3), (2, 3)];
    let mut game = board(5, 4, &mines);
    game.open_all();
    for y in 0..4 {
        for x in 0..5 {
            let mut expected = 0u8;
            for p in game.neighbors(&Position::new(x, y)) {
                if mines.contains(&(p.x, p.y)) {
                    expected += 1;
                }
            }
            assert_eq!(counter(&game, x, y), Some(expected));
            assert_eq!(game.grid().0[y][x].has_mine(), Some(mines.contains(&(x, y))));
        }
    }
}

#[test]
fn neighbors_include_the_cell_and_stay_on_the_board() {
    let game = board(3, 3, &[]);
    let corner = game.neighbors(&Position::new(0, 0));
    assert_eq!(
        corner,
        vec![Position::new(0, 0), Position::new(0, 1), Position::new(1, 0), Position::new(1, 1)]
    );
    assert_eq!(game.neighbors(&Position::new(1, 1)).len(), 9);
    assert_eq!(game.neighbors(&Position::new(2, 1)).len(), 6);
}

#[test]
fn opening_a_mine_loses_and_opens_everything() {
    let mut game = board(3, 2, &[(1, 1), (2, 0)]);
    game.open(&Position::new(1, 1));
    assert!(matches!(game.status, GameStatus::Lose));
    for y in 0..2 {
        for x in 0..3 {
            assert_eq!(state(&game, x, y), CellInteraction::Opened);
        }
    }
    assert_eq!(game.grid().0[1][1].has_mine(), Some(true));
    let before = (game.render(), game.status);
    game.open(&Position::new(0, 0));
    game.flag(&Position::new(0, 0));
    assert_eq!((game.render(), game.status), before);
}

#[test]
fn flood_fill_opens_the_zero_region_and_its_border_only() {
    // One column of mines splits the board: the flood stays on the left of it.
    let mut game = board(5, 3, &[(3, 0), (3, 1), (3, 2)]);
    game.open(&Position::new(0, 0));
    for y in 0..3 {
        assert_eq!(state(&game, 0, y), CellInteraction::Opened);
        assert_eq!(state(&game, 1, y), CellInteraction::Opened);
        assert_eq!(state(&game, 2, y), CellInteraction::Opened);
        assert_eq!(state(&game, 3, y), CellInteraction::Closed);
        assert_eq!(state(&game, 4, y), CellInteraction::Closed);
    }
    assert_eq!(counter(&game, 1, 1), Some(0));
    assert_eq!(counter(&game, 2, 1), Some(3));
    assert!(matches!(game.status, GameStatus::OnGoing));
}

#[test]
fn flags_stop_the_flood() {
    let mut game = board(3, 1, &[]);
    game.flag(&Position::new(1, 0));
    game.open(&Position::new(0, 0));
    assert_eq!(state(&game, 0, 0), CellInteraction::Opened);
    assert_eq!(state(&game, 1, 0), CellInteraction::Flagged);
    assert_eq!(state(&game, 2, 0), CellInteraction::Closed);
}

#[test]
fn opening_a_numbered_cell_opens_only_it() {
    let mut game = board(3, 3, &[(2, 2)]);
    game.open(&Position::new(1, 1));
    assert_eq!(counter(&game, 1, 1), Some(1));
    for y in 0..3 {
        for x in 0..3 {
            if (x, y) != (1, 1) {
                assert_eq!(state(&game, x, y), CellInteraction::Closed);
            }
        }
    }
}

#[test]
fn win_needs_every_safe_cell_open_and_every_flag_on_a_mine() {
    let mut game = board(3, 3, &[(0, 0), (2, 0)]);
    game.open(&Position::new(1, 2));
    game.open(&Position::new(1, 0));
    game.flag(&Position::new(0, 0));
    assert!(matches!(game.status, GameStatus::OnGoing));
    game.flag(&Position::new(2, 0));
    assert!(matches!(game.status, GameStatus::Win));
}

#[test]
fn misplaced_flag_blocks_the_win_until_unflagged() {
    let mut game = board(2, 1, &[(0, 0)]);
    game.flag(&Position::new(0, 0));
    game.flag(&Position::new(1, 0));
    assert!(matches!(game.status, GameStatus::OnGoing));
    game.unflag(Position::new(1, 0));
    assert_eq!(state(&game, 1, 0), CellInteraction::Closed);
    assert!(matches!(game.status, GameStatus::OnGoing));
    game.open(&Position::new(1, 0));
    assert!(matches!(game.status, GameStatus::Win));
}

#[test]
fn moves_from_the_wrong_state_change_nothing() {
    let mut game = board(3, 3, &[(2, 2)]);
    game.open(&Position::new(1, 1));
    game.flag(&Position::new(0, 0));
    let before = (game.render(), game.status);
    game.open(&Position::new(1, 1));
    game.flag(&Position::new(1, 1));
    game.unflag(Position::new(1, 1));
    game.open(&Position::new(0, 0));
    game.flag(&Position::new(0, 0));
    game.unflag(Position::new(2, 1));
    assert_eq!((game.render(), game.status), before);
}

#[test]
fn a_board_without_mines_is_won_by_one_opening() {
    let mut game = Game::new(4, 3, 0, 1);
    game.open(&Position::new(2, 1));
    assert!(matches!(game.status, GameStatus::Win));
    for y in 0..3 {
        for x in 0..4 {
            assert_eq!(game.grid().0[y][x].has_mine(), Some(false));
            assert_eq!(counter(&game, x, y), Some(0));
        }
    }
}

#[test]
fn a_board_full_of_mines_is_lost_by_one_opening() {
    let mut game = Game::new(2, 2, 7, 7);
    game.open(&Position::new(1, 0));
    assert!(matches!(game.status, GameStatus::Lose));
    assert_eq!(counter(&game, 0, 0), Some(4));
}

#[test]
fn open_random_opens_a_closed_cell() {
    let mut game = Game::new(6, 5, 0, 3);
    game.open_random();
    assert!(matches!(game.status, GameStatus::Win));

    let mut game = board(2, 1, &[(0, 0)]);
    game.flag(&Position::new(0, 0));
    game.open_random();
    assert_eq!(state(&game, 1, 0), CellInteraction::Opened);
    assert!(matches!(game.status, GameStatus::Win));
}

#[test]
fn open_random_without_closed_cells_changes_nothing() {
    let mut game = board(2, 2, &[(0, 0)]);
    game.open_all();
    let before = (game.render(), game.status);
    game.open_random();
    assert_eq!((game.render(), game.status), before);
}

#[test]
fn check_win_keeps_a_lost_game_lost() {
    let mut game = board(1, 1, &[(0, 0)]);
    game.open(&Position::new(0, 0));
    assert!(matches!(game.status, GameStatus::Lose));
    game.check_win();
    assert!(matches!(game.status, GameStatus::Lose));
}

#[test]
fn render_hides_closed_and_flagged_cells() {
    let mut game = board(3, 2, &[(2, 0), (2, 1)]);
    assert_eq!(game.render(), "###\n###\n");
    game.flag(&Position::new(2, 0));
    game.open(&Position::new(0, 0));
    assert_eq!(game.render(), ".2F\n.2#\n");
    game.open(&Position::new(2, 1));
    assert_eq!(game.render(), ".2*\n.2*\n");
    assert_eq!(game.grid().0[0][1].render(), '2');
}

#[test]
fn flag_then_unflag_gives_back_the_game() {
    let mut game = board(3, 3, &[(2, 2)]);
    game.open(&Position::new(1, 1));
    let before = (game.render(), game.status);
    game.flag(&Position::new(0, 2));
    assert_eq!(state(&game, 0, 2), CellInteraction::Flagged);
    game.unflag(Position::new(0, 2));
    assert_eq!((game.render(), game.status), before);
}
