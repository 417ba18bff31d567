use minesweeper::ai_player::{AIPlayer, BestMove, Certainty};
use minesweeper::game::{Game, GameStatus, Position};

fn board(width: usize, height: usize, mines: &[(usize, usize)]) -> Game {
    let mut layout = vec![vec![false; width]; height];
    for &(x, y) in mines {
        layout[y][x] = true;
    }
    Game::from_mines(width, height, &layout)
}

#[test]
fn ai_player_test() {
    let mut wins = 0;
    let mut loses = 0;
    for _ in 0..100 {
        let mut game = Game::new(50, 50, 1, 10);
        let mut ai = AIPlayer::new(&game);

        let mut best_moves: Vec<BestMove> = vec![];

        while matches!(game.status, GameStatus::OnGoing) {
            if best_moves.len() == 0 {
                game.open_random()
            } else {
                best_moves.iter().for_each(|m| match m {
                    BestMove::Open(p) => game.open(p),
                    BestMove::Flag(p) => game.flag(p),
                    BestMove::Random => {}
                })
            }
            ai.calculate_matrix(&game);
            best_moves = ai.batch_moves();
        }
        println!("{}", game.render());
        println!("{:?}", game.status);
        match game.status {
            GameStatus::Lose => loses += 1,
            GameStatus::Win => wins += 1,
            GameStatus::OnGoing => unreachable!(),
        }
    }

    println!("Wins : {}", wins);
    println!("Loses : {}", loses);
}

#[test]
fn new_solver_knows_nothing() {
    let game = board(4, 2, &[(1, 1)]);
    let ai = AIPlayer::new(&game);
    assert_eq!(ai.width, 4);
    assert_eq!(ai.height, 2);
    assert_eq!(ai.matrix, vec![vec![None; 4]; 2]);
    assert_eq!(ai.batch_moves(), vec![]);
    assert_eq!(ai.should_flag(), None);
    assert_eq!(ai.best_play(), None);
}

#[test]
fn single_hidden_mine_is_flagged() {
    let mut game = board(3, 3, &[(2, 2)]);
    game.open(&Position::new(0, 0));
    for y in 0..3 {
        for x in 0..3 {
            assert_eq!(game.grid().0[y][x].counter().is_some(), (x, y) != (2, 2));
        }
    }
    let mut ai = AIPlayer::new(&game);
    ai.calculate_matrix(&game);
    assert_eq!(ai.matrix[2][2], Some(Certainty::Mine));
    assert_eq!(ai.should_flag(), Some(Position::new(2, 2)));
    assert_eq!(ai.best_play(), None);
    assert_eq!(ai.batch_moves(), vec![BestMove::Flag(Position::new(2, 2))]);
    for y in 0..3 {
        for x in 0..3 {
            if (x, y) != (2, 2) {
                assert_eq!(ai.matrix[y][x], None);
            }
        }
    }
}

#[test]
fn zero_count_makes_closed_neighbours_safe() {
    let mut game = board(3, 3, &[]);
    let around: Vec<Position> = game
        .neighbors(&Position::new(1, 1))
        .into_iter()
        .filter(|p| (p.x, p.y) != (1, 1))
        .collect();
    for p in &around {
        game.flag(p);
    }
    game.open(&Position::new(1, 1));
    for p in &around {
        game.unflag(*p);
    }
    assert_eq!(game.grid().0[1][1].counter(), Some(0));

    let mut ai = AIPlayer::new(&game);
    ai.calculate_matrix(&game);
    for p in &around {
        assert_eq!(ai.matrix[p.y][p.x], Some(Certainty::Safe));
    }
    assert_eq!(ai.matrix[1][1], None);
    let moves = ai.batch_moves();
    assert_eq!(moves.len(), 8);
    assert_eq!(moves[0], BestMove::Open(Position::new(0, 0)));
    assert_eq!(moves[7], BestMove::Open(Position::new(2, 2)));
    for p in &around {
        assert!(moves.contains(&BestMove::Open(*p)));
    }
    assert_eq!(ai.best_play(), Some(Position::new(0, 0)));
    assert_eq!(ai.should_flag(), None);
}

#[test]
fn flags_that_match_the_count_make_the_rest_safe() {
    // Mine at (0,0), flagged; the opened cell (1,1) has count 1 and one flag around it.
    let mut game = board(3, 3, &[(0, 0)]);
    game.flag(&Position::new(0, 0));
    game.open(&Position::new(1, 1));
    let mut ai = AIPlayer::new(&game);
    ai.calculate_matrix(&game);
    assert_eq!(ai.matrix[0][0], None);
    assert_eq!(ai.matrix[0][1], Some(Certainty::Safe));
    assert_eq!(ai.matrix[2][2], Some(Certainty::Safe));
    assert_eq!(ai.best_play(), Some(Position::new(1, 0)));
}

#[test]
fn every_entry_is_recomputed_from_the_game() {
    let mut game = board(5, 1, &[(2, 0), (3, 0)]);
    let mut ai = AIPlayer::new(&game);
    ai.matrix[0][0] = Some(Certainty::Mine);
    ai.matrix[0][4] = Some(Certainty::Safe);
    game.open(&Position::new(0, 0));
    assert_eq!(game.grid().0[0][1].counter(), Some(1));
    ai.calculate_matrix(&game);
    assert_eq!(ai.matrix[0][0], None);
    assert_eq!(ai.matrix[0][1], None);
    assert_eq!(ai.matrix[0][2], Some(Certainty::Mine));
    assert_eq!(ai.matrix[0][3], None);
    assert_eq!(ai.matrix[0][4], None);
}

#[test]
fn later_cells_overwrite_earlier_verdicts() {
    // (0,0) sees one mine and one closed cell: (1,0) is a mine. (2,0) sees one mine and
    // the wrong flag on (3,0): (1,0) is safe. (2,0) comes later, so its verdict stands.
    let mut game = board(4, 1, &[(1, 0)]);
    game.flag(&Position::new(3, 0));
    game.open(&Position::new(0, 0));
    game.open(&Position::new(2, 0));
    let mut ai = AIPlayer::new(&game);
    ai.calculate_matrix(&game);
    assert_eq!(ai.matrix[0][1], Some(Certainty::Safe));
    assert_eq!(ai.matrix[0][3], None);
}
