use crosses::board::BoardError;
use crosses::cell::CellKind;
use crosses::game::{CrossesCore, CrossesError, GameOver, GameState, PlayerManager};

#[test]
fn back_at_start_is_refused() {
    let mut g = CrossesCore::new(10, 10, 1);
    assert_eq!(g.back(), Err(CrossesError::BackError));
    assert_eq!(g.player_manager.current_move(), 0);
    assert!(g.log.is_empty());
    assert_eq!(g.board_manager.crosses_counter, [1, 1]);
    assert!(!g.can_back());
}

#[test]
fn new_move_after_back_drops_redo() {
    let mut g = CrossesCore::new(10, 10, 1);
    assert_eq!(g.make_move(1, 0), Ok(()));
    assert_eq!(g.back(), Ok(()));
    assert!(g.can_forward());
    assert_eq!(g.make_move(0, 1), Ok(()));
    assert_eq!(g.log, vec![(0, 1)]);
    assert!(!g.can_forward());
    assert_eq!(g.forward(), Err(CrossesError::ForwardError));
}

#[test]
fn back_then_forward_replays() {
    let mut g = CrossesCore::new(10, 10, 1);
    g.make_move(1, 0).unwrap();
    g.back().unwrap();
    assert_eq!(g.board_manager.get((1, 0)).kind(), CellKind::Empty);
    assert_eq!(g.forward(), Ok(()));
    assert_eq!(g.board_manager.get((1, 0)).kind(), CellKind::Cross);
    assert_eq!(g.player_manager.current_move(), 1);
    assert!(g.player_manager.current_player());
}

#[test]
fn turns_alternate_by_moves_per_turn() {
    let mut g = CrossesCore::new(10, 10, 2);
    assert!(!g.player_manager.current_player());
    g.make_move(1, 0).unwrap();
    assert!(!g.player_manager.current_player());
    g.make_move(2, 0).unwrap();
    assert!(g.player_manager.current_player());
    g.make_move(8, 9).unwrap();
    assert_eq!(g.board_manager.get((8, 9)).kind(), CellKind::Cross);
    assert!(g.board_manager.get((8, 9)).player());
}

#[test]
fn refused_board_move_is_reported() {
    let mut g = CrossesCore::new(10, 10, 1);
    assert_eq!(
        g.make_move(5, 5),
        Err(CrossesError::BoardError(BoardError::OutOfReach))
    );
    assert_eq!(g.player_manager.current_move(), 0);
}

#[test]
fn ended_game_refuses_moves() {
    let mut g = CrossesCore::new(10, 10, 1);
    let over = GameOver { loser: true };
    g.player_manager.state = GameState::Ended(over);
    assert_eq!(g.make_move(1, 0), Err(CrossesError::PlayerError(over)));
    assert_eq!(g.board_manager.get((1, 0)).kind(), CellKind::Empty);
}

#[test]
fn losing_last_cross_ends_game() {
    let mut g = CrossesCore::new(3, 3, 1);
    g.make_move(1, 1).unwrap();
    assert_eq!(g.player_manager.game_state(), GameState::InProgress);
    g.make_move(1, 1).unwrap();
    assert_eq!(g.board_manager.crosses_counter, [2, 0]);
    assert_eq!(g.player_manager.game_state(), GameState::InProgress);
    let mut pm = PlayerManager::new(1);
    pm.advance([false, true]);
    assert_eq!(pm.game_state(), GameState::Ended(GameOver { loser: true }));
    pm.reverse();
    assert_eq!(pm.game_state(), GameState::InProgress);
}

#[test]
fn corrupted_log_is_detected() {
    let mut g = CrossesCore::new(10, 10, 1);
    g.make_move(1, 0).unwrap();
    g.log[0] = (5, 5);
    assert_eq!(g.back(), Err(CrossesError::CorruptedLog));
    assert_eq!(g.player_manager.current_move(), 1);
}

#[test]
fn error_messages() {
    assert_eq!(CrossesError::BackError.message(), "there's no going back");
    assert_eq!(CrossesError::ForwardError.message(), "nothing ahead");
    assert_eq!(
        CrossesError::BoardError(BoardError::SelfFill).message(),
        "cannot fill own cross"
    );
}

#[test]
fn errors_convert_from_board_and_game_over() {
    assert_eq!(
        CrossesError::from(BoardError::DoubleFill),
        CrossesError::BoardError(BoardError::DoubleFill)
    );
    let over = GameOver { loser: false };
    assert_eq!(CrossesError::from(over), CrossesError::PlayerError(over));
}

#[test]
fn session_well_formedness() {
    let mut g = CrossesCore::new(10, 10, 3);
    assert!(g.is_well_formed());
    g.player_manager.current_move = 1;
    assert!(!g.is_well_formed());
}
