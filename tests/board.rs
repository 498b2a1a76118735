use crosses::board::{BoardError, SampleBoardManager, Visit};
use crosses::cell::CellKind;

fn small() -> SampleBoardManager {
    SampleBoardManager::new(3, 3)
}

/// Player 0 crosses out the centre of a 3 by 3 board, player 1 captures it.
fn captured() -> SampleBoardManager {
    let mut b = small();
    assert_eq!(b.make_move((1, 1), false), Ok(()));
    assert_eq!(b.make_move((1, 1), true), Ok(()));
    b
}

#[test]
fn new_board_has_two_seeds() {
    let b = SampleBoardManager::new(10, 10);
    let s0 = b.get((0, 0));
    assert_eq!(s0.kind(), CellKind::Cross);
    assert!(!s0.player());
    let s1 = b.get((9, 9));
    assert_eq!(s1.kind(), CellKind::Cross);
    assert!(s1.player());
    assert_eq!(b.moves_counter, [0, 0]);
    assert_eq!(b.crosses_counter, [1, 1]);
    assert_eq!(b.get((5, 5)).kind(), CellKind::Empty);
    assert_eq!(b.get((1, 1)).activity(false), 1);
    assert_eq!(b.get((8, 8)).activity(true), 1);
    assert_eq!(b.get((2, 2)).activity(false), 0);
}

#[test]
fn outside_reads_as_border() {
    let b = SampleBoardManager::new(10, 10);
    assert_eq!(b.get((10, 0)).kind(), CellKind::Border);
    assert_eq!(b.get((0, 10)).kind(), CellKind::Border);
    assert_eq!(b.get((usize::MAX, 3)).kind(), CellKind::Border);
}

#[test]
fn adjacent_in_direction_order() {
    let n = SampleBoardManager::adjacent((1, 1));
    assert_eq!(n, [(0, 0), (1, 0), (2, 0), (0, 1), (2, 1), (0, 2), (1, 2), (2, 2)]);
    let w = SampleBoardManager::adjacent((0, 0));
    assert_eq!(w[0], (usize::MAX, usize::MAX));
    assert_eq!(w[4], (1, 0));
}

#[test]
fn claim_next_to_seed() {
    let mut b = SampleBoardManager::new(10, 10);
    assert_eq!(b.make_move((1, 0), false), Ok(()));
    let c = b.get((1, 0));
    assert_eq!(c.kind(), CellKind::Cross);
    assert!(!c.player());
    assert_eq!(b.crosses_counter, [2, 1]);
    assert_eq!(b.moves_counter, [-1, 0]);
    assert_eq!(b.get((2, 1)).activity(false), 1);
    assert_eq!(b.get((1, 1)).activity(false), 2);
}

#[test]
fn capture_own_cross_is_self_fill() {
    let mut b = SampleBoardManager::new(10, 10);
    assert_eq!(b.make_move((9, 9), true), Err(BoardError::SelfFill));
    let c = b.get((9, 9));
    assert_eq!(c.kind(), CellKind::Cross);
    assert!(c.player());
    assert_eq!(b.moves_counter, [0, 0]);
    assert_eq!(b.crosses_counter, [1, 1]);
}

#[test]
fn far_cell_is_out_of_reach() {
    let mut b = SampleBoardManager::new(10, 10);
    assert_eq!(b.make_move((5, 5), false), Err(BoardError::OutOfReach));
    assert_eq!(b.get((5, 5)).kind(), CellKind::Empty);
    assert_eq!(b.crosses_counter, [1, 1]);
}

#[test]
fn move_outside_is_border_hit() {
    let mut b = SampleBoardManager::new(10, 10);
    assert_eq!(b.make_move((10, 0), false), Err(BoardError::BorderHit));
    assert_eq!(b.cancel_move((0, 10), false), Err(BoardError::BorderHit));
}

#[test]
fn capture_then_fill_again_is_double_fill() {
    let mut b = captured();
    assert_eq!(b.make_move((1, 1), false), Err(BoardError::DoubleFill));
}

#[test]
fn cancel_on_empty_is_refused() {
    let mut b = SampleBoardManager::new(10, 10);
    assert_eq!(b.cancel_move((4, 4), false), Err(BoardError::EmptyCancel));
}

#[test]
fn capture_fills_and_marks_cut_off_crosses() {
    let b = captured();
    let c = b.get((1, 1));
    assert_eq!(c.kind(), CellKind::Filled);
    assert!(c.player());
    assert!(c.is_alive());
    assert!(c.is_important());
    assert!(b.get((2, 2)).is_important());
    assert!(!b.get((0, 0)).is_important());
    assert_eq!(b.crosses_counter, [2, 0]);
    assert_eq!(b.moves_counter, [-2, 0]);
}

#[test]
fn cancel_claim_restores_cell_and_tallies() {
    let mut b = SampleBoardManager::new(10, 10);
    let before = b.get((1, 0));
    b.make_move((1, 0), false).unwrap();
    assert_eq!(b.cancel_move((1, 0), true), Ok(()));
    let after = b.get((1, 0));
    assert_eq!(after.kind(), before.kind());
    assert_eq!(after.player, before.player);
    assert_eq!(after.important, before.important);
    assert_eq!(b.moves_counter, [0, 0]);
    assert_eq!(b.crosses_counter, [1, 1]);
    assert_eq!(b.get((2, 1)).activity(false), 0);
}

#[test]
fn cancel_capture_restores_original_claimant() {
    let mut b = small();
    b.make_move((1, 1), false).unwrap();
    let tallies = (b.moves_counter, b.crosses_counter);
    b.make_move((1, 1), true).unwrap();
    assert_eq!(b.cancel_move((1, 1), false), Ok(()));
    let c = b.get((1, 1));
    assert_eq!(c.kind(), CellKind::Cross);
    assert!(!c.player());
    assert!(!c.is_important());
    assert_eq!((b.moves_counter, b.crosses_counter), tallies);
}

#[test]
fn cancel_capture_restores_importance_despite_saturation() {
    // Player 0's cross at (1, 0) is not important; its neighbour (1, 1)
    // is saturated for player 0, so a recomputation would mark it.
    let mut b = SampleBoardManager::new(10, 10);
    b.make_move((1, 0), false).unwrap();
    b.make_move((0, 1), false).unwrap();
    assert_eq!(b.get((1, 1)).activity(false), 3);
    assert!(!b.get((1, 0)).is_important());
    b.board[2 * 16].activity = [1, 1];
    assert_eq!(b.make_move((2, 0), true), Ok(()));
    b.board[16].activity = [3, 1];
    assert_eq!(b.make_move((1, 0), true), Ok(()));
    assert_eq!(b.get((1, 0)).kind(), CellKind::Filled);
    assert_eq!(b.cancel_move((1, 0), false), Ok(()));
    let c = b.get((1, 0));
    assert_eq!(c.kind(), CellKind::Cross);
    assert!(!c.player());
    assert!(!c.is_important());
}

#[test]
fn region_visits_each_cell_once_in_order() {
    let mut b = captured();
    let log = b.region((1, 1));
    assert_eq!(
        log,
        vec![(1, 1), (0, 0), (1, 0), (2, 0), (0, 1), (2, 1), (0, 2), (1, 2), (2, 2)]
    );
    for x in 0..3 {
        for y in 0..3 {
            assert!(!b.get((x, y)).is_checked());
        }
    }
}

#[test]
fn region_follows_connected_territory() {
    let mut b = SampleBoardManager::new(10, 10);
    b.make_move((1, 0), false).unwrap();
    b.make_move((2, 0), false).unwrap();
    let log = b.region((0, 0));
    // Only the seed and its three neighbours: crosses do not carry the walk on.
    assert_eq!(log, vec![(0, 0), (1, 0), (0, 1), (1, 1)]);
    b.clear_checked();
    assert!(!b.get((0, 0)).is_checked());
}

#[test]
fn kill_and_revive_toggle_territory() {
    let mut b = captured();
    b.kill((1, 1));
    assert!(!b.get((1, 1)).is_alive());
    b.revive((1, 1));
    assert!(b.get((1, 1)).is_alive());
}

#[test]
fn search_finds_own_cross_next_to_region() {
    let mut b = captured();
    assert_eq!(b.search((1, 1)), Some((2, 2)));
    assert_eq!(b.search((2, 2)), None);
    let mut t = SampleBoardManager::new(10, 10);
    assert_eq!(t.traverse((0, 0), Visit::Search).1, None);
}

#[test]
fn default_board_is_ten_by_ten() {
    let b = SampleBoardManager::default();
    assert_eq!((b.max_x, b.max_y), (10, 10));
    assert_eq!(b.get((9, 9)).kind(), CellKind::Cross);
    assert!(b.is_well_formed());
}

#[test]
fn board_well_formedness_catches_bad_cells() {
    let mut b = SampleBoardManager::new(4, 4);
    assert!(b.is_well_formed());
    b.board[2 * 16 + 3].activity = [4, 0];
    assert!(!b.is_well_formed());
    let mut c = SampleBoardManager::new(4, 4);
    c.board[1].checked = true;
    assert!(!c.is_well_formed());
    let mut d = SampleBoardManager::new(4, 4);
    d.max_x = 17;
    assert!(!d.is_well_formed());
}
