use crosses::cell::{ActivationStatus, CellKind, SampleCell};

fn counters(c: &SampleCell) -> (u8, u8) {
    (c.activity(false), c.activity(true))
}

#[test]
fn activate_counts_up_then_overheats() {
    let mut c = SampleCell::empty();
    assert_eq!(c.activate(true), ActivationStatus::Regular);
    assert_eq!(counters(&c), (0, 1));
    assert_eq!(c.activate(true), ActivationStatus::Regular);
    assert_eq!(counters(&c), (0, 2));
    assert_eq!(c.activate(true), ActivationStatus::Overheat);
    assert_eq!(counters(&c), (0, 3));
}

#[test]
fn activate_at_max_stays_at_max() {
    let mut c = SampleCell::empty();
    c.activate(false);
    c.activate(false);
    c.activate(false);
    assert_eq!(c.activity(false), 3);
    assert_eq!(c.activate(false), ActivationStatus::Overheat);
    assert_eq!(c.activity(false), 3);
    assert_eq!(c.activity(true), 0);
}

#[test]
fn deactivate_at_one_clears_and_reports_zero() {
    let mut c = SampleCell::empty();
    c.activate(true);
    c.activate(false);
    assert_eq!(c.deactivate(true), ActivationStatus::Zero);
    assert_eq!(counters(&c), (1, 0));
}

#[test]
fn deactivate_above_one_steps_down() {
    let mut c = SampleCell::empty();
    c.activate(false);
    c.activate(false);
    c.activate(false);
    assert_eq!(c.deactivate(false), ActivationStatus::Regular);
    assert_eq!(c.activity(false), 2);
    assert_eq!(c.deactivate(false), ActivationStatus::Regular);
    assert_eq!(c.activity(false), 1);
}

#[test]
fn reset_activity_clears_both() {
    let mut c = SampleCell::empty();
    c.activate(false);
    c.activate(true);
    c.reset_activity();
    assert_eq!(counters(&c), (0, 0));
}

#[test]
fn cell_lifecycle() {
    let mut c = SampleCell::empty();
    assert_eq!(c.kind(), CellKind::Empty);
    c.cross_out(true);
    assert_eq!(c.kind(), CellKind::Cross);
    assert!(c.player());
    c.set_important(true);
    c.fill(false);
    assert_eq!(c.kind(), CellKind::Filled);
    assert!(!c.player());
    assert!(c.is_alive());
    assert!(c.is_important());
    c.set_alive(false);
    assert!(!c.is_alive());
    c.remove_fill(true);
    assert_eq!(c.kind(), CellKind::Cross);
    assert!(c.player());
    c.remove_cross();
    assert_eq!(c.kind(), CellKind::Empty);
    assert!(!c.important);
}

#[test]
fn is_active_refuses_own_cross() {
    let mut c = SampleCell::empty();
    assert!(!c.is_active(false));
    c.activate(false);
    c.activate(true);
    assert!(c.is_active(false));
    c.cross_out(false);
    assert!(!c.is_active(false));
    assert!(c.is_active(true));
}

#[test]
fn flags_round_trip() {
    let mut c = SampleCell::border();
    assert_eq!(c.kind(), CellKind::Border);
    assert!(!c.is_checked());
    c.set_checked(true);
    assert!(c.is_checked());
    c.set_overheat(true);
    assert!(c.is_overheated());
    c.set_overheat(false);
    assert!(!c.is_overheated());
}
