use filter_lock::oracle::{HotPotato, Violation};

#[test]
fn hold_then_release_round_trip() {
    let mut potato = HotPotato::new();
    assert_eq!(potato.hold(), Ok(()));
    assert_eq!(potato.release(), Ok(()));
    // The flag is free again: a second balanced cycle works.
    assert_eq!(potato.hold(), Ok(()));
    assert_eq!(potato.release(), Ok(()));
}

#[test]
fn double_hold_reports_exclusivity_violation() {
    let mut potato = HotPotato::new();
    assert_eq!(potato.hold(), Ok(()));
    assert_eq!(potato.hold(), Err(Violation::ExclusivityViolation));
}

#[test]
fn release_when_free_reports_unbalanced_release() {
    let mut potato = HotPotato::new();
    assert_eq!(potato.release(), Err(Violation::UnbalancedRelease));
}

#[test]
fn release_after_failed_hold_still_balanced() {
    let mut potato = HotPotato::new();
    assert_eq!(potato.hold(), Ok(()));
    // The failed double hold must not consume the real hold.
    assert_eq!(potato.hold(), Err(Violation::ExclusivityViolation));
    assert_eq!(potato.release(), Ok(()));
    assert_eq!(potato.release(), Err(Violation::UnbalancedRelease));
}

#[test]
fn default_starts_free() {
    let mut potato = HotPotato::default();
    assert_eq!(potato.hold(), Ok(()));
}
