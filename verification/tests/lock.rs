use filter_lock::lock::{create_shared_memory, ConfigError, FilterLock};

#[test]
fn rejects_fewer_than_two_processes() {
    assert!(matches!(FilterLock::new(0), Err(ConfigError::TooFewProcesses)));
    assert!(matches!(FilterLock::new(1), Err(ConfigError::TooFewProcesses)));
}

#[test]
fn fresh_lock_has_nobody_contending() {
    let lock = FilterLock::new(3).unwrap();
    assert_eq!(lock.flag, vec![-1, -1, -1]);
    assert_eq!(lock.turn, vec![0, 0]);
}

#[test]
fn blocked_sees_a_contender_when_it_holds_the_turn() {
    let mut lock = FilterLock::new(3).unwrap();
    // Process 1 contends at level 0 and process 0 is the latest claimant.
    lock.flag[1] = 0;
    lock.turn[0] = 0;
    assert!(lock.blocked(0, 0));
    // Process 1 does not hold the turn, so it is not blocked.
    assert!(!lock.blocked(1, 0));
}

#[test]
fn blocked_ignores_the_polling_process_itself() {
    let mut lock = FilterLock::new(2).unwrap();
    lock.flag[0] = 0;
    lock.turn[0] = 0;
    // Only process 0 itself contends: no *other* process blocks it.
    assert!(!lock.blocked(0, 0));
}

#[test]
fn blocked_clears_when_the_turn_moves_on() {
    let mut lock = FilterLock::new(2).unwrap();
    lock.flag[0] = 0;
    lock.flag[1] = 0;
    // Process 1 conceded the tie most recently: process 0 may pass.
    lock.turn[0] = 1;
    assert!(!lock.blocked(0, 0));
    assert!(lock.blocked(1, 0));
}

#[test]
fn blocked_counts_higher_levels_too() {
    let mut lock = FilterLock::new(4).unwrap();
    // Process 2 is already at level 2; process 0 polls at level 1.
    lock.flag[0] = 1;
    lock.flag[2] = 2;
    lock.turn[1] = 0;
    assert!(lock.blocked(0, 1));
}

#[test]
fn release_clears_only_the_callers_flag() {
    let mut lock = FilterLock::new(3).unwrap();
    lock.flag[0] = 1;
    lock.flag[1] = 1;
    lock.release(1);
    assert_eq!(lock.flag, vec![1, -1, -1]);
}

#[test]
fn create_shared_memory_hands_back_the_value() {
    let shared = create_shared_memory(41i32);
    assert_eq!(*shared, 41);
    let also = shared.clone();
    drop(shared);
    assert_eq!(*also, 41);
}
