use filter_lock::harness::{StepEvent, System};
use filter_lock::lock::ConfigError;
use filter_lock::oracle::Violation;

/// A schedule that sweeps the workers round-robin `sweeps` times.
fn round_robin(p: usize, sweeps: usize) -> Vec<usize> {
    let mut schedule = Vec::new();
    for _ in 0..sweeps {
        for i in 0..p {
            schedule.push(i);
        }
    }
    schedule
}

#[test]
fn misconfiguration_fails_fast() {
    assert!(matches!(System::new(0, 10, true), Err(ConfigError::TooFewProcesses)));
    assert!(matches!(System::new(1, 10, true), Err(ConfigError::TooFewProcesses)));
    assert!(System::new(2, 0, true).is_ok());
}

#[test]
fn zero_rounds_complete_immediately() {
    let mut sys = System::new(3, 0, true).unwrap();
    let entries = sys.run(&round_robin(3, 2)).unwrap();
    assert_eq!(entries, 0);
    assert!(sys.all_done());
}

#[test]
fn two_process_peterson_completes_with_exclusion() {
    // The P = 2 edge case: one level, flags in {-1, 0}, turn[0] decides.
    let mut sys = System::new(2, 5, true).unwrap();
    let entries = sys.run(&round_robin(2, 100)).unwrap();
    assert_eq!(entries, 10);
    assert!(sys.all_done());
}

#[test]
fn four_workers_hundred_rounds_scenario() {
    // P = 4, rounds = 100: the run completes with zero violations and
    // exactly 400 critical-section entries.
    let mut sys = System::new(4, 100, true).unwrap();
    let entries = sys.run(&round_robin(4, 20_000)).unwrap();
    assert_eq!(entries, 400);
    assert!(sys.all_done());
}

#[test]
fn entries_are_evenly_distributed() {
    // Every worker gets all of its rounds: no process is starved out.
    let mut sys = System::new(5, 20, true).unwrap();
    let entries = sys.run(&round_robin(5, 5_000)).unwrap();
    assert_eq!(entries, 100);
    for i in 0..5 {
        assert_eq!(sys.done[i], 20);
    }
}

#[test]
fn every_tested_size_terminates() {
    // Liveness across a range of process counts: all rounds complete in a
    // bounded number of steps.
    for p in 2..=10 {
        let mut sys = System::new(p, 3, true).unwrap();
        let entries = sys.run(&round_robin(p, 4_000)).unwrap();
        assert_eq!(entries, 3 * p);
        assert!(sys.all_done(), "p = {} did not finish", p);
    }
}

#[test]
fn adversarial_schedules_still_complete() {
    // Bursts of attention to one worker at a time, in reverse order.
    let mut sys = System::new(3, 4, true).unwrap();
    let mut schedule = Vec::new();
    for sweep in 0..400 {
        for burst in 0..3 {
            let w = (5 + sweep - burst) % 3;
            for _ in 0..7 {
                schedule.push(w);
            }
        }
    }
    let entries = sys.run(&schedule).unwrap();
    assert_eq!(entries, 12);
    assert!(sys.all_done());
}

#[test]
fn out_of_range_schedule_entries_are_skipped() {
    let mut sys = System::new(2, 1, true).unwrap();
    let mut schedule = vec![99, 7, 2];
    schedule.extend(round_robin(2, 30));
    let entries = sys.run(&schedule).unwrap();
    assert_eq!(entries, 2);
    assert!(sys.all_done());
}

#[test]
fn solo_worker_is_never_blocked() {
    // A worker with no contenders walks straight up the ladder.
    let mut sys = System::new(3, 2, true).unwrap();
    let only_zero = vec![0; 50];
    let entries = sys.run(&only_zero).unwrap();
    assert_eq!(entries, 2);
    assert_eq!(sys.done[0], 2);
    assert_eq!(sys.done[1], 0);
    assert!(!sys.all_done());
}

#[test]
fn blocked_worker_waits_until_the_holder_releases() {
    // Step-by-step two-process scenario with the predicate enabled.
    let mut sys = System::new(2, 1, true).unwrap();
    assert_eq!(sys.step(0), Ok(StepEvent::Started));
    assert_eq!(sys.step(0), Ok(StepEvent::FlagSet));
    assert_eq!(sys.step(0), Ok(StepEvent::TurnSet));
    assert_eq!(sys.step(0), Ok(StepEvent::Entered));
    // Worker 1 reaches the poll and must wait: worker 0 is inside.
    assert_eq!(sys.step(1), Ok(StepEvent::Started));
    assert_eq!(sys.step(1), Ok(StepEvent::FlagSet));
    assert_eq!(sys.step(1), Ok(StepEvent::TurnSet));
    assert_eq!(sys.step(1), Ok(StepEvent::Waited));
    assert_eq!(sys.step(1), Ok(StepEvent::Waited));
    // Worker 0 leaves; worker 1 may now enter.
    assert_eq!(sys.step(0), Ok(StepEvent::Released));
    assert_eq!(sys.step(1), Ok(StepEvent::Entered));
    assert_eq!(sys.step(1), Ok(StepEvent::Released));
    assert!(sys.all_done());
}

#[test]
fn negative_control_detects_the_race() {
    // With the blocking predicate disabled both workers charge through the
    // ladder, and the oracle catches the second one.
    let mut sys = System::new(2, 1, false).unwrap();
    assert_eq!(sys.step(0), Ok(StepEvent::Started));
    assert_eq!(sys.step(0), Ok(StepEvent::FlagSet));
    assert_eq!(sys.step(0), Ok(StepEvent::TurnSet));
    assert_eq!(sys.step(0), Ok(StepEvent::Entered));
    assert_eq!(sys.step(1), Ok(StepEvent::Started));
    assert_eq!(sys.step(1), Ok(StepEvent::FlagSet));
    assert_eq!(sys.step(1), Ok(StepEvent::TurnSet));
    assert_eq!(sys.step(1), Err(Violation::ExclusivityViolation));
}

#[test]
fn negative_control_through_run() {
    let mut sys = System::new(2, 1, false).unwrap();
    let result = sys.run(&round_robin(2, 30));
    assert_eq!(result, Err(Violation::ExclusivityViolation));
}

#[test]
fn disabled_predicate_with_disjoint_schedules_still_works() {
    // Even in the broken mode, a schedule without overlap never trips the
    // oracle: the race needs concurrency, which the oracle then proves.
    let mut sys = System::new(2, 1, false).unwrap();
    let mut schedule = vec![0; 8];
    schedule.extend(vec![1; 8]);
    let entries = sys.run(&schedule).unwrap();
    assert_eq!(entries, 2);
    assert!(sys.all_done());
}
