use jardedupli::deploy::{artifact_label, copy_skip_reason, CopyOutcome, CopyTally, SkipReason};
use jardedupli::lock::{next_lock_step, LockStep, OpenOutcome};
use jardedupli::maven_coordinate::MavenCoordinates;

#[test]
fn lock_steps() {
    assert_eq!(next_lock_step(OpenOutcome::Created, false), LockStep::Acquired);
    assert_eq!(next_lock_step(OpenOutcome::Created, true), LockStep::Acquired);
    assert_eq!(next_lock_step(OpenOutcome::AlreadyExists, false), LockStep::Retry);
    assert_eq!(next_lock_step(OpenOutcome::AlreadyExists, true), LockStep::TimedOut);
    assert_eq!(next_lock_step(OpenOutcome::Failed, false), LockStep::Fail);
}

#[test]
fn skip_reasons_in_order() {
    assert_eq!(copy_skip_reason(&None, true, true, false), Some(SkipReason::NoJarPath));
    assert_eq!(copy_skip_reason(&Some(String::new()), true, true, false), Some(SkipReason::JarNotFound));
    assert_eq!(copy_skip_reason(&Some("/a.jar".to_string()), false, true, false), Some(SkipReason::JarNotFound));
    assert_eq!(copy_skip_reason(&Some("/a.jar".to_string()), true, false, false), Some(SkipReason::NoFileName));
    assert_eq!(copy_skip_reason(&Some("/a.jar".to_string()), true, true, true), Some(SkipReason::AlreadyInTarget));
    assert_eq!(copy_skip_reason(&Some("/a.jar".to_string()), true, true, false), None);
}

#[test]
fn tally_and_exit_code() {
    let mut t = CopyTally::new();
    assert_eq!(t.exit_code(), 0);
    t.record(CopyOutcome::Copied);
    t.record(CopyOutcome::Skipped(SkipReason::NoJarPath));
    t.record(CopyOutcome::Skipped(SkipReason::AlreadyInTarget));
    assert_eq!((t.copied(), t.skipped(), t.errors()), (1, 2, 0));
    assert_eq!(t.exit_code(), 0);
    t.record(CopyOutcome::Failed);
    assert_eq!(t.exit_code(), 1);
}

#[test]
fn artifact_labels() {
    let with_group = MavenCoordinates::new(Some("g".to_string()), "a".to_string(), None, None, None);
    assert_eq!(artifact_label(&with_group), "g:a");
    let without = MavenCoordinates::new(None, "a".to_string(), None, None, None);
    assert_eq!(artifact_label(&without), "?:a");
}
