//! Policy of file locking.

use rust_hdf5::io::locking::{FileLocking, LockAttempt, LockStep, RETRY_ATTEMPTS};
use rust_hdf5::io::IoError;

#[test]
fn parse_env_value_defaults_to_enabled() {
    assert_eq!(FileLocking::parse_env_value(None), FileLocking::Enabled);
}

#[test]
fn parse_env_value_recognizes_disabled() {
    for v in ["FALSE", "false", "0", "off", "no"] {
        assert_eq!(
            FileLocking::parse_env_value(Some(v)),
            FileLocking::Disabled,
            "value: {v}",
        );
    }
}

#[test]
fn parse_env_value_recognizes_best_effort() {
    for v in ["BEST_EFFORT", "best_effort", "best-effort", "BestEffort"] {
        assert_eq!(
            FileLocking::parse_env_value(Some(v)),
            FileLocking::BestEffort,
            "value: {v}",
        );
    }
}

#[test]
fn parse_env_value_recognizes_enabled() {
    for v in ["TRUE", "true", "1", "on", "yes", "garbage"] {
        assert_eq!(
            FileLocking::parse_env_value(Some(v)),
            FileLocking::Enabled,
            "value: {v}",
        );
    }
}

#[test]
fn the_environment_comes_before_the_default() {
    assert_eq!(
        FileLocking::value_or(Some("FALSE"), FileLocking::BestEffort),
        FileLocking::Disabled
    );
    assert_eq!(
        FileLocking::value_or(None, FileLocking::BestEffort),
        FileLocking::BestEffort
    );
    assert!(FileLocking::Enabled.wants_lock());
    assert!(!FileLocking::Disabled.wants_lock());
}

#[test]
fn a_lock_that_is_held_is_tried_again() {
    let p = FileLocking::Enabled;
    assert!(matches!(p.after_attempt(LockAttempt::Acquired, 3), LockStep::Done(true)));
    assert!(matches!(p.after_attempt(LockAttempt::WouldBlock, 0), LockStep::Again));
    assert!(matches!(
        p.after_attempt(LockAttempt::WouldBlock, RETRY_ATTEMPTS),
        LockStep::Fail(IoError::Io(m))
            if m == "unable to lock file: another process holds a conflicting lock"
    ));
    assert!(matches!(
        p.after_attempt(LockAttempt::Failed("no locks here".to_string()), 0),
        LockStep::Fail(IoError::Io(m)) if m == "no locks here"
    ));
    let p = FileLocking::BestEffort;
    assert!(matches!(
        p.after_attempt(LockAttempt::WouldBlock, RETRY_ATTEMPTS),
        LockStep::Done(false)
    ));
    assert!(matches!(
        p.after_attempt(LockAttempt::Failed("no".to_string()), 0),
        LockStep::Done(false)
    ));
}
