use std::sync::atomic::{AtomicUsize, Ordering};
use std::sync::{Arc, Mutex};

use hybrid_mount::errors::{Error, Result};
use hybrid_mount::sys::transaction::{commit_result, CleanupFailure, MountTransaction, RollbackReport};

type Calls = Arc<Mutex<Vec<&'static str>>>;
type Cleanup = Box<dyn FnOnce() -> Result<()>>;

fn record(order: &Calls, label: &'static str, result: Result<()>) -> Cleanup {
    let order = Arc::clone(order);
    Box::new(move || {
        order.lock().unwrap().push(label);
        result
    })
}

fn failing(message: &'static str) -> Cleanup {
    Box::new(move || Err(Error::msg(message.to_string())))
}

#[test]
fn commit_runs_cleanup_in_reverse_registration_order() {
    let calls = Arc::new(Mutex::new(Vec::new()));
    let mut transaction: MountTransaction<Cleanup> = MountTransaction::new();
    transaction.register("first", record(&calls, "first", Ok(())));
    transaction.register("second", record(&calls, "second", Ok(())));
    transaction.register("third", record(&calls, "third", Ok(())));

    transaction.commit(false).unwrap();

    assert_eq!(*calls.lock().unwrap(), vec!["third", "second", "first"]);
}

#[test]
fn rollback_report_collects_every_failure() {
    let mut transaction: MountTransaction<Cleanup> = MountTransaction::new();
    transaction.register("first", failing("first cleanup failed"));
    transaction.register("second", failing("second cleanup failed"));
    transaction.register("third", Box::new(|| Ok(())));

    let report: RollbackReport = transaction.rollback();

    assert_eq!(report.cleaned, 1);
    assert_eq!(report.retained, 0);
    assert_eq!(report.failures.len(), 2);
    assert_eq!(report.failures[0].label, "second");
    assert_eq!(report.failures[1].label, "first");
    assert!(report.failures[0].error.message().contains("second cleanup failed"));
    assert!(report.failures[1].error.message().contains("first cleanup failed"));
}

#[test]
fn disarm_skips_all_cleanup_actions() {
    let calls = Arc::new(Mutex::new(Vec::new()));
    let mut transaction: MountTransaction<Cleanup> = MountTransaction::new();
    transaction.register("first", record(&calls, "first", Ok(())));
    transaction.register("second", record(&calls, "second", Ok(())));

    transaction.disarm();

    assert!(calls.lock().unwrap().is_empty());
}

#[test]
fn commit_retains_only_explicitly_retainable_actions() {
    let calls = Arc::new(Mutex::new(Vec::new()));
    let mut transaction: MountTransaction<Cleanup> = MountTransaction::new();
    transaction.register_retainable("storage", record(&calls, "storage", Ok(())));
    transaction.register("magic_staging", record(&calls, "magic_staging", Ok(())));

    transaction.commit(true).unwrap();

    assert_eq!(*calls.lock().unwrap(), vec!["magic_staging"]);
}

#[test]
fn commit_without_retain_runs_retainable_actions_too() {
    let calls = Arc::new(Mutex::new(Vec::new()));
    let mut transaction: MountTransaction<Cleanup> = MountTransaction::new();
    transaction.register_retainable("storage", record(&calls, "storage", Ok(())));

    transaction.commit(false).unwrap();

    assert_eq!(*calls.lock().unwrap(), vec!["storage"]);
}

#[test]
fn commit_failure_reports_every_failed_action() {
    let mut transaction: MountTransaction<Cleanup> = MountTransaction::new();
    transaction.register("first", failing("first cleanup failed"));
    transaction.register("second", failing("second cleanup failed"));

    let message = transaction.commit(false).unwrap_err().message();

    assert!(message.contains("first: first cleanup failed"), "{message}");
    assert!(message.contains("second: second cleanup failed"), "{message}");
}

#[test]
fn rollback_runs_retainable_actions() {
    let calls = Arc::new(Mutex::new(Vec::new()));
    let mut transaction: MountTransaction<Cleanup> = MountTransaction::new();
    transaction.register_retainable("storage", record(&calls, "storage", Ok(())));

    let report = transaction.rollback();

    assert_eq!(*calls.lock().unwrap(), vec!["storage"]);
    assert_eq!(report.cleaned, 1);
    assert_eq!(report.retained, 0);
}

#[test]
fn drop_after_rollback_does_not_rerun_cleanup() {
    let count = Arc::new(AtomicUsize::new(0));
    let counter = Arc::clone(&count);
    let mut transaction: MountTransaction<Cleanup> = MountTransaction::new();
    transaction.register(
        "finished",
        Box::new(move || {
            counter.fetch_add(1, Ordering::SeqCst);
            Ok(())
        }),
    );

    let report = transaction.rollback();
    assert!(report.failures.is_empty());

    assert_eq!(count.load(Ordering::SeqCst), 1);
}

#[test]
fn drop_after_commit_does_not_rerun_cleanup() {
    let count = Arc::new(AtomicUsize::new(0));
    let counter = Arc::clone(&count);
    let mut transaction: MountTransaction<Cleanup> = MountTransaction::new();
    transaction.register(
        "finished",
        Box::new(move || {
            counter.fetch_add(1, Ordering::SeqCst);
            Ok(())
        }),
    );

    transaction.commit(false).unwrap();

    assert_eq!(count.load(Ordering::SeqCst), 1);
}

#[test]
fn commit_result_joins_failures_in_report_order() {
    let report = RollbackReport {
        cleaned: 0,
        retained: 1,
        failures: vec![
            CleanupFailure {
                label: "b".to_string(),
                error: Error::msg("two".to_string()),
            },
            CleanupFailure {
                label: "a".to_string(),
                error: Error::msg("one".to_string()),
            },
        ],
    };
    assert_eq!(
        commit_result(&report).unwrap_err().message(),
        "mount transaction commit failed: b: two; a: one"
    );
    let clean = RollbackReport {
        cleaned: 3,
        retained: 0,
        failures: Vec::new(),
    };
    assert!(commit_result(&clean).is_ok());
}

#[test]
fn retained_and_failed_cleanups_are_counted_once() {
    let mut transaction: MountTransaction<Cleanup> = MountTransaction::new();
    transaction.register_retainable("keep", failing("never runs"));
    transaction.register("fails", failing("broken"));
    transaction.register("works", Box::new(|| Ok(())));
    let message = transaction.commit(true).unwrap_err().message();
    assert_eq!(message, "mount transaction commit failed: fails: broken");
}
