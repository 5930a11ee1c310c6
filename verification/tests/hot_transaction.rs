use std::collections::BTreeSet;

use hybrid_mount::errors::{Error, Result};
use hybrid_mount::runtime::ledger::Ledger;
use hybrid_mount::runtime::rules::{RuleKernel, SavedRule};
use hybrid_mount::runtime::transaction::{introduced_uids, merge_uids, reconcile, record_intent, verify_uids, UidKernel};

#[derive(Default)]
struct Kernel {
    rules: Vec<SavedRule>,
    uids: BTreeSet<u32>,
    fail_add_after: Option<usize>,
    ignore_add: bool,
    fail_remove: bool,
    fail_put: bool,
    fail_after_put: bool,
    fail_rule_delete: bool,
    uid_reads: usize,
    fail_uid_reads: BTreeSet<usize>,
    required_before_put: Vec<u32>,
}

fn failure() -> Error {
    Error::msg("injected device failure".to_string())
}

fn same_key(left: &SavedRule, right: &SavedRule) -> bool {
    left.uid == right.uid && left.virtual_path == right.virtual_path
}

impl UidKernel for Kernel {
    fn uids(&mut self) -> Result<Vec<u32>> {
        let read = self.uid_reads;
        self.uid_reads += 1;
        if self.fail_uid_reads.contains(&read) {
            return Err(failure());
        }
        Ok(self.uids.iter().copied().collect())
    }
    fn add_uids(&mut self, uids: &[u32]) -> Result<()> {
        for (index, uid) in uids.iter().enumerate() {
            if self.fail_add_after == Some(index) {
                return Err(failure());
            }
            if !self.ignore_add {
                self.uids.insert(*uid);
            }
        }
        Ok(())
    }
    fn remove_uids(&mut self, uids: &[u32]) -> Result<()> {
        if self.fail_remove {
            return Err(failure());
        }
        for uid in uids {
            self.uids.remove(uid);
        }
        Ok(())
    }
}

impl RuleKernel for Kernel {
    fn list(&mut self) -> Result<Vec<SavedRule>> {
        Ok(self.rules.clone())
    }
    fn put(&mut self, rules: &[SavedRule]) -> Result<()> {
        if self.fail_put || self.required_before_put.iter().any(|uid| !self.uids.contains(uid)) {
            return Err(failure());
        }
        for rule in rules {
            self.rules.retain(|old| !same_key(old, rule));
            self.rules.push(rule.clone());
        }
        if self.fail_after_put {
            return Err(failure());
        }
        Ok(())
    }
    fn delete(&mut self, rules: &[SavedRule]) -> Result<()> {
        if self.fail_rule_delete {
            return Err(failure());
        }
        self.rules.retain(|old| !rules.iter().any(|rule| same_key(old, rule)));
        Ok(())
    }
}

fn saved() -> Ledger {
    let mut ledger = Ledger::default();
    ledger.phase = "ready".into();
    ledger
}

fn rule() -> SavedRule {
    SavedRule {
        module_id: "demo".into(),
        virtual_path: "/system/etc/demo".into(),
        real_path: "/modules/demo/system/etc/demo".into(),
        flags: 0,
        uid: 0,
    }
}

#[test]
fn first_hot_load_isolates_before_rules_and_owns_only_new_uids() {
    let mut kernel = Kernel {
        uids: BTreeSet::from([1000, 2000]),
        required_before_put: vec![1001],
        ..Default::default()
    };
    let mut saved = saved();
    let mut journal = Vec::new();
    reconcile(&mut kernel, &mut saved, &[], &[rule()], &[1000, 1001, 1001], |ledger: &Ledger| {
        journal.push(ledger.clone());
        Ok(())
    })
    .unwrap();
    assert_eq!(kernel.uids, BTreeSet::from([1000, 1001, 2000]));
    assert_eq!(saved.isolated_uids, vec![1001]);
    assert_eq!(journal[0].phase, "applying");
    assert_eq!(journal[0].isolated_uids, vec![1001]);
    assert_eq!(saved.rules, vec![rule()]);
}

#[test]
fn adding_configured_isolation_keeps_existing_owned_uids() {
    let mut kernel = Kernel {
        uids: BTreeSet::from([1000, 2000]),
        ..Default::default()
    };
    let mut saved = saved();
    saved.isolated_uids = vec![1000];
    reconcile(&mut kernel, &mut saved, &[], &[rule()], &[1001], |_: &Ledger| Ok(())).unwrap();
    assert_eq!(saved.isolated_uids, vec![1000, 1001]);
    assert_eq!(kernel.uids, BTreeSet::from([1000, 1001, 2000]));
}

#[test]
fn partial_uid_failure_rolls_back_only_new_isolation() {
    let mut kernel = Kernel {
        uids: BTreeSet::from([1000, 2000]),
        fail_add_after: Some(1),
        ..Default::default()
    };
    let mut saved = saved();
    saved.isolated_uids = vec![1000];
    assert!(reconcile(&mut kernel, &mut saved, &[], &[rule()], &[1001, 1002], |_: &Ledger| Ok(())).is_err());
    assert_eq!(kernel.uids, BTreeSet::from([1000, 2000]));
    assert!(kernel.rules.is_empty());
    assert_eq!(saved.isolated_uids, vec![1000]);
    assert_eq!(saved.phase, "ready");
    assert!(saved.pending_rules.is_empty());
}

#[test]
fn uid_readback_detects_silently_ignored_addition() {
    let mut kernel = Kernel {
        ignore_add: true,
        ..Default::default()
    };
    let mut saved = saved();
    assert!(reconcile(&mut kernel, &mut saved, &[], &[rule()], &[1000], |_: &Ledger| Ok(())).is_err());
    assert!(kernel.rules.is_empty());
    assert_eq!(saved.phase, "ready");
}

#[test]
fn rule_failure_restores_uid_baseline() {
    let mut kernel = Kernel {
        uids: BTreeSet::from([2000]),
        fail_put: true,
        ..Default::default()
    };
    let mut saved = saved();
    assert!(reconcile(&mut kernel, &mut saved, &[], &[rule()], &[1000], |_: &Ledger| Ok(())).is_err());
    assert_eq!(kernel.uids, BTreeSet::from([2000]));
    assert!(saved.isolated_uids.is_empty());
    assert_eq!(saved.phase, "ready");
}

#[test]
fn failed_uid_rollback_keeps_error_phase_and_intent() {
    let mut kernel = Kernel {
        fail_put: true,
        fail_remove: true,
        ..Default::default()
    };
    let mut saved = saved();
    let mut journal = Vec::new();
    assert!(reconcile(&mut kernel, &mut saved, &[], &[rule()], &[1000], |ledger: &Ledger| {
        journal.push(ledger.clone());
        Ok(())
    })
    .is_err());
    assert_eq!(kernel.uids, BTreeSet::from([1000]));
    assert_eq!(saved.phase, "error");
    assert_eq!(saved.isolated_uids, vec![1000]);
    assert_eq!(journal.last().unwrap().phase, "error");
}

#[test]
fn journal_failure_prevents_all_kernel_mutation() {
    let mut kernel = Kernel::default();
    let mut saved = saved();
    assert!(reconcile(&mut kernel, &mut saved, &[], &[rule()], &[1000], |_: &Ledger| Err(failure())).is_err());
    assert!(kernel.rules.is_empty());
    assert!(kernel.uids.is_empty());
}

#[test]
fn final_uid_readback_failure_rolls_back_rules_and_isolation() {
    let mut kernel = Kernel {
        fail_uid_reads: BTreeSet::from([2]),
        ..Default::default()
    };
    let mut saved = saved();
    assert!(reconcile(&mut kernel, &mut saved, &[], &[rule()], &[1000], |_: &Ledger| Ok(())).is_err());
    assert!(kernel.rules.is_empty());
    assert!(kernel.uids.is_empty());
    assert_eq!(saved.phase, "ready");
    assert!(saved.isolated_uids.is_empty());
}

#[test]
fn unverified_uid_recovery_never_reports_ready() {
    let mut kernel = Kernel {
        fail_put: true,
        fail_uid_reads: BTreeSet::from([2]),
        ..Default::default()
    };
    let mut saved = saved();
    assert!(reconcile(&mut kernel, &mut saved, &[], &[rule()], &[1000], |_: &Ledger| Ok(())).is_err());
    assert_eq!(saved.phase, "error");
    assert_eq!(saved.isolated_uids, vec![1000]);
}

#[test]
fn incomplete_rule_rollback_retains_isolation_for_live_rules() {
    let mut kernel = Kernel {
        fail_after_put: true,
        fail_rule_delete: true,
        ..Default::default()
    };
    let mut saved = saved();
    assert!(reconcile(&mut kernel, &mut saved, &[], &[rule()], &[1000], |_: &Ledger| Ok(())).is_err());
    assert_eq!(kernel.rules, vec![rule()]);
    assert_eq!(kernel.uids, BTreeSet::from([1000]));
    assert_eq!(saved.phase, "error");
    assert_eq!(saved.isolated_uids, vec![1000]);
}

#[test]
fn missing_owned_isolation_blocks_mutation_before_journaling() {
    let mut kernel = Kernel::default();
    let mut saved = saved();
    saved.isolated_uids = vec![1000];
    let mut journal = Vec::new();
    assert!(reconcile(&mut kernel, &mut saved, &[], &[rule()], &[1001], |ledger: &Ledger| {
        journal.push(ledger.clone());
        Ok(())
    })
    .is_err());
    assert!(journal.is_empty());
    assert!(kernel.uids.is_empty());
    assert!(kernel.rules.is_empty());
}

#[test]
fn uid_sets_are_sorted_and_unique() {
    assert_eq!(introduced_uids(&[1002, 1000, 1002, 1001], &[1000]), vec![1001, 1002]);
    assert_eq!(merge_uids(&[1005, 1000], &[1001, 1000]), vec![1000, 1001, 1005]);
    assert!(verify_uids(&[1, 2, 3], &[3, 1]).is_ok());
    assert_eq!(
        verify_uids(&[1, 2], &[2, 7]).unwrap_err().message(),
        "VFS isolation UID missing: 7"
    );
}

#[test]
fn intent_owns_only_uids_the_kernel_did_not_report() {
    let mut ledger = saved();
    ledger.isolated_uids = vec![1000];
    let intent = record_intent(&mut ledger, &[], &[rule()], &[1000, 1001, 2000, 1001], &[1000, 2000]).unwrap();
    assert_eq!(intent.introduced, vec![1001]);
    assert_eq!(intent.expected, vec![1000, 2000, 1001]);
    assert_eq!(intent.original_owned, vec![1000]);
    assert_eq!(ledger.isolated_uids, vec![1000, 1001]);
    assert_eq!(ledger.phase, "applying");
    assert_eq!(ledger.pending_rules, vec![rule()]);
    assert!(ledger.rules.is_empty());
}

#[test]
fn intent_refuses_owned_uids_the_kernel_lost() {
    let mut ledger = saved();
    ledger.isolated_uids = vec![1000];
    assert!(record_intent(&mut ledger, &[], &[rule()], &[1001], &[2000]).is_err());
    assert_eq!(ledger.phase, "ready");
    assert_eq!(ledger.isolated_uids, vec![1000]);
}
