use std::cell::RefCell;

use hybrid_mount::errors::{Error, Result};
use hybrid_mount::runtime::ledger::OwnedMount;
use hybrid_mount::runtime::mounts::{capture_snapshot, cleanup_with, identities, preflight};
use hybrid_mount::sys::mountinfo::MountEntry;

fn mount(id: i32, target: &str) -> OwnedMount {
    OwnedMount {
        target: target.into(),
        id,
        device: "0:42".into(),
        fs_type: "overlay".into(),
        source: Some("overlay".into()),
        baseline_ids: vec![],
    }
}

#[derive(Default)]
struct Mounts {
    live: RefCell<Vec<OwnedMount>>,
    detached: RefCell<Vec<i32>>,
}

impl Mounts {
    fn new(live: Vec<OwnedMount>) -> Self {
        Self {
            live: RefCell::new(live),
            ..Self::default()
        }
    }
    fn list(&self) -> Result<Vec<OwnedMount>> {
        Ok(self.live.borrow().clone())
    }
    fn visible(&self, path: &str) -> Result<i32> {
        self.live
            .borrow()
            .iter()
            .rev()
            .find(|m| m.target == path)
            .map(|m| m.id)
            .ok_or_else(|| Error::msg("missing visible mount".to_owned()))
    }
    fn detach(&self, path: &str) -> Result<()> {
        let id = self.visible(path)?;
        self.live.borrow_mut().retain(|m| m.id != id);
        self.detached.borrow_mut().push(id);
        Ok(())
    }
    fn cleanup(&self, owned: &[OwnedMount]) -> Result<()> {
        cleanup_with(
            owned,
            || self.list(),
            |path: &str| self.visible(path),
            |path: &str| self.detach(path),
        )
    }
}

#[test]
fn capture_records_only_new_ids_at_exact_targets_including_overlay() {
    let old = mount(1, "/system");
    let live = vec![
        old.clone(),
        mount(2, "/system"),
        mount(3, "/system/etc"),
        mount(4, "/vendor"),
    ];
    let captured = capture_snapshot(&["/system".into()], &[old], &live).unwrap();
    let mut expected = mount(2, "/system");
    expected.baseline_ids = vec![1];
    assert_eq!(captured, vec![expected]);
}

#[test]
fn capture_refuses_reused_baseline_identity() {
    let old = mount(1, "/system");
    let mut changed = old.clone();
    changed.device = "1:2".into();
    assert!(capture_snapshot(&["/system".into()], &[old], &[changed]).is_err());
}

#[test]
fn cleanup_detaches_overlay_children_before_parents() {
    let owned = vec![mount(1, "/system"), mount(2, "/system/etc")];
    let fake = Mounts::new(owned.clone());
    fake.cleanup(&owned).unwrap();
    assert_eq!(*fake.detached.borrow(), vec![2, 1]);
}

#[test]
fn cleanup_refuses_changed_identity_before_any_detach() {
    for changed in [
        OwnedMount {
            id: 99,
            ..mount(1, "/system")
        },
        OwnedMount {
            device: "1:9".into(),
            ..mount(1, "/system")
        },
        OwnedMount {
            fs_type: "tmpfs".into(),
            ..mount(1, "/system")
        },
        OwnedMount {
            source: Some("foreign".into()),
            ..mount(1, "/system")
        },
        OwnedMount {
            target: "/vendor".into(),
            ..mount(1, "/system")
        },
    ] {
        let fake = Mounts::new(vec![changed]);
        assert!(fake.cleanup(&[mount(1, "/system")]).is_err());
        assert!(fake.detached.borrow().is_empty());
    }
}

#[test]
fn cleanup_refuses_foreign_stacked_mounts() {
    let owned = mount(1, "/system");
    let fake = Mounts::new(vec![owned.clone(), mount(2, "/system")]);
    assert!(fake.cleanup(&[owned]).is_err());
    assert!(fake.detached.borrow().is_empty());
}

#[test]
fn cleanup_preflights_all_roots_before_detaching_anything() {
    let owned = vec![mount(1, "/system"), mount(2, "/vendor/etc")];
    let fake = Mounts::new(vec![
        owned[0].clone(),
        owned[1].clone(),
        mount(3, "/system/foreign"),
    ]);
    assert!(fake.cleanup(&owned).is_err());
    assert!(fake.detached.borrow().is_empty());
}

#[test]
fn cleanup_does_not_treat_sibling_prefix_as_descendant() {
    let owned = mount(1, "/system");
    let fake = Mounts::new(vec![owned.clone(), mount(2, "/system_ext")]);
    fake.cleanup(&[owned]).unwrap();
    assert_eq!(*fake.live.borrow(), vec![mount(2, "/system_ext")]);
}

#[test]
fn cleanup_drains_owned_stack_but_preserves_baseline_mount() {
    let old = mount(1, "/system");
    let first = OwnedMount {
        baseline_ids: vec![1],
        ..mount(2, "/system")
    };
    let top = OwnedMount {
        baseline_ids: vec![1],
        ..mount(3, "/system")
    };
    let fake = Mounts::new(vec![old.clone(), first.clone(), top.clone()]);
    fake.cleanup(&[first, top]).unwrap();
    assert_eq!(*fake.live.borrow(), vec![old]);
    assert_eq!(*fake.detached.borrow(), vec![3, 2]);
}

#[test]
fn cleanup_retry_tolerates_absent_owned_ids_and_exposed_baseline() {
    let owned = OwnedMount {
        baseline_ids: vec![1],
        ..mount(2, "/system")
    };
    let fake = Mounts::new(vec![mount(1, "/system")]);
    fake.cleanup(&[owned.clone(), mount(3, "/vendor")]).unwrap();
    fake.cleanup(&[owned]).unwrap();
    assert!(fake.detached.borrow().is_empty());
}

#[test]
fn cleanup_never_detaches_baseline_covering_an_owned_mount() {
    let owned = OwnedMount {
        baseline_ids: vec![1],
        ..mount(2, "/system")
    };
    let fake = Mounts::new(vec![owned.clone(), mount(1, "/system")]);
    assert!(fake.cleanup(&[owned]).is_err());
    assert!(fake.detached.borrow().is_empty());
}

#[test]
fn cleanup_rejects_success_without_mount_disappearance() {
    let owned = mount(1, "/system");
    let fake = Mounts::new(vec![owned.clone()]);
    assert!(cleanup_with(
        &[owned],
        || fake.list(),
        |p: &str| fake.visible(p),
        |_p: &str| Ok(())
    )
    .is_err());
}

#[test]
fn cleanup_preserves_detach_error_and_allows_partial_retry() {
    let owned = vec![mount(1, "/system"), mount(2, "/system/etc")];
    let fake = Mounts::new(owned.clone());
    let error = cleanup_with(
        &owned,
        || fake.list(),
        |p: &str| fake.visible(p),
        |p: &str| {
            if p == "/system" {
                return Err(Error::msg("permission denied".to_owned()));
            }
            fake.detach(p)
        },
    )
    .unwrap_err();
    assert_eq!(error.message(), "permission denied");
    fake.cleanup(&owned).unwrap();
    assert_eq!(*fake.detached.borrow(), vec![2, 1]);
}

#[test]
fn cleanup_preserves_list_error_without_detach() {
    let detached = RefCell::new(Vec::<String>::new());
    let error = cleanup_with(
        &[mount(1, "/system")],
        || Err(Error::msg("read failure".to_owned())),
        |_p: &str| Ok(1),
        |p: &str| {
            detached.borrow_mut().push(p.into());
            Ok(())
        },
    )
    .unwrap_err();
    assert!(error.message().contains("read failure"));
    assert!(detached.borrow().is_empty());
}

#[test]
fn cleanup_stops_when_readback_discovers_a_new_foreign_descendant() {
    let owned = vec![mount(1, "/system"), mount(2, "/system/etc")];
    let fake = Mounts::new(owned.clone());
    let result = cleanup_with(
        &owned,
        || fake.list(),
        |path: &str| fake.visible(path),
        |path: &str| {
            fake.detach(path)?;
            fake.live.borrow_mut().push(mount(3, "/system/foreign"));
            Ok(())
        },
    );
    assert!(result.is_err());
    assert_eq!(*fake.detached.borrow(), vec![2]);
}

#[test]
fn cleanup_refuses_unreadable_visible_identity_without_detach() {
    let owned = mount(1, "/system");
    let fake = Mounts::new(vec![owned.clone()]);
    let error = cleanup_with(
        &[owned],
        || fake.list(),
        |_p: &str| Err(Error::msg("fdinfo unavailable".to_owned())),
        |path: &str| fake.detach(path),
    )
    .unwrap_err();
    assert!(error.message().contains("fdinfo unavailable"));
    assert!(fake.detached.borrow().is_empty());
}

#[test]
fn preflight_reports_the_first_failing_check() {
    let current = vec![mount(1, "/system"), mount(1, "/vendor")];
    assert_eq!(
        preflight(&[mount(1, "/system")], &current).unwrap_err().message(),
        "verify runtime mount ownership: /vendor: duplicate live mount ID"
    );
    assert_eq!(
        preflight(&[mount(0, "/system")], &[]).unwrap_err().message(),
        "verify runtime mount ownership: /system: invalid saved mount identity"
    );
    assert_eq!(
        preflight(&[mount(1, "system")], &[]).unwrap_err().message(),
        "verify runtime mount ownership: system: invalid saved mount identity"
    );
}

#[test]
fn preflight_orders_live_owned_mounts_deepest_first() {
    let owned = vec![mount(1, "/system"), mount(2, "/system/etc"), mount(3, "/vendor"), mount(4, "/odm")];
    let current = vec![mount(1, "/system"), mount(2, "/system/etc"), mount(3, "/vendor")];
    assert_eq!(preflight(&owned, &current).unwrap(), vec![1, 2, 0]);
}

#[test]
fn identities_copy_every_mount_table_field() {
    let entries = vec![MountEntry {
        mount_point: "/system".to_owned(),
        fs_type: "overlay".to_owned(),
        mount_source: Some("KSU".to_owned()),
        mnt_id: 7,
        majmin: "0:42".to_owned(),
        shared: None,
        master: None,
    }];
    let ids = identities(&entries);
    assert_eq!(
        ids,
        vec![OwnedMount {
            target: "/system".into(),
            id: 7,
            device: "0:42".into(),
            fs_type: "overlay".into(),
            source: Some("KSU".into()),
            baseline_ids: vec![],
        }]
    );
}
