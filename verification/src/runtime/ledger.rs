//! The boot-scoped ownership ledger.
//!
//! The ledger records which mounts, KernelSU unmount registrations, VFS rules
//! and isolation uids this runtime owns, for one boot and one mount namespace.
//! Ownership is never inferred: a ledger from another boot is replaced by a
//! fresh one, and a ledger from the same boot must match the namespace, the
//! schema version and a known lifecycle phase.
use vstd::prelude::*;

use crate::errors::{Error, Result};
use crate::runtime::rules::SavedRule;
use crate::state::AppModule;
use crate::text::{append_str, owned, str_eq};

verus! {

/// A mount this runtime created, identified by its mount id.
#[derive(Debug, Clone, PartialEq, Eq)]
pub struct OwnedMount {
    pub target: String,
    pub id: i32,
    pub baseline_ids: Vec<i32>,
    pub device: String,
    pub fs_type: String,
    pub source: Option<String>,
}

impl Default for OwnedMount {
    fn default() -> (m: OwnedMount)
        ensures
            m.target@.len() == 0,
            m.id == 0,
            m.baseline_ids@.len() == 0,
            m.device@.len() == 0,
            m.fs_type@.len() == 0,
            m.source is None,
    {
        OwnedMount {
            target: String::new(),
            id: 0,
            baseline_ids: Vec::new(),
            device: String::new(),
            fs_type: String::new(),
            source: None,
        }
    }
}

/// Versioned, boot-scoped ownership.
#[derive(Debug, Clone)]
pub struct Ledger {
    pub version: u32,
    pub boot_id: String,
    pub namespace: String,
    pub generation: u64,
    pub phase: String,
    pub rules: Vec<SavedRule>,
    pub pending_rules: Vec<SavedRule>,
    pub mounts: Vec<OwnedMount>,
    /// `None` marks a session from before registrations were recorded; its
    /// KernelSU ownership is never guessed.
    pub ksu_unmounts: Option<Vec<String>>,
    /// Modules with Magic Mount or OverlayFS ownership, ordered and unique.
    pub non_vfs_modules: Vec<String>,
    pub modules: Vec<AppModule>,
    pub isolated_uids: Vec<u32>,
    pub error: Option<String>,
}

impl Default for Ledger {
    fn default() -> (ledger: Ledger)
        ensures
            ledger.is_empty_record(),
            ledger.version == 0,
            ledger.boot_id@.len() == 0,
            ledger.namespace@.len() == 0,
            ledger.generation == 0,
            ledger.phase@.len() == 0,
    {
        Ledger {
            version: 0,
            boot_id: String::new(),
            namespace: String::new(),
            generation: 0,
            phase: String::new(),
            rules: Vec::new(),
            pending_rules: Vec::new(),
            mounts: Vec::new(),
            ksu_unmounts: None,
            non_vfs_modules: Vec::new(),
            modules: Vec::new(),
            isolated_uids: Vec::new(),
            error: None,
        }
    }
}

/// The lifecycle phases a ledger may be in.
pub open spec fn valid_phase(phase: Seq<char>) -> bool {
    phase == "clean"@ || phase == "applying"@ || phase == "ready"@ || phase == "syncing"@
        || phase == "cleaning"@ || phase == "error"@
}

impl Ledger {
    /// Owns nothing and records no error.
    pub open spec fn is_empty_record(&self) -> bool {
        &&& self.rules@.len() == 0
        &&& self.pending_rules@.len() == 0
        &&& self.mounts@.len() == 0
        &&& self.non_vfs_modules@.len() == 0
        &&& self.modules@.len() == 0
        &&& self.isolated_uids@.len() == 0
        &&& self.error is None
        &&& self.ksu_unmounts is None
    }

    /// Clean: phase `clean` and no owned rule, pending rule, mount, isolation
    /// uid or KernelSU registration.
    pub open spec fn spec_is_clean(&self) -> bool {
        &&& self.phase@ == "clean"@
        &&& self.pending_rules@.len() == 0
        &&& self.rules@.len() == 0
        &&& self.mounts@.len() == 0
        &&& self.isolated_uids@.len() == 0
        &&& match self.ksu_unmounts {
            Some(paths) => paths@.len() == 0,
            None => true,
        }
    }

    /// Fails unless the runtime owns nothing and may be rebuilt.
    pub fn require_clean(&self) -> (r: Result<()>)
        ensures
            r is Ok <==> self.spec_is_clean(),
    {
        let registrations_pending = match &self.ksu_unmounts {
            Some(paths) => paths.len() > 0,
            None => false,
        };
        if !str_eq(self.phase.as_str(), "clean") || self.pending_rules.len() > 0
            || self.rules.len() > 0 || self.mounts.len() > 0 || self.isolated_uids.len() > 0
            || registrations_pending {
            return Err(
                Error::msg(
                    owned(
                        "runtime resources already exist or need recovery; run soft-reboot cleanup before rebuilding",
                    ),
                ),
            );
        }
        Ok(())
    }

    /// Fails unless the runtime is `ready` for hot operations.
    pub fn require_ready(&self) -> (r: Result<()>)
        ensures
            r is Ok <==> self.phase@ == "ready"@,
    {
        if !str_eq(self.phase.as_str(), "ready") {
            let mut message = owned("runtime is ");
            append_str(&mut message, self.phase.as_str());
            append_str(&mut message, "; complete recovery before hot operations");
            return Err(Error::msg(message));
        }
        Ok(())
    }

    /// The KernelSU unmount registrations this runtime owns. A legacy ledger
    /// without registration records owns none only when it owns no mount.
    pub fn owned_unmounts(&self) -> (r: Result<&[String]>)
        ensures
            match self.ksu_unmounts {
                Some(paths) => r matches Ok(s) && s@ == paths@,
                None => if self.mounts@.len() == 0 {
                    r matches Ok(s) && s@.len() == 0
                } else {
                    r is Err
                },
            },
    {
        match &self.ksu_unmounts {
            Some(paths) => Ok(paths.as_slice()),
            None => {
                if self.mounts.len() == 0 {
                    Ok(self.isolated_uids_empty_strings())
                } else {
                    Err(
                        Error::msg(
                            owned(
                                "legacy runtime has no KernelSU registration ownership; full reboot required",
                            ),
                        ),
                    )
                }
            },
        }
    }

    fn isolated_uids_empty_strings(&self) -> (r: &[String])
        ensures
            r@.len() == 0,
    {
        let empty: &[String] = &[];
        empty
    }

    /// Detaches the owned mounts, then releases the owned registrations.
    /// Ownership is dropped only when both steps succeed; on any failure the
    /// ledger keeps both identities so a later cleanup can retry safely.
    pub fn release_mount_resources<D, R>(&mut self, detach: D, release: R) -> (r: Result<()>)
        where
            D: FnOnce(&[OwnedMount]) -> Result<()>,
            R: FnOnce(&[String]) -> Result<()>,
        requires
            forall|m: &[OwnedMount]| detach.requires((m,)),
            forall|s: &[String]| release.requires((s,)),
        ensures
            r is Ok ==> *final(self) == (Ledger {
                mounts: final(self).mounts,
                ksu_unmounts: final(self).ksu_unmounts,
                ..*old(self)
            }),
            r is Ok ==> final(self).mounts@.len() == 0,
            r is Ok ==> (final(self).ksu_unmounts matches Some(p) && p@.len() == 0),
            r is Err ==> *final(self) == *old(self),
            old(self).ksu_unmounts is None && old(self).mounts@.len() > 0 ==> r is Err,
            !(old(self).ksu_unmounts is None && old(self).mounts@.len() > 0) ==> exists|m: &[OwnedMount], detached: Result<()>| {
                &&& m@ == old(self).mounts@
                &&& #[trigger] detach.ensures((m,), detached)
                &&& (detached is Err ==> r is Err)
                &&& (detached is Ok ==> exists|s: &[String], released: Result<()>| {
                    &&& s@ == (match old(self).ksu_unmounts { Some(p) => p@, None => Seq::<String>::empty() })
                    &&& #[trigger] release.ensures((s,), released)
                    &&& (released is Ok <==> r is Ok)
                })
            },
    {
        let registrations = self.owned_unmounts()?;
        let owned_mounts = self.mounts.as_slice();
        let detached = detach(owned_mounts);
        assert(detach.ensures((owned_mounts,), detached));
        detached?;
        let released = release(registrations);
        assert(release.ensures((registrations,), released));
        assert(registrations@ == (match old(self).ksu_unmounts { Some(p) => p@, None => Seq::<String>::empty() }));
        released?;
        self.mounts.clear();
        self.ksu_unmounts = Some(Vec::new());
        Ok(())
    }
}

/// The ledger to use this boot: the saved one when it belongs to `boot_id`
/// (and then it must match `namespace`, schema version 1 and a valid phase),
/// otherwise a fresh clean ledger.
pub open spec fn spec_ledger_for_boot_ok(saved: Option<Ledger>, boot_id: Seq<char>, namespace: Seq<
    char,
>) -> bool {
    match saved {
        Some(s) => s.boot_id@ != boot_id || (s.namespace@ == namespace && s.version == 1
            && valid_phase(s.phase@)),
        None => true,
    }
}

/// Picks the ledger for this boot; a ledger from another boot never carries
/// its mount identities over.
pub fn ledger_for_boot(saved: Option<Ledger>, boot_id: &str, namespace: &str) -> (r: Result<Ledger>)
    ensures
        r is Ok <==> spec_ledger_for_boot_ok(saved, boot_id@, namespace@),
        r matches Ok(l) ==> match saved {
            Some(s) if s.boot_id@ == boot_id@ => l == s,
            _ => {
                &&& l.version == 1
                &&& l.boot_id@ == boot_id@
                &&& l.namespace@ == namespace@
                &&& l.generation == 0
                &&& l.phase@ == "clean"@
                &&& l.ksu_unmounts matches Some(p) && p@.len() == 0
                &&& l.rules@.len() == 0
                &&& l.pending_rules@.len() == 0
                &&& l.mounts@.len() == 0
                &&& l.non_vfs_modules@.len() == 0
                &&& l.modules@.len() == 0
                &&& l.isolated_uids@.len() == 0
                &&& l.error is None
            },
        },
{
    if let Some(saved) = saved {
        if str_eq(saved.boot_id.as_str(), boot_id) {
            if !str_eq(saved.namespace.as_str(), namespace) {
                return Err(
                    Error::msg(
                        owned("runtime mount namespace changed; refusing to reuse mount identities"),
                    ),
                );
            }
            if saved.version != 1 {
                return Err(Error::msg(owned("unsupported runtime ledger version")));
            }
            let p = saved.phase.as_str();
            if !(str_eq(p, "clean") || str_eq(p, "applying") || str_eq(p, "ready") || str_eq(
                p,
                "syncing",
            ) || str_eq(p, "cleaning") || str_eq(p, "error")) {
                return Err(Error::msg(owned("invalid runtime lifecycle phase")));
            }
            return Ok(saved);
        }
    }
    Ok(
        Ledger {
            version: 1,
            boot_id: owned(boot_id),
            namespace: owned(namespace),
            generation: 0,
            phase: owned("clean"),
            rules: Vec::new(),
            pending_rules: Vec::new(),
            mounts: Vec::new(),
            ksu_unmounts: Some(Vec::new()),
            non_vfs_modules: Vec::new(),
            modules: Vec::new(),
            isolated_uids: Vec::new(),
            error: None,
        },
    )
}

} // verus!
