//! Fault injection gates for mount pipeline failure paths.
//!
//! Every gate is one-shot: arming it makes exactly the next matching query
//! report a failure, after which it is disarmed again. The overlay switch may
//! first let a given number of mounts succeed.
use vstd::prelude::*;

verus! {

/// The set of armed failure gates.
#[derive(Debug, Default)]
pub struct FaultGates {
    pub overlay_mount_failure_armed: bool,
    pub overlay_mount_successes_before_failure: usize,
    pub fail_next_magic_mount: bool,
    pub fail_ksu_commit: bool,
    pub fail_state_save: bool,
    pub fail_mountinfo_read: bool,
    pub fail_next_unmount_ebusy: bool,
    pub fail_staging_remove: bool,
}

impl FaultGates {
    /// No gate is armed.
    pub open spec fn all_clear(&self) -> bool {
        &&& !self.overlay_mount_failure_armed
        &&& self.overlay_mount_successes_before_failure == 0
        &&& !self.fail_next_magic_mount
        &&& !self.fail_ksu_commit
        &&& !self.fail_state_save
        &&& !self.fail_mountinfo_read
        &&& !self.fail_next_unmount_ebusy
        &&& !self.fail_staging_remove
    }

    /// Gates with nothing armed.
    pub fn new() -> (gates: FaultGates)
        ensures
            gates.all_clear(),
    {
        FaultGates {
            overlay_mount_failure_armed: false,
            overlay_mount_successes_before_failure: 0,
            fail_next_magic_mount: false,
            fail_ksu_commit: false,
            fail_state_save: false,
            fail_mountinfo_read: false,
            fail_next_unmount_ebusy: false,
            fail_staging_remove: false,
        }
    }

    /// Whether the next overlay mount must fail; disarms itself when it fires
    /// and counts down the successes allowed before it.
    pub fn should_fail_next_overlay_mount(&mut self) -> (fail: bool)
        ensures
            (fail, *final(self)) == overlay_step(*old(self)),
    {
        if !self.overlay_mount_failure_armed {
            return false;
        }
        let remaining = self.overlay_mount_successes_before_failure;
        if remaining > 0 {
            self.overlay_mount_successes_before_failure = remaining - 1;
            return false;
        }
        self.overlay_mount_failure_armed = false;
        true
    }

    /// Whether the next magic mount must fail; disarms itself.
    pub fn should_fail_next_magic_mount(&mut self) -> (fail: bool)
        ensures
            fail == old(self).fail_next_magic_mount,
            *final(self) == (FaultGates { fail_next_magic_mount: false, ..*old(self) }),
    {
        let fail = self.fail_next_magic_mount;
        self.fail_next_magic_mount = false;
        fail
    }

    /// Whether the KernelSU commit must fail; disarms itself.
    pub fn should_fail_ksu_commit(&mut self) -> (fail: bool)
        ensures
            fail == old(self).fail_ksu_commit,
            *final(self) == (FaultGates { fail_ksu_commit: false, ..*old(self) }),
    {
        let fail = self.fail_ksu_commit;
        self.fail_ksu_commit = false;
        fail
    }

    /// Whether the state save must fail; disarms itself.
    pub fn should_fail_state_save(&mut self) -> (fail: bool)
        ensures
            fail == old(self).fail_state_save,
            *final(self) == (FaultGates { fail_state_save: false, ..*old(self) }),
    {
        let fail = self.fail_state_save;
        self.fail_state_save = false;
        fail
    }

    /// Whether the mountinfo read must fail; disarms itself.
    pub fn should_fail_mountinfo_read(&mut self) -> (fail: bool)
        ensures
            fail == old(self).fail_mountinfo_read,
            *final(self) == (FaultGates { fail_mountinfo_read: false, ..*old(self) }),
    {
        let fail = self.fail_mountinfo_read;
        self.fail_mountinfo_read = false;
        fail
    }

    /// Whether the next unmount must report EBUSY; disarms itself.
    pub fn should_fail_next_unmount_ebusy(&mut self) -> (fail: bool)
        ensures
            fail == old(self).fail_next_unmount_ebusy,
            *final(self) == (FaultGates { fail_next_unmount_ebusy: false, ..*old(self) }),
    {
        let fail = self.fail_next_unmount_ebusy;
        self.fail_next_unmount_ebusy = false;
        fail
    }

    /// Whether removing the staging directory must fail; disarms itself.
    pub fn should_fail_staging_remove(&mut self) -> (fail: bool)
        ensures
            fail == old(self).fail_staging_remove,
            *final(self) == (FaultGates { fail_staging_remove: false, ..*old(self) }),
    {
        let fail = self.fail_staging_remove;
        self.fail_staging_remove = false;
        fail
    }

    /// Arms the overlay gate for the very next mount.
    pub fn enable_next_overlay_mount_failure(&mut self)
        ensures
            *final(self) == (FaultGates {
                overlay_mount_failure_armed: true,
                overlay_mount_successes_before_failure: 0,
                ..*old(self)
            }),
    {
        self.enable_overlay_mount_failure_after(0);
    }

    /// Arms the overlay gate after `successes` successful mounts.
    pub fn enable_overlay_mount_failure_after(&mut self, successes: usize)
        ensures
            *final(self) == (FaultGates {
                overlay_mount_failure_armed: true,
                overlay_mount_successes_before_failure: successes,
                ..*old(self)
            }),
    {
        self.overlay_mount_successes_before_failure = successes;
        self.overlay_mount_failure_armed = true;
    }

    /// Arms the magic mount gate.
    pub fn enable_next_magic_mount_failure(&mut self)
        ensures
            *final(self) == (FaultGates { fail_next_magic_mount: true, ..*old(self) }),
    {
        self.fail_next_magic_mount = true;
    }

    /// Arms the KernelSU commit gate.
    pub fn enable_ksu_commit_failure(&mut self)
        ensures
            *final(self) == (FaultGates { fail_ksu_commit: true, ..*old(self) }),
    {
        self.fail_ksu_commit = true;
    }

    /// Arms the state save gate.
    pub fn enable_state_save_failure(&mut self)
        ensures
            *final(self) == (FaultGates { fail_state_save: true, ..*old(self) }),
    {
        self.fail_state_save = true;
    }

    /// Arms the mountinfo read gate.
    pub fn enable_mountinfo_read_failure(&mut self)
        ensures
            *final(self) == (FaultGates { fail_mountinfo_read: true, ..*old(self) }),
    {
        self.fail_mountinfo_read = true;
    }

    /// Arms the unmount EBUSY gate.
    pub fn enable_next_unmount_ebusy_failure(&mut self)
        ensures
            *final(self) == (FaultGates { fail_next_unmount_ebusy: true, ..*old(self) }),
    {
        self.fail_next_unmount_ebusy = true;
    }

    /// Arms the staging removal gate.
    pub fn enable_staging_remove_failure(&mut self)
        ensures
            *final(self) == (FaultGates { fail_staging_remove: true, ..*old(self) }),
    {
        self.fail_staging_remove = true;
    }

    /// Clears every gate.
    pub fn reset(&mut self)
        ensures
            final(self).all_clear(),
    {
        self.overlay_mount_failure_armed = false;
        self.overlay_mount_successes_before_failure = 0;
        self.fail_next_magic_mount = false;
        self.fail_ksu_commit = false;
        self.fail_state_save = false;
        self.fail_mountinfo_read = false;
        self.fail_next_unmount_ebusy = false;
        self.fail_staging_remove = false;
    }
}

/// One overlay-mount query: its answer and the gates afterwards.
pub open spec fn overlay_step(g: FaultGates) -> (bool, FaultGates) {
    if !g.overlay_mount_failure_armed {
        (false, g)
    } else if g.overlay_mount_successes_before_failure > 0 {
        (
            false,
            FaultGates {
                overlay_mount_successes_before_failure: (g.overlay_mount_successes_before_failure
                    - 1) as usize,
                ..g
            },
        )
    } else {
        (true, FaultGates { overlay_mount_failure_armed: false, ..g })
    }
}

/// The answers of `k` consecutive overlay-mount queries starting from `g`.
pub open spec fn overlay_answers(g: FaultGates, k: nat) -> Seq<bool>
    decreases k,
{
    if k == 0 {
        seq![]
    } else {
        seq![overlay_step(g).0] + overlay_answers(overlay_step(g).1, (k - 1) as nat)
    }
}

/// An overlay gate armed after `n` successes answers "succeed" to exactly the
/// next `n` queries, "fail" to the one after, and "succeed" from then on.
pub proof fn overlay_gate_fires_once_after_successes(g: FaultGates, n: usize, extra: nat)
    requires
        g.overlay_mount_failure_armed,
        g.overlay_mount_successes_before_failure == n,
    ensures
        overlay_answers(g, (n + 1 + extra) as nat) == Seq::new(n as nat, |i: int| false) + seq![true]
            + Seq::new(extra, |i: int| false),
    decreases n,
{
    if n == 0 {
        let after = overlay_step(g).1;
        assert(!after.overlay_mount_failure_armed);
        lemma_disarmed_answers(after, extra);
        assert(overlay_answers(g, 1 + extra) =~= seq![true] + overlay_answers(after, extra));
        assert(Seq::new(0, |i: int| false) + seq![true] + Seq::new(extra, |i: int| false)
            =~= seq![true] + Seq::new(extra, |i: int| false));
    } else {
        let next = overlay_step(g).1;
        overlay_gate_fires_once_after_successes(next, (n - 1) as usize, extra);
        assert(overlay_answers(g, (n + 1 + extra) as nat) =~= seq![false] + overlay_answers(
            next,
            ((n - 1) as nat + 1 + extra) as nat,
        ));
        assert(Seq::new(n as nat, |i: int| false) =~= seq![false] + Seq::new(
            (n - 1) as nat,
            |i: int| false,
        ));
        assert(Seq::new(n as nat, |i: int| false) + seq![true] + Seq::new(extra, |i: int| false)
            =~= seq![false] + (Seq::new((n - 1) as nat, |i: int| false) + seq![true] + Seq::new(
            extra,
            |i: int| false,
        )));
    }
}

proof fn lemma_disarmed_answers(g: FaultGates, k: nat)
    requires
        !g.overlay_mount_failure_armed,
    ensures
        overlay_answers(g, k) == Seq::new(k, |i: int| false),
    decreases k,
{
    if k > 0 {
        lemma_disarmed_answers(g, (k - 1) as nat);
        assert(overlay_answers(g, k) =~= Seq::new(k, |i: int| false));
    } else {
        assert(overlay_answers(g, k) =~= Seq::new(k, |i: int| false));
    }
}

} // verus!
