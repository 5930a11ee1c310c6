//! Mount decisions: which `e2fsck` exit codes count as a repaired image, the
//! repair call itself, and the order in which a target is rolled back.
use vstd::prelude::*;

use crate::paths::views;
use crate::sys::mountinfo::{deeper_first, snapshot_below, MountSnapshot};
use crate::sys::process::{CaptureMode, CommandSpec, ExitPolicy};
use crate::text::{has_name, owned};

verus! {

/// Exit codes 0 to 3 mean the image is usable; 4 and above, and a signal, fail.
pub const E2FSCK_COMPATIBLE_EXIT_CODES: [i32; 4] = [0, 1, 2, 3];

/// Repairing a large image can take a while, but a boot wait stays bounded.
pub const E2FSCK_TIMEOUT_SECS: u64 = 300;

/// The `e2fsck -y -f <image>` call that repairs an ext4 image, capturing
/// both streams and accepting the compatible exit codes.
pub fn repair_spec(image_path: &str) -> (spec: CommandSpec)
    ensures
        spec.program@ == "e2fsck"@,
        spec.operation@ == "repair ext4 image"@,
        views(spec.args@) == seq!["-y"@, "-f"@, image_path@],
        spec.capture == CaptureMode::Both,
        spec.exit_policy matches ExitPolicy::Accepted(codes) && codes@ == E2FSCK_COMPATIBLE_EXIT_CODES@,
        spec.timeout == Some(crate::sys::process::duration_from_secs(E2FSCK_TIMEOUT_SECS)),
{
    let args = vec![owned("-y"), owned("-f"), owned(image_path)];
    let spec = CommandSpec::new("e2fsck").operation("repair ext4 image").args(args).capture(
        CaptureMode::Both,
    ).accepted_exit_codes(&E2FSCK_COMPATIBLE_EXIT_CODES).timeout(
        crate::sys::process::duration_secs(E2FSCK_TIMEOUT_SECS),
    );
    proof {
        reveal_strlit("e2fsck");
        reveal_strlit("-y");
        reveal_strlit("-f");
    }
    assert(views(spec.args@) =~= seq!["-y"@, "-f"@, image_path@]);
    spec
}

/// The mount points to unmount when rolling back `path`: every mount below
/// it, deepest first, then `path` itself.
pub fn rollback_order(snapshot: &MountSnapshot, path: &str) -> (r: Vec<String>)
    ensures
        r@.len() >= 1,
        r@.last()@ == path@,
        forall|i: int, j: int| 0 <= i < j < r@.len() - 1 ==> deeper_first(#[trigger] r@[i]@, #[trigger] r@[j]@),
        forall|x: Seq<char>| #[trigger] has_name(r@.drop_last(), x) <==> snapshot_below(snapshot@, x, path@),
{
    let mut targets = snapshot.descendants(path);
    let ghost below = targets@;
    targets.push(owned(path));
    assert(targets@.drop_last() =~= below);
    targets
}

} // verus!
