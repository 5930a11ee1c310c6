//! Loading decisions for the prebuilt kernel modules the project ships.
//!
//! Every loader candidate is tried in order; the exit status of `insmod` is
//! never authoritative, only the caller's acceptance probe is.
use vstd::prelude::*;

use crate::paths::views;
use crate::sys::process::{CaptureMode, CommandOutcome, CommandSpec};
use crate::text::{append_str, owned};

verus! {

/// Whether a prebuilt module can be loaded on this architecture: every
/// bundled module is aarch64-only.
pub fn bundled_lkm_arch_supported(arch: &str) -> (r: bool)
    ensures
        r == (arch@ == "aarch64"@),
{
    crate::text::str_eq(arch, "aarch64")
}

/// The `insmod` entry points, tried in this order; the optional applet
/// precedes the module path and parameters.
pub fn insmod_candidates() -> (r: Vec<(&'static str, Option<&'static str>)>)
    ensures
        r@.len() == 6,
{
    vec![
        ("/data/adb/ksud", Some("insmod")),
        ("/data/adb/modules/hybrid_mount/hybrid-mount", Some("lkm-load")),
        ("/system/bin/insmod", None),
        ("/data/adb/ap/bin/busybox", Some("insmod")),
        ("/data/adb/ksu/bin/busybox", Some("insmod")),
        ("insmod", None),
    ]
}

/// The `rmmod` entry points, same convention as [`insmod_candidates`].
pub fn rmmod_candidates() -> (r: Vec<(&'static str, Option<&'static str>)>)
    ensures
        r@.len() == 4,
{
    vec![
        ("/system/bin/rmmod", None),
        ("/data/adb/ap/bin/busybox", Some("rmmod")),
        ("/data/adb/ksu/bin/busybox", Some("rmmod")),
        ("rmmod", None),
    ]
}

/// What one attempted load reported, for the caller's error message.
#[derive(Debug)]
pub struct InsmodAttempt {
    pub program: &'static str,
    pub status: String,
    pub stderr: String,
}

/// The optional applet as a one-element prefix.
pub open spec fn applet_prefix(applet: Option<&str>) -> Seq<Seq<char>> {
    match applet {
        Some(a) => seq![a@],
        None => Seq::empty(),
    }
}

/// Optional applet, then the module path, then the module parameters.
pub fn insmod_args(applet: Option<&str>, lkm_path: &str, params: &[String]) -> (r: Vec<String>)
    ensures
        views(r@) == applet_prefix(applet) + seq![lkm_path@] + views(params@),
{
    let mut args: Vec<String> = Vec::new();
    if let Some(applet) = applet {
        args.push(owned(applet));
    }
    args.push(owned(lkm_path));
    let ghost head = views(args@);
    assert(head =~= applet_prefix(applet) + seq![lkm_path@]);
    let mut i: usize = 0;
    while i < params.len()
        invariant
            0 <= i <= params@.len(),
            views(args@) == head + views(params@.subrange(0, i as int)),
        decreases params@.len() - i,
    {
        let ghost before = args@;
        args.push(owned(params[i].as_str()));
        assert(views(args@) =~= views(before).push(params@[i as int]@));
        assert(views(params@.subrange(0, i + 1)) =~= views(params@.subrange(0, i as int)).push(params@[i as int]@));
        assert(views(args@) =~= head + views(params@.subrange(0, i + 1)));
        i = i + 1;
    }
    assert(params@.subrange(0, params@.len() as int) =~= params@);
    args
}

/// Optional applet, then the module name.
pub fn rmmod_args(applet: Option<&str>, module_name: &str) -> (r: Vec<String>)
    ensures
        views(r@) == applet_prefix(applet) + seq![module_name@],
{
    let mut args: Vec<String> = Vec::new();
    if let Some(applet) = applet {
        args.push(owned(applet));
    }
    args.push(owned(module_name));
    assert(views(args@) =~= applet_prefix(applet) + seq![module_name@]);
    args
}

/// `program: status=<status>, stderr=<stderr>`.
pub open spec fn attempt_text(a: InsmodAttempt) -> Seq<char> {
    a.program@ + ": status="@ + a.status@ + ", stderr="@ + a.stderr@
}

/// The attempts' texts joined by `; `.
pub open spec fn attempts_text(attempts: Seq<InsmodAttempt>) -> Seq<char>
    decreases attempts.len(),
{
    if attempts.len() == 0 {
        Seq::empty()
    } else if attempts.len() == 1 {
        attempt_text(attempts[0])
    } else {
        attempts_text(attempts.drop_last()) + "; "@ + attempt_text(attempts.last())
    }
}

/// Renders the failed attempts for an error message.
pub fn describe_attempts(attempts: &[InsmodAttempt]) -> (r: String)
    ensures
        attempts@.len() == 0 ==> r@ == "no insmod candidate produced output"@,
        attempts@.len() > 0 ==> r@ == attempts_text(attempts@),
{
    if attempts.len() == 0 {
        return owned("no insmod candidate produced output");
    }
    let mut text = String::new();
    let mut i: usize = 0;
    while i < attempts.len()
        invariant
            0 < attempts@.len(),
            0 <= i <= attempts@.len(),
            i == 0 ==> text@ == Seq::<char>::empty(),
            i > 0 ==> text@ == attempts_text(attempts@.subrange(0, i as int)),
        decreases attempts@.len() - i,
    {
        let a = &attempts[i];
        proof {
            let pre = attempts@.subrange(0, i + 1);
            assert(pre.drop_last() =~= attempts@.subrange(0, i as int));
            assert(pre.last() == attempts@[i as int]);
            if i == 0 {
                assert(pre[0] == attempts@[0]);
            }
        }
        if i > 0 {
            append_str(&mut text, "; ");
        }
        append_str(&mut text, a.program);
        append_str(&mut text, ": status=");
        append_str(&mut text, a.status.as_str());
        append_str(&mut text, ", stderr=");
        append_str(&mut text, a.stderr.as_str());
        proof {
            if i == 0 {
                assert(text@ =~= attempt_text(attempts@[0]));
            }
        }
        i = i + 1;
    }
    assert(attempts@.subrange(0, attempts@.len() as int) =~= attempts@);
    text
}

/// The call that loads a module through one candidate.
pub fn load_spec(
    program: &'static str,
    applet: Option<&'static str>,
    lkm_path: &str,
    operation: &'static str,
    params: &[String],
    timeout: std::time::Duration,
) -> (spec: CommandSpec)
    ensures
        spec.program@ == program@,
        spec.operation == operation,
        views(spec.args@) == applet_prefix(applet) + seq![lkm_path@] + views(params@),
        spec.capture == CaptureMode::Stderr,
        spec.exit_policy == crate::sys::process::ExitPolicy::Any,
        spec.timeout == Some(timeout),
{
    CommandSpec::new(program).operation(operation).args(insmod_args(applet, lkm_path, params)).capture(
        CaptureMode::Stderr,
    ).any_exit_status().timeout(timeout)
}

/// `spec` is the call that loads `lkm_path` through `candidate`.
pub open spec fn is_load_spec(
    spec: CommandSpec,
    candidate: (&'static str, Option<&'static str>),
    lkm_path: Seq<char>,
    operation: &'static str,
    params: Seq<String>,
    timeout: std::time::Duration,
) -> bool {
    &&& spec.program@ == candidate.0@
    &&& spec.operation == operation
    &&& views(spec.args@) == applet_prefix(candidate.1) + seq![lkm_path] + views(params)
    &&& spec.capture == CaptureMode::Stderr
    &&& spec.exit_policy == crate::sys::process::ExitPolicy::Any
    &&& spec.timeout == Some(timeout)
}

/// What one failed candidate reports: a call that could not run is
/// `not runnable` with its error; a call that ran without the effect being
/// confirmed reports its exit status and its trimmed standard error.
pub open spec fn attempt_explained<R, A>(
    run: R,
    accepted: A,
    attempt: InsmodAttempt,
    candidate: (&'static str, Option<&'static str>),
    lkm_path: Seq<char>,
    operation: &'static str,
    params: Seq<String>,
    timeout: std::time::Duration,
) -> bool
    where
        R: FnMut(&CommandSpec) -> Result<CommandOutcome, String>,
        A: FnMut() -> bool,
{
    &&& attempt.program == candidate.0
    &&& exists|spec: CommandSpec|
        #![trigger is_load_spec(spec, candidate, lkm_path, operation, params, timeout)]
        {
            &&& is_load_spec(spec, candidate, lkm_path, operation, params, timeout)
            &&& {
                ||| (attempt.status@ == "not runnable"@ && run.ensures((&spec,), Err::<CommandOutcome, String>(attempt.stderr)))
                ||| exists|outcome: CommandOutcome|
                    #![trigger run.ensures((&spec,), Ok::<CommandOutcome, String>(outcome))]
                    {
                        &&& run.ensures((&spec,), Ok::<CommandOutcome, String>(outcome))
                        &&& accepted.ensures((), false)
                        &&& attempt.status@ == outcome.status.spec_describe()
                    }
            }
        }
}

/// Tries each loader candidate in order until `accepted` confirms the
/// module's effect. `run` performs one call and hands back its outcome or
/// its rendered error. Every candidate that ran without the effect being
/// confirmed is reported, in order.
pub fn load_with_candidates<R, A>(
    candidates: &[(&'static str, Option<&'static str>)],
    lkm_path: &str,
    operation: &'static str,
    params: &[String],
    timeout: std::time::Duration,
    run: R,
    accepted: A,
) -> (r: Result<(), Vec<InsmodAttempt>>)
    where
        R: FnMut(&CommandSpec) -> Result<CommandOutcome, String>,
        A: FnMut() -> bool,
    requires
        forall|s: &CommandSpec| run.requires((s,)),
        accepted.requires(()),
    ensures
        r matches Err(attempts) ==> attempts@.len() == candidates@.len() && forall|i: int|
            0 <= i < attempts@.len() ==> #[trigger] attempt_explained(
                run,
                accepted,
                attempts@[i],
                candidates@[i],
                lkm_path@,
                operation,
                params@,
                timeout,
            ),
        r is Ok ==> exists|i: int, spec: CommandSpec, outcome: CommandOutcome, earlier: Seq<InsmodAttempt>|
            #![trigger is_load_spec(spec, candidates@[i], lkm_path@, operation, params@, timeout), run.ensures((&spec,), Ok::<CommandOutcome, String>(outcome)), earlier.len()]
            {
                &&& 0 <= i < candidates@.len()
                &&& is_load_spec(spec, candidates@[i], lkm_path@, operation, params@, timeout)
                &&& run.ensures((&spec,), Ok::<CommandOutcome, String>(outcome))
                &&& accepted.ensures((), true)
                &&& earlier.len() == i
                &&& forall|j: int| 0 <= j < i ==> #[trigger] attempt_explained(
                    run,
                    accepted,
                    earlier[j],
                    candidates@[j],
                    lkm_path@,
                    operation,
                    params@,
                    timeout,
                )
            },
        candidates@.len() == 0 ==> r is Err,
{
    let mut runner = run;
    let mut probe = accepted;
    let mut attempts: Vec<InsmodAttempt> = Vec::new();
    let mut i: usize = 0;
    while i < candidates.len()
        invariant
            0 <= i <= candidates@.len(),
            attempts@.len() == i,
            runner == run,
            probe == accepted,
            forall|k: int| 0 <= k < i ==> #[trigger] attempt_explained(
                run,
                accepted,
                attempts@[k],
                candidates@[k],
                lkm_path@,
                operation,
                params@,
                timeout,
            ),
            forall|s: &CommandSpec| runner.requires((s,)),
            probe.requires(()),
        decreases candidates@.len() - i,
    {
        let (program, applet) = candidates[i];
        let spec = load_spec(program, applet, lkm_path, operation, params, timeout);
        assert(is_load_spec(spec, candidates@[i as int], lkm_path@, operation, params@, timeout));
        let result = runner(&spec);
        match result {
            Ok(outcome) => {
                let ok = probe();
                if ok {
                    assert(run.ensures((&spec,), Ok::<CommandOutcome, String>(outcome)));
                    assert(accepted.ensures((), true));
                    assert(is_load_spec(spec, candidates@[i as int], lkm_path@, operation, params@, timeout));
                    assert(attempts@.len() == i);
                    return Ok(());
                }
                let stderr = match outcome.stderr_text() {
                    Some(text) => crate::paths::trim(text.as_str()),
                    None => String::new(),
                };
                attempts.push(InsmodAttempt { program, status: outcome.status.describe(), stderr });
            },
            Err(err) => {
                attempts.push(InsmodAttempt { program, status: owned("not runnable"), stderr: err });
            },
        }
        i = i + 1;
    }
    Err(attempts)
}

/// The call that unloads a module through one candidate.
pub fn unload_spec(
    program: &'static str,
    applet: Option<&'static str>,
    module_name: &str,
    operation: &'static str,
    timeout: std::time::Duration,
) -> (spec: CommandSpec)
    ensures
        spec.program@ == program@,
        spec.operation == operation,
        views(spec.args@) == applet_prefix(applet) + seq![module_name@],
        spec.capture == CaptureMode::Stderr,
        spec.exit_policy == crate::sys::process::ExitPolicy::Any,
        spec.timeout == Some(timeout),
{
    CommandSpec::new(program).operation(operation).args(rmmod_args(applet, module_name)).capture(
        CaptureMode::Stderr,
    ).any_exit_status().timeout(timeout)
}

} // verus!
