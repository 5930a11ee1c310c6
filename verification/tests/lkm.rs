use std::cell::Cell;
use std::time::Duration;

use hybrid_mount::sys::lkm::{
    bundled_lkm_arch_supported, describe_attempts, insmod_args, insmod_candidates, load_spec,
    load_with_candidates, rmmod_args, rmmod_candidates, unload_spec, InsmodAttempt,
};
use hybrid_mount::sys::nuke::{
    android_major_from_kernel_release, kernel_major_minor, parse_android_major, select_lkm_filename,
};
use hybrid_mount::sys::process::{CaptureMode, CommandOutcome, CommandSpec, ExitPolicy, ExitStatus, OutputCapture};

/// Stands in for running the program: `true` exits 0, `false` exits 1 and
/// anything under `/nonexistent` cannot be spawned.
fn fake_run(spec: &CommandSpec) -> Result<CommandOutcome, String> {
    if spec.program.starts_with("/nonexistent") {
        return Err(format!("{} failed: {}: could not be spawned", spec.operation, spec.program));
    }
    let code = if spec.program == "true" { 0 } else { 1 };
    Ok(CommandOutcome {
        status: ExitStatus::Exited(code),
        stdout: None,
        stderr: Some(OutputCapture::new(64)),
    })
}

#[test]
fn zero_exit_without_provider_is_failure_and_keeps_loader_diagnostics() {
    let result = load_with_candidates(
        &[("true", None), ("/nonexistent/hm-ko-loader", None)],
        "/m/hybridmount.ko",
        "test absent provider",
        &[],
        Duration::from_secs(2),
        fake_run,
        || false,
    );
    let attempts = result.expect_err("no provider must fail");
    assert_eq!(attempts.len(), 2);
    assert!(describe_attempts(&attempts).contains("/nonexistent/hm-ko-loader"));
}

#[test]
fn responding_provider_stops_before_fallback() {
    let probes = Cell::new(0);
    let result = load_with_candidates(
        &[("true", None), ("false", None)],
        "/m/hybridmount.ko",
        "test ready provider",
        &[],
        Duration::from_secs(2),
        fake_run,
        || {
            probes.set(probes.get() + 1);
            true
        },
    );
    assert!(result.is_ok());
    assert_eq!(probes.get(), 1);
}

#[test]
fn candidate_arguments_place_the_applet_first_and_parameters_last() {
    let params = vec!["mount_point=/mnt".to_owned(), "symaddr=0x1".to_owned()];
    assert_eq!(
        insmod_args(Some("insmod"), "/m/nuke.ko", &params),
        vec!["insmod", "/m/nuke.ko", "mount_point=/mnt", "symaddr=0x1"]
    );
    assert_eq!(insmod_args(None, "/m/nuke.ko", &[]), vec!["/m/nuke.ko"]);
    assert_eq!(rmmod_args(Some("rmmod"), "hybridmount"), vec!["rmmod", "hybridmount"]);
    assert_eq!(rmmod_args(None, "hybridmount"), vec!["hybridmount"]);
}

#[test]
fn failed_attempts_are_reported_with_their_program() {
    let attempts = vec![
        InsmodAttempt {
            program: "/system/bin/insmod",
            status: "exit status: 1".to_owned(),
            stderr: "unknown symbol".to_owned(),
        },
        InsmodAttempt {
            program: "insmod",
            status: "not runnable".to_owned(),
            stderr: "not found".to_owned(),
        },
    ];
    let rendered = describe_attempts(&attempts);
    assert!(rendered.contains("/system/bin/insmod"), "{rendered}");
    assert!(rendered.contains("unknown symbol"), "{rendered}");
    assert!(rendered.contains("insmod: status=not runnable"), "{rendered}");
    assert_eq!(describe_attempts(&[]), "no insmod candidate produced output".to_owned());
    assert_eq!(
        rendered,
        "/system/bin/insmod: status=exit status: 1, stderr=unknown symbol; insmod: status=not runnable, stderr=not found"
    );
}

#[test]
fn failed_attempt_records_status_and_trimmed_stderr() {
    let result = load_with_candidates(
        &[("false", Some("insmod"))],
        "/m/nuke.ko",
        "load nuke",
        &["a=1".to_owned()],
        Duration::from_secs(30),
        |spec: &CommandSpec| {
            assert_eq!(spec.args, vec!["insmod", "/m/nuke.ko", "a=1"]);
            let mut stderr = OutputCapture::new(64);
            stderr.push(b"  bad magic \n");
            Ok(CommandOutcome { status: ExitStatus::Exited(1), stdout: None, stderr: Some(stderr) })
        },
        || false,
    );
    let attempts = result.unwrap_err();
    assert_eq!(attempts[0].program, "false");
    assert_eq!(attempts[0].status, "exit code 1");
    assert_eq!(attempts[0].stderr, "bad magic");
}

#[test]
fn loader_specs_accept_any_status_and_capture_stderr() {
    let spec = load_spec("/system/bin/insmod", None, "/m/nuke.ko", "load", &[], Duration::from_secs(30));
    assert_eq!(spec.args, vec!["/m/nuke.ko"]);
    assert_eq!(spec.capture, CaptureMode::Stderr);
    assert_eq!(spec.exit_policy, ExitPolicy::Any);
    assert_eq!(spec.timeout, Some(Duration::from_secs(30)));
    let spec = unload_spec("/data/adb/ap/bin/busybox", Some("rmmod"), "nuke", "unload", Duration::from_secs(5));
    assert_eq!(spec.args, vec!["rmmod", "nuke"]);
    assert_eq!(insmod_candidates()[0], ("/data/adb/ksud", Some("insmod")));
    assert_eq!(insmod_candidates()[5], ("insmod", None));
    assert_eq!(rmmod_candidates()[0], ("/system/bin/rmmod", None));
}

#[test]
fn selects_bundled_kernel_android_matrix() {
    assert_eq!(select_lkm_filename("5.10.198-android12-9", None), Some("nuke-android12-5.10.ko"));
    assert_eq!(select_lkm_filename("5.10.209-gki", Some(13)), Some("nuke-android13-5.10.ko"));
    assert_eq!(select_lkm_filename("5.15.153-android13", None), Some("nuke-android13-5.15.ko"));
    assert_eq!(select_lkm_filename("6.6.30-android15", None), Some("nuke-android15-6.6.ko"));
}

#[test]
fn refuses_unknown_or_unsafe_matrix_entries() {
    assert_eq!(select_lkm_filename("5.15.153", None), None);
    assert_eq!(select_lkm_filename("5.10.209-gki", Some(14)), None);
    assert_eq!(select_lkm_filename("6.1.0-android13", None), None);
    assert_eq!(select_lkm_filename("6.8.0-android16", None), None);
}

#[test]
fn parses_android_versions_without_assuming_semver() {
    assert_eq!(parse_android_major("14"), Some(14));
    assert_eq!(parse_android_major("15.0.0"), Some(15));
    assert_eq!(android_major_from_kernel_release("6.6.1-android15-8"), Some(15));
}

#[test]
fn bundled_lkm_architecture_contract_is_explicit() {
    assert!(bundled_lkm_arch_supported("aarch64"));
    assert!(!bundled_lkm_arch_supported("arm"));
    assert!(!bundled_lkm_arch_supported("x86_64"));
}

#[test]
fn every_selectable_kernel_maps_to_one_packaged_module() {
    let selectable = [
        ("4.14.336-gki", "nuke-android-4.14.ko"),
        ("5.10.198-android12-9", "nuke-android12-5.10.ko"),
        ("5.10.198-android13-8", "nuke-android13-5.10.ko"),
        ("5.15.137-android13-11", "nuke-android13-5.15.ko"),
        ("5.15.149-android14-12", "nuke-android14-5.15.ko"),
        ("6.1.75-android14-13", "nuke-android14-6.1.ko"),
        ("6.6.30-android15-8", "nuke-android15-6.6.ko"),
        ("6.12.30-android16-6", "nuke-android16-6.12.ko"),
    ];
    for (release, expected) in selectable {
        assert_eq!(select_lkm_filename(release, None), Some(expected), "{release}");
    }
}

#[test]
fn release_numbers_are_read_digit_by_digit() {
    assert_eq!(kernel_major_minor("6.12.30-android16-6"), Some((6, 12)));
    assert_eq!(kernel_major_minor("4.14"), Some((4, 14)));
    assert_eq!(kernel_major_minor("6"), None);
    assert_eq!(kernel_major_minor("x.1"), None);
    assert_eq!(parse_android_major(""), None);
    assert_eq!(parse_android_major("99999999999"), None);
    assert_eq!(android_major_from_kernel_release("5.10.209-gki"), None);
    assert_eq!(android_major_from_kernel_release("5.10-androidx-android13"), None);
}

#[test]
fn unspawnable_candidate_is_reported_not_runnable() {
    let attempts = load_with_candidates(
        &[("/nonexistent/insmod", None), ("false", None)],
        "/m/hybridmount.ko",
        "test load",
        &[],
        Duration::from_secs(2),
        fake_run,
        || false,
    )
    .unwrap_err();
    assert_eq!(attempts[0].program, "/nonexistent/insmod");
    assert_eq!(attempts[0].status, "not runnable");
    assert_eq!(attempts[0].stderr, "test load failed: /nonexistent/insmod: could not be spawned");
    assert_eq!(attempts[1].program, "false");
    assert_eq!(attempts[1].status, "exit code 1");
}
