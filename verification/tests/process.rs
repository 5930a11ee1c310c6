use hybrid_mount::sys::process::{
    settle_drain, DrainReceipt, OutputStream, ProcessErrorKind, CaptureMode, CommandOutcome, CommandSpec, ExitPolicy, ExitStatus, OutputCapture,
    UnexpectedExit, DEFAULT_OUTPUT_CAPACITY_BYTES,
};

#[test]
fn head_tail_buffer_keeps_head_tail_and_counts_omitted_bytes() {
    let mut capture = OutputCapture::new(8);

    capture.push(b"abc");
    capture.push(b"defgh");
    assert_eq!(capture.head(), b"abcd");
    assert_eq!(capture.tail(), b"efgh");
    assert_eq!(capture.omitted_bytes(), 0);

    capture.push(b"X");
    assert_eq!(capture.head(), b"abcd");
    assert_eq!(capture.tail(), b"fghX");
    assert_eq!(capture.omitted_bytes(), 1);

    capture.push(&[0x61; 1024]);
    assert_eq!(capture.head(), b"abcd");
    assert_eq!(capture.tail(), b"aaaa");
    assert!(capture.omitted_bytes() > 1024);
    assert!(capture.render().contains("omitted"));
}

#[test]
fn head_tail_buffer_renders_non_utf8_without_panicking() {
    let mut capture = OutputCapture::new(16);
    capture.push(&[0xff, 0xfe, b'a', b'b']);

    let rendered = capture.render();
    assert!(!rendered.is_empty());
}

#[test]
fn command_spec_debug_redacts_environment_values() {
    let spec = CommandSpec::new("ksud")
        .env("KSU_MODULE", "hybrid_mount")
        .env("TELEGRAM_TOKEN", "do-not-leak");
    let debug = spec.debug_summary();

    assert!(debug.contains("TELEGRAM_TOKEN=<redacted>"));
    assert!(!debug.contains("do-not-leak"));
    assert!(!debug.contains("hybrid_mount"));
}

#[test]
fn zero_budget_capture_only_counts() {
    let mut capture = OutputCapture::new(0);
    capture.push(b"hello");
    assert!(capture.is_empty());
    assert_eq!(capture.omitted_bytes(), 5);
    assert_eq!(capture.render(), "\n[... omitted 5 bytes ...]\n");
}

#[test]
fn exit_policies_accept_exactly_their_statuses() {
    assert!(ExitPolicy::Success.accepts(ExitStatus::Exited(0)));
    assert!(!ExitPolicy::Success.accepts(ExitStatus::Exited(3)));
    assert!(ExitPolicy::Accepted(&[0, 1, 2, 3]).accepts(ExitStatus::Exited(3)));
    assert!(!ExitPolicy::Accepted(&[0, 1, 2, 3]).accepts(ExitStatus::Exited(4)));
    assert!(!ExitPolicy::Accepted(&[0]).accepts(ExitStatus::Signaled(0)));
    assert!(ExitPolicy::Any.accepts(ExitStatus::Signaled(9)));
}

#[test]
fn command_spec_builders_record_each_setting() {
    let spec = CommandSpec::new("e2fsck")
        .operation("repair ext4 image")
        .args(vec!["-y".to_owned(), "-f".to_owned()])
        .arg("/data/modules.img")
        .capture(CaptureMode::Both)
        .accepted_exit_codes(&[0, 1, 2, 3]);
    assert_eq!(spec.operation, "repair ext4 image");
    assert_eq!(spec.program, "e2fsck");
    assert_eq!(spec.args, vec!["-y", "-f", "/data/modules.img"]);
    assert_eq!(spec.capture, CaptureMode::Both);
    assert_eq!(spec.exit_policy, ExitPolicy::Accepted(&[0, 1, 2, 3]));
    assert_eq!(spec.max_output_bytes, DEFAULT_OUTPUT_CAPACITY_BYTES);
    assert_eq!(spec.any_exit_status().exit_policy, ExitPolicy::Any);
}

#[test]
fn statuses_describe_code_or_signal() {
    assert_eq!(ExitStatus::Exited(0).describe(), "exit code 0");
    assert_eq!(ExitStatus::Exited(-1).describe(), "exit code -1");
    assert_eq!(ExitStatus::Signaled(9).describe(), "signal 9");
}

#[test]
fn outcome_and_failure_render_captured_streams() {
    let mut stderr = OutputCapture::new(64);
    stderr.push(b"boom");
    let failure = UnexpectedExit {
        status: ExitStatus::Exited(3),
        stdout: None,
        stderr: Some(stderr),
    };
    let text = failure.describe();
    assert!(text.starts_with("unexpected exit code 3"));
    assert!(text.contains("stderr:\nboom"));

    let outcome = CommandOutcome {
        status: ExitStatus::Exited(0),
        stdout: Some(OutputCapture::new(8)),
        stderr: None,
    };
    assert_eq!(outcome.stdout_text().as_deref(), Some(""));
    assert!(outcome.stderr_text().is_none());
}

#[test]
fn drain_timeout_is_reported_when_reader_never_finishes() {
    let err = match settle_drain(DrainReceipt::TimedOut, OutputStream::Stderr, std::time::Duration::from_millis(20)) {
        Err(err) => err,
        Ok(_) => panic!("expected DrainTimeout"),
    };
    match err {
        ProcessErrorKind::DrainTimeout { stream: OutputStream::Stderr, limit } => {
            assert_eq!(limit, std::time::Duration::from_millis(20))
        }
        _ => panic!("expected DrainTimeout"),
    }
}
