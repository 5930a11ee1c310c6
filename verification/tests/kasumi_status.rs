use hybrid_mount::kasumi_status::{hook_lines_from, require_live, runtime_status, text_lines};

#[test]
fn hook_lines_are_trimmed_and_empty_lines_dropped() {
    assert_eq!(hook_lines_from("  vfs_open \n\n\tvfs_stat\r\n   \n"), vec!["vfs_open".to_owned(), "vfs_stat".to_owned()]);
    assert!(hook_lines_from("").is_empty());
    assert_eq!(text_lines("a\n\nb"), vec!["a".to_owned(), String::new(), "b".to_owned()]);
}

#[test]
fn status_follows_the_enable_switch_and_live_remains() {
    assert_eq!(runtime_status(true, "available", true, true, 3), "available");
    assert_eq!(runtime_status(false, "available", false, false, 2), "disabled_runtime_present");
    assert_eq!(runtime_status(false, "available", false, true, 0), "disabled_runtime_present");
    assert_eq!(runtime_status(false, "not_present", false, false, 0), "disabled");
}

#[test]
fn unavailable_runtime_refuses_work_with_its_status() {
    assert!(require_live(true, "hide rules", "available").is_ok());
    let error = require_live(false, "hide rules", "not_present").unwrap_err();
    assert_eq!(error.message(), "Kasumi is not available for hide rules (status=not_present)");
}
