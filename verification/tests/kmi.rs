use hybrid_mount::sys::kmi::{kmi_from_captures, parse_kmi};

#[test]
fn kernel_release_names_android_version_then_kernel_version() {
    assert_eq!(parse_kmi("5.10.198-android12-9-00085-g226a9632f13d").unwrap(), "android12-5.10");
    assert_eq!(parse_kmi("Linux localhost 6.1.57-android14-11-gabc #1 SMP").unwrap(), "android14-6.1");
}

#[test]
fn release_without_android_tag_has_no_kmi() {
    assert_eq!(parse_kmi("5.10.198-generic").unwrap_err(), "Failed to get KMI from boot/modules");
}

#[test]
fn missing_groups_count_as_empty_text() {
    let groups = vec![Some("x".to_owned()), None, Some("5.4".to_owned()), None, Some("android11".to_owned())];
    assert_eq!(kmi_from_captures(Some(groups)).unwrap(), "android11-5.4");
    assert_eq!(kmi_from_captures(Some(vec![None])).unwrap(), "-");
    assert!(kmi_from_captures(None).is_err());
}
