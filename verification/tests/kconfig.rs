use std::io::Write;

use flate2::write::GzEncoder;
use flate2::Compression;
use hybrid_mount::sys::kconfig::{check_kernel_config, config_text_enables};
use hybrid_mount::sys::mount::{repair_spec, rollback_order, E2FSCK_COMPATIBLE_EXIT_CODES};
use hybrid_mount::sys::mountinfo::MountSnapshot;
use hybrid_mount::sys::process::{CaptureMode, ExitPolicy};

fn gzip(text: &str) -> Vec<u8> {
    let mut encoder = GzEncoder::new(Vec::new(), Compression::default());
    encoder.write_all(text.as_bytes()).unwrap();
    encoder.finish().unwrap()
}

#[test]
fn kernel_config_reads_enabled_options_from_the_compressed_config() {
    let config = gzip("# CONFIG_OVERLAY_FS is not set\nCONFIG_TMPFS=y\r\nCONFIG_EXT4_FS = y \nCONFIG_KSU=m\n");
    assert_eq!(check_kernel_config(&config, "CONFIG_TMPFS").unwrap(), true);
    assert_eq!(check_kernel_config(&config, "CONFIG_EXT4_FS").unwrap(), true);
    assert_eq!(check_kernel_config(&config, "CONFIG_KSU").unwrap(), false);
    assert_eq!(check_kernel_config(&config, "CONFIG_OVERLAY_FS").unwrap(), false);
}

#[test]
fn kernel_config_that_is_not_gzip_is_an_error() {
    let error = check_kernel_config(b"CONFIG_TMPFS=y\n", "CONFIG_TMPFS").unwrap_err();
    assert_eq!(error.message(), "invalid gzip header");
}

#[test]
fn config_lines_split_at_the_first_equals_sign() {
    assert!(config_text_enables("A=y", "A"));
    assert!(!config_text_enables("A=y=y", "A"));
    assert!(!config_text_enables("#A=y", "A"));
    assert!(config_text_enables("x\n\nA=y", "A"));
    assert!(!config_text_enables("", "A"));
}

#[test]
fn e2fsck_exit_code_contract_accepts_zero_through_three() {
    for code in 0..=3 {
        assert!(E2FSCK_COMPATIBLE_EXIT_CODES.contains(&code));
    }
    for code in [4, 8, 255] {
        assert!(!E2FSCK_COMPATIBLE_EXIT_CODES.contains(&code));
    }
}

#[test]
fn repair_runs_e2fsck_with_the_compatible_exit_codes() {
    let spec = repair_spec("/data/adb/hybrid/modules.img");
    assert_eq!(spec.program, "e2fsck");
    assert_eq!(spec.args, vec!["-y", "-f", "/data/adb/hybrid/modules.img"]);
    assert_eq!(spec.capture, CaptureMode::Both);
    assert_eq!(spec.exit_policy, ExitPolicy::Accepted(&[0, 1, 2, 3]));
    assert_eq!(spec.timeout, Some(std::time::Duration::from_secs(300)));
}

#[test]
fn rollback_unmounts_descendants_deepest_first_then_the_target() {
    let snapshot = MountSnapshot::from_paths(vec!["/mnt/a".to_owned(), "/mnt/a/b".to_owned(), "/mnt/a/b/c".to_owned(), "/mnt/x".to_owned()]);
    assert_eq!(rollback_order(&snapshot, "/mnt/a"), vec!["/mnt/a/b/c", "/mnt/a/b", "/mnt/a"]);
}
