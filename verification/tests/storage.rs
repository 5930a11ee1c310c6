use hybrid_mount::storage::ext4::{
    ext4_block_group_count, mke2fs_args, multiply_ratio_ceil, planned_image_size, round_up,
    select_ext4_block_size, SizeCounter, EXT4_BLOCK_SIZE_BYTES, EXT4_LARGE_BLOCK_SIZE_BYTES,
    EXT4_MAX_1K_BLOCK_GROUPS, EXT4_MIN_IMAGE_SIZE_BYTES, SYSTEM_MKE2FS,
};
use hybrid_mount::storage::{should_cleanup_image, StorageMode};

#[test]
fn formatter_arguments_combine_upstream_and_v4_geometry() {
    let args = mke2fs_args(EXT4_BLOCK_SIZE_BYTES);
    assert_eq!(
        args.iter().map(String::as_str).collect::<Vec<_>>(),
        ["-t", "ext4", "-b", "1024", "-i", "4096", "-O", "^has_journal", "-F"]
    );
    assert_eq!(SYSTEM_MKE2FS, "/system/bin/mke2fs");
}

#[test]
fn formatter_arguments_support_large_image_geometry() {
    let args = mke2fs_args(EXT4_LARGE_BLOCK_SIZE_BYTES);
    assert_eq!(args[3], "4096");
}

#[test]
fn planned_image_size_enforces_minimum() {
    assert_eq!(planned_image_size(0, 0), EXT4_MIN_IMAGE_SIZE_BYTES);
    assert_eq!(planned_image_size(1_000, 1), EXT4_MIN_IMAGE_SIZE_BYTES);
}

#[test]
fn planned_image_size_grows_with_source_data() {
    let total = 100 * 1024 * 1024;
    assert_eq!(planned_image_size(total, 1), 144 * 1024 * 1024);
}

#[test]
fn planned_image_size_accounts_for_inode_demand() {
    assert_eq!(planned_image_size(0, 100_000), 492 * 1024 * 1024);
}

#[test]
fn large_images_use_four_kib_blocks_to_bound_group_count() {
    let issue_image_size = planned_image_size(455_715_840, 158);
    assert_eq!(issue_image_size, 587_202_560);
    assert_eq!(select_ext4_block_size(issue_image_size), 4096);
    assert_eq!(select_ext4_block_size(256 * 1024 * 1024), 1024);
    assert_eq!(
        ext4_block_group_count(256 * 1024 * 1024, EXT4_BLOCK_SIZE_BYTES),
        EXT4_MAX_1K_BLOCK_GROUPS
    );
    assert_eq!(
        ext4_block_group_count(260 * 1024 * 1024, EXT4_BLOCK_SIZE_BYTES),
        EXT4_MAX_1K_BLOCK_GROUPS + 1
    );
    assert_eq!(ext4_block_group_count(587_202_560, EXT4_LARGE_BLOCK_SIZE_BYTES), 5);
}

#[test]
fn size_counter_counts_each_copied_entry_by_logical_size() {
    let mut counter = SizeCounter::default();

    counter.add_file(1);
    counter.add_file(1);
    counter.add_metadata_entry();

    assert_eq!(counter.total(), 2 * EXT4_BLOCK_SIZE_BYTES);
    assert_eq!(counter.entries(), 3);
}

#[test]
fn sizing_models_hardlinks_as_independent_copies() {
    let mut counter = SizeCounter::default();
    counter.add_file(8 * EXT4_BLOCK_SIZE_BYTES);
    counter.add_file(8 * EXT4_BLOCK_SIZE_BYTES);

    assert_eq!(counter.total(), 16 * EXT4_BLOCK_SIZE_BYTES);
    assert_eq!(counter.entries(), 2);
}

#[test]
fn sparse_files_use_logical_size_not_allocated_blocks() {
    let mut counter = SizeCounter::default();
    counter.add_file(16 * 1024 * 1024);

    assert_eq!(counter.total(), 16 * 1024 * 1024);
    assert_eq!(counter.entries(), 1);
}

#[test]
fn symlinks_and_special_entries_cost_one_inode_without_data() {
    let mut counter = SizeCounter::default();
    counter.add_metadata_entry();
    counter.add_metadata_entry();

    assert_eq!(counter.total(), 0);
    assert_eq!(counter.entries(), 2);
}

#[test]
fn size_calculation_saturates_instead_of_overflowing() {
    let mut counter = SizeCounter::default();
    counter.add_file(u64::MAX);
    assert_eq!(counter.total(), u64::MAX);
    assert_eq!(planned_image_size(u64::MAX, u64::MAX), u64::MAX);
}

#[test]
fn storage_mode_names_match_contract() {
    assert_eq!(StorageMode::Tmpfs.as_str(), "tmpfs");
    assert_eq!(StorageMode::Ext4.as_str(), "ext4");
}

#[test]
fn cleanup_only_applies_to_ext4() {
    assert!(!should_cleanup_image(StorageMode::Tmpfs));
    assert!(should_cleanup_image(StorageMode::Ext4));
}

#[test]
fn ratio_helper_rounds_up_exactly() {
    assert_eq!(multiply_ratio_ceil(4, 5, 4), 5);
    assert_eq!(multiply_ratio_ceil(5, 5, 4), 7);
    assert_eq!(multiply_ratio_ceil(7, 3, 0), u64::MAX);
    assert_eq!(round_up(1025, 1024), 2048);
    assert_eq!(round_up(7, 0), 7);
    assert_eq!(round_up(u64::MAX - 1, 1024), u64::MAX);
}

#[test]
fn new_counter_is_empty() {
    let counter = SizeCounter::new();
    assert_eq!(counter.total(), 0);
    assert_eq!(counter.entries(), 0);
}

#[test]
fn larger_demand_never_shrinks_the_image() {
    let samples = [(0u64, 0u64), (1 << 20, 10), (100 << 20, 10), (100 << 20, 50_000), (u64::MAX, 1), (7, u64::MAX)];
    for &(d1, e1) in &samples {
        for &(d2, e2) in &samples {
            if d1 <= d2 && e1 <= e2 {
                assert!(planned_image_size(d1, e1) <= planned_image_size(d2, e2));
            }
        }
    }
    assert_eq!(planned_image_size(100 << 20, 0), 150994944);
}
