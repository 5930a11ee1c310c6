use hybrid_mount::config::{Config, Mode, ModuleRule};
use hybrid_mount::errors::Error;
use hybrid_mount::mount_tree::NodeFileType;
use hybrid_mount::plan::paths::map_target;
use hybrid_mount::plan::planner::{build_plan, MountPlan, PlanInput};
use hybrid_mount::scanner::{ModuleEntry, ModuleRecord};

fn record(id: &str, entries: &[(&str, bool)]) -> ModuleRecord {
    ModuleRecord {
        id: id.to_owned(),
        name: id.to_owned(),
        version: "1".to_owned(),
        author: "a".to_owned(),
        description: "d".to_owned(),
        disabled: false,
        skip_mount: false,
        has_mount_files: true,
        source_path: format!("/data/adb/modules/{id}"),
        entries: entries
            .iter()
            .map(|(relative, is_dir)| ModuleEntry {
                relative: (*relative).to_owned(),
                file_type: if *is_dir { NodeFileType::Directory } else { NodeFileType::RegularFile },
                replace: false,
            })
            .collect(),
    }
}

fn rule(default_mode: Option<Mode>, paths: &[(&str, Mode)]) -> ModuleRule {
    let mut paths: Vec<(String, Mode)> = paths.iter().map(|(key, mode)| ((*key).to_owned(), *mode)).collect();
    paths.sort_by(|left, right| left.0.cmp(&right.0));
    ModuleRule { default_mode, paths }
}

fn config(default_mode: Mode, rules: Vec<(&str, ModuleRule)>) -> Config {
    let mut rules: Vec<(String, ModuleRule)> = rules.into_iter().map(|(id, rule)| (id.to_owned(), rule)).collect();
    rules.sort_by(|left, right| left.0.cmp(&right.0));
    Config { default_mode, rules, module_blacklist: Vec::new() }
}

fn no_rules() -> Vec<(&'static str, ModuleRule)> {
    Vec::new()
}

fn promoted(names: &[&str]) -> Vec<String> {
    let mut names: Vec<String> = names.iter().map(|name| (*name).to_owned()).collect();
    names.sort();
    names
}

fn plan(modules: &[ModuleRecord], config: &Config, partitions: &[&str]) -> MountPlan {
    plan_with_vfs(modules, config, partitions, true)
}

fn plan_with_vfs(modules: &[ModuleRecord], config: &Config, partitions: &[&str], vfs_available: bool) -> MountPlan {
    let promoted = promoted(partitions);
    let input = PlanInput { modules, config, promoted_partitions: &promoted, vfs_available };
    build_plan(&input).unwrap()
}

fn plan_err(modules: &[ModuleRecord], config: &Config) -> Error {
    let promoted: Vec<String> = Vec::new();
    let input = PlanInput { modules, config, promoted_partitions: &promoted, vfs_available: true };
    match build_plan(&input) {
        Ok(_) => panic!("plan unexpectedly succeeded"),
        Err(err) => err,
    }
}

fn files<'a>(plan: &'a MountPlan, target: &str) -> &'a Vec<String> {
    &plan.overlay_files.iter().find(|(key, _)| key == target).unwrap().1
}

fn has_files(plan: &MountPlan, target: &str) -> bool {
    plan.overlay_files.iter().any(|(key, _)| key == target)
}

#[test]
fn path_rule_beats_module_and_global_default() {
    let config = config(Mode::Overlay, vec![("hosts", rule(Some(Mode::Magic), &[("system/etc/hosts", Mode::Overlay)]))]);
    let module = record("hosts", &[("system/etc", true), ("system/etc/hosts", false), ("system/etc/other", false)]);

    let result = plan(&[module], &config, &[]);

    assert_eq!(result.overlay_module_ids, vec!["hosts"]);
    assert_eq!(files(&result, "/system/etc"), &vec!["/data/adb/modules/hosts/system/etc/hosts".to_owned()]);
    assert_eq!(result.magic_module_ids, vec!["hosts"]);
    assert!(result.tree.find("/system/etc/other").unwrap().source_for(Mode::Magic).is_some());
    assert!(result.tree.find("/system/etc/hosts").unwrap().source_for(Mode::Magic).is_none());
}

#[test]
fn partial_overlay_keeps_multiple_files_from_one_module_and_parent() {
    let rules = vec![(
        "hosts",
        rule(Some(Mode::Magic), &[("system/etc/hosts", Mode::Overlay), ("system/etc/resolv.conf", Mode::Overlay)]),
    )];
    let module = record("hosts", &[("system/etc", true), ("system/etc/hosts", false), ("system/etc/resolv.conf", false)]);

    let result = plan(&[module], &config(Mode::Magic, rules), &[]);

    assert_eq!(
        files(&result, "/system/etc"),
        &vec![
            "/data/adb/modules/hosts/system/etc/hosts".to_owned(),
            "/data/adb/modules/hosts/system/etc/resolv.conf".to_owned(),
        ]
    );
}

#[test]
fn module_blacklist_overrides_global_and_path_rules() {
    let mut config = config(Mode::Overlay, vec![("blocked", rule(Some(Mode::Magic), &[("system/etc/blocked", Mode::Overlay)]))]);
    config.module_blacklist.push("blocked".to_owned());
    let modules = [record("blocked", &[("system/etc/blocked", false)]), record("allowed", &[("system/etc/allowed", false)])];

    let result = plan(&modules, &config, &[]);

    assert_eq!(result.overlay_module_ids, vec!["allowed"]);
    assert!(result.magic_module_ids.is_empty());
    assert!(result.tree.find("/system/etc/blocked").is_none());
    assert!(result.tree.find("/system/etc/allowed").is_some());
}

#[test]
fn leading_slash_rule_key_is_normalized() {
    let config = config(Mode::Ignore, vec![("hosts", rule(Some(Mode::Magic), &[("/system/etc/hosts", Mode::Overlay)]))]);
    let module = record("hosts", &[("system/etc/hosts", false)]);

    let result = plan(&[module], &config, &[]);

    assert!(files(&result, "/system/etc").contains(&"/data/adb/modules/hosts/system/etc/hosts".to_owned()));
}

#[test]
fn whole_overlay_modules_split_below_system_root_and_keep_module_order() {
    let config = config(Mode::Overlay, no_rules());
    let modules = [record("a", &[("system/etc/a", false)]), record("b", &[("system/bin/b", false)])];

    let result = plan(&modules, &config, &[]);

    assert_eq!(result.overlay_ops.len(), 2);
    assert_eq!(result.overlay_ops[0].partition, "system");
    assert_eq!(result.overlay_ops[0].target, "/system/bin");
    assert_eq!(result.overlay_ops[0].lowerdirs, vec!["/data/adb/modules/b/system/bin".to_owned()]);
    assert_eq!(result.overlay_ops[1].target, "/system/etc");
    assert_eq!(result.overlay_ops[1].lowerdirs, vec!["/data/adb/modules/a/system/etc".to_owned()]);
    assert_eq!(result.overlay_module_ids, vec!["a", "b"]);
    assert!(result.magic_module_ids.is_empty());
}

#[test]
fn whole_overlay_modules_split_below_promoted_partition_root() {
    let config = config(Mode::Overlay, no_rules());
    let module = record(
        "gpu",
        &[
            ("system/vendor", true),
            ("system/vendor/etc", true),
            ("system/vendor/etc/gpu.xml", false),
            ("system/vendor/lib64", true),
            ("system/vendor/lib64/gpu.so", false),
        ],
    );

    let result = plan(&[module], &config, &["vendor"]);

    assert_eq!(result.overlay_ops.len(), 2);
    assert_eq!(result.overlay_ops[0].partition, "vendor");
    assert_eq!(result.overlay_ops[0].target, "/vendor/etc");
    assert_eq!(result.overlay_ops[1].target, "/vendor/lib64");
    assert!(result.overlay_ops.iter().all(|operation| operation.target != "/vendor"));
}

#[test]
fn redundant_partition_self_aliases_do_not_mount_partition_roots() {
    let config = config(Mode::Overlay, no_rules());
    let mut module = record(
        "collection",
        &[
            ("product/overlay", true),
            ("product/overlay/product.apk", false),
            ("product/product", false),
            ("vendor/overlay", true),
            ("vendor/overlay/vendor.apk", false),
            ("vendor/vendor", false),
        ],
    );
    module.entries[2].file_type = NodeFileType::Symlink;
    module.entries[5].file_type = NodeFileType::Symlink;

    let result = plan(&[module], &config, &["product", "vendor"]);

    assert_eq!(
        result.overlay_ops.iter().map(|operation| operation.target.as_str()).collect::<Vec<_>>(),
        vec!["/product/overlay", "/vendor/overlay"]
    );
    assert!(!has_files(&result, "/product"));
    assert!(!has_files(&result, "/vendor"));
    assert!(result.tree.find("/product/product").is_none());
    assert!(result.tree.find("/vendor/vendor").is_none());
}

#[test]
fn top_level_vendor_module_targets_vendor_partition() {
    let module = record("nfc", &[("vendor/etc", true), ("vendor/etc/libnfc-nci.conf", false)]);
    let config = config(Mode::Overlay, no_rules());

    let result = plan(&[module], &config, &["vendor"]);

    assert_eq!(result.overlay_module_ids, vec!["nfc".to_owned()]);
    assert_eq!(result.overlay_ops.len(), 1);
    assert_eq!(result.overlay_ops[0].partition, "vendor");
    assert_eq!(result.overlay_ops[0].target, "/vendor/etc");
    assert_eq!(result.overlay_ops[0].lowerdirs, vec!["/data/adb/modules/nfc/vendor/etc".to_owned()]);
}

#[test]
fn whole_overlay_direct_partition_file_uses_shallow_layer() {
    let config = config(Mode::Overlay, no_rules());
    let module = record("props", &[("system/build.prop", false)]);

    let result = plan(&[module], &config, &[]);

    assert!(result.overlay_ops.is_empty());
    assert_eq!(files(&result, "/system"), &vec!["/data/adb/modules/props/system/build.prop".to_owned()]);
    assert_eq!(result.overlay_module_ids, vec!["props"]);
}

#[test]
fn directory_rule_overlay_uses_directory_as_lowerdir() {
    let config = config(Mode::Ignore, vec![("m", rule(Some(Mode::Magic), &[("system/etc", Mode::Overlay)]))]);
    let module = record(
        "m",
        &[
            ("system/etc", true),
            ("system/etc/hosts", false),
            ("system/etc/sub", true),
            ("system/etc/sub/a", false),
            ("system/bin", true),
            ("system/bin/x", false),
        ],
    );

    let result = plan(&[module], &config, &[]);

    assert_eq!(result.overlay_ops.len(), 1);
    assert_eq!(result.overlay_ops[0].target, "/system/etc");
    assert_eq!(result.overlay_ops[0].lowerdirs, vec!["/data/adb/modules/m/system/etc".to_owned()]);
    assert!(result.overlay_files.is_empty());
    assert!(result.tree.find("/system/bin/x").unwrap().source_for(Mode::Magic).is_some());
    assert!(result.tree.find("/system/etc/hosts").unwrap().source_for(Mode::Magic).is_none());
}

#[test]
fn promoted_partition_rules_target_partition_root() {
    let config = config(Mode::Ignore, vec![("v", rule(Some(Mode::Magic), &[("system/vendor", Mode::Overlay)]))]);
    let module = record(
        "v",
        &[("system/vendor", true), ("system/vendor/lib/x.so", false), ("system/etc", true), ("system/etc/y", false)],
    );

    let result = plan(&[module], &config, &["vendor"]);

    assert_eq!(result.overlay_ops.len(), 1);
    assert_eq!(result.overlay_ops[0].partition, "vendor");
    assert_eq!(result.overlay_ops[0].target, "/vendor");
    assert_eq!(result.overlay_ops[0].lowerdirs, vec!["/data/adb/modules/v/system/vendor".to_owned()]);
}

#[test]
fn same_target_different_backends_reports_conflict() {
    let config = config(Mode::Overlay, vec![("magic_mod", rule(Some(Mode::Magic), &[]))]);
    let modules = [record("overlay_mod", &[("system/etc/hosts", false)]), record("magic_mod", &[("system/etc/hosts", false)])];

    let err = plan_err(&modules, &config);
    assert!(err.message().contains("plan conflict"), "{}", err.message());
}

#[test]
fn normal_directories_can_be_shared_by_overlay_and_magic() {
    let config = config(Mode::Overlay, vec![("magic_mod", rule(Some(Mode::Magic), &[]))]);
    let modules = [
        record("overlay_mod", &[("system/etc", true), ("system/etc/overlay.conf", false)]),
        record("magic_mod", &[("system/etc", true), ("system/etc/magic.conf", false)]),
    ];

    let result = plan(&modules, &config, &[]);
    let etc = result.tree.find("/system/etc").unwrap();

    assert_eq!(result.overlay_module_ids, vec!["overlay_mod"]);
    assert_eq!(result.magic_module_ids, vec!["magic_mod"]);
    assert!(etc.source_for(Mode::Overlay).is_some());
    assert!(etc.source_for(Mode::Magic).is_some());
}

#[test]
fn replace_directory_still_conflicts_with_other_backend_at_same_target() {
    let rules = vec![("magic_mod", rule(Some(Mode::Magic), &[]))];
    let overlay = record("overlay_mod", &[("system/etc", true)]);
    let mut magic = record("magic_mod", &[("system/etc", true)]);
    magic.entries[0].replace = true;

    let err = plan_err(&[overlay, magic], &config(Mode::Overlay, rules));
    assert!(err.message().contains(".replace"), "{}", err.message());
}

#[test]
fn promoted_layout_aliases_do_not_break_mixed_partition_modules() {
    let mut adreno = record(
        "adreno",
        &[("system/vendor", false), ("vendor/etc", true), ("vendor/etc/permissions", true), ("vendor/etc/permissions/gpu.xml", false)],
    );
    adreno.entries[0].file_type = NodeFileType::Symlink;
    let mut extreme = record(
        "extreme",
        &[("system/vendor", false), ("vendor/etc", true), ("vendor/etc/perf", true), ("vendor/etc/perf/thermal.conf", false)],
    );
    extreme.entries[0].file_type = NodeFileType::Symlink;
    let mut haptics = record("haptics", &[("system/odm", false), ("odm/lib64", true), ("odm/lib64/libhaptic.so", false)]);
    haptics.entries[0].file_type = NodeFileType::Symlink;
    let rules = vec![("extreme", rule(Some(Mode::Magic), &[])), ("haptics", rule(Some(Mode::Magic), &[]))];

    let result = plan(&[adreno, extreme, haptics], &config(Mode::Overlay, rules), &["vendor", "odm"]);

    assert_eq!(result.overlay_module_ids, vec!["adreno"]);
    assert_eq!(result.magic_module_ids, vec!["extreme", "haptics"]);
    assert!(result.tree.find("/vendor").unwrap().sources.is_empty());
    assert!(result.tree.find("/odm").unwrap().sources.is_empty());
    assert_eq!(result.tree.find("/vendor").unwrap().file_type_for(Mode::Magic), Some(NodeFileType::Directory));
    assert_eq!(result.tree.find("/odm").unwrap().file_type_for(Mode::Magic), Some(NodeFileType::Directory));
    let vendor_etc = result.tree.find("/vendor/etc").unwrap();
    assert!(vendor_etc.source_for(Mode::Overlay).is_some());
    assert!(vendor_etc.source_for(Mode::Magic).is_some());
}

#[test]
fn module_overlay_with_magic_path_rule_shares_filtered_directory_tree() {
    let config = config(Mode::Overlay, vec![("m", rule(None, &[("system/etc/hosts", Mode::Magic)]))]);
    let module = record("m", &[("system/etc", true), ("system/etc/hosts", false)]);

    let result = plan(&[module], &config, &[]);
    assert_eq!(result.overlay_ops[0].target, "/system/etc");
    assert!(result.tree.find("/system/etc").unwrap().has_backend(Mode::Overlay));
    assert!(result.tree.find("/system/etc/hosts").unwrap().has_backend(Mode::Magic));
}

#[test]
fn overlay_directory_can_cover_a_magic_descendant_without_staging_it() {
    let config = config(
        Mode::Ignore,
        vec![("m", rule(Some(Mode::Magic), &[("system/etc", Mode::Overlay), ("system/etc/hosts", Mode::Magic)]))],
    );
    let module = record("m", &[("system/etc", true), ("system/etc/hosts", false)]);

    let result = plan(&[module], &config, &[]);
    assert_eq!(result.overlay_ops[0].target, "/system/etc");
    assert_eq!(result.magic_module_ids, vec!["m"]);
    assert_eq!(
        result.tree.find("/system/etc/hosts").unwrap().file_type_for(Mode::Magic),
        Some(NodeFileType::RegularFile)
    );
}

#[test]
fn whole_magic_module_is_represented_directly_in_shared_tree() {
    let config = config(Mode::Magic, no_rules());
    let module = record("m", &[("system/etc/hosts", false)]);

    let result = plan(&[module], &config, &[]);

    assert_eq!(result.magic_module_ids, vec!["m"]);
    assert!(result.tree.has_backend(Mode::Magic));
    assert!(result.overlay_ops.is_empty());
}

#[test]
fn rebuilding_a_module_after_backend_switch_drops_the_old_backend() {
    let module = record("switchable", &[("system/etc", true), ("system/etc/hosts", false)]);

    let overlay_plan = plan(std::slice::from_ref(&module), &config(Mode::Overlay, no_rules()), &[]);
    assert_eq!(overlay_plan.overlay_module_ids, vec!["switchable"]);
    assert!(overlay_plan.magic_module_ids.is_empty());
    assert!(overlay_plan.tree.has_backend(Mode::Overlay));
    assert!(!overlay_plan.tree.has_backend(Mode::Magic));

    let magic_plan = plan(&[module], &config(Mode::Magic, no_rules()), &[]);
    assert!(magic_plan.overlay_module_ids.is_empty());
    assert_eq!(magic_plan.magic_module_ids, vec!["switchable"]);
    assert!(!magic_plan.tree.has_backend(Mode::Overlay));
    assert!(magic_plan.tree.has_backend(Mode::Magic));
}

#[test]
fn ignore_rule_removes_magic_backend_from_shared_tree_node() {
    let config = config(Mode::Ignore, vec![("m", rule(Some(Mode::Magic), &[("system/etc/skip", Mode::Ignore)]))]);
    let module = record("m", &[("system/etc/keep", false), ("system/etc/skip", false)]);

    let result = plan(&[module], &config, &[]);

    assert!(result.tree.find("/system/etc/keep").unwrap().source_for(Mode::Magic).is_some());
    assert!(result.tree.find("/system/etc/skip").unwrap().source_for(Mode::Magic).is_none());
}

#[test]
fn shared_tree_keeps_node_type_replace_and_backend_decision() {
    let config = config(Mode::Overlay, no_rules());
    let mut module = record("m", &[("system/etc", true), ("system/etc/link", false)]);
    module.entries[0].replace = true;
    module.entries[1].file_type = NodeFileType::Symlink;

    let result = plan(&[module], &config, &[]);
    let etc = result.tree.find("/system/etc").unwrap();
    let link = result.tree.find("/system/etc/link").unwrap();

    assert!(etc.replace_for(Mode::Overlay));
    assert_eq!(link.file_type_for(Mode::Overlay), Some(NodeFileType::Symlink));
    assert!(!result.tree.has_backend(Mode::Magic));
}

#[test]
fn replace_directory_rejects_descendant_from_other_backend() {
    let rules = vec![("m", rule(Some(Mode::Magic), &[("system/etc/link", Mode::Overlay)]))];
    let mut module = record("m", &[("system/etc", true), ("system/etc/link", false)]);
    module.entries[0].replace = true;

    let err = plan_err(&[module], &config(Mode::Ignore, rules));
    assert!(err.message().contains(".replace"), "{}", err.message());
}

#[test]
fn overlay_replace_directory_allows_magic_descendant_after_overlay_phase() {
    let rules = vec![("m", rule(Some(Mode::Overlay), &[("system/etc/link", Mode::Magic)]))];
    let mut module = record("m", &[("system/etc", true), ("system/etc/link", false)]);
    module.entries[0].replace = true;

    let result = plan(&[module], &config(Mode::Ignore, rules), &[]);
    assert!(result.tree.find("/system/etc").unwrap().replace_for(Mode::Overlay));
    assert!(result.tree.find("/system/etc/link").unwrap().has_backend(Mode::Magic));
}

#[test]
fn magic_replace_rejects_overlay_descendant_from_another_module() {
    let rules = vec![("magic", rule(Some(Mode::Magic), &[]))];
    let mut magic = record("magic", &[("system/etc", true)]);
    magic.entries[0].replace = true;
    let overlay = record("overlay", &[("system/etc/child", false)]);

    let err = plan_err(&[magic, overlay], &config(Mode::Overlay, rules));
    assert!(err.message().contains(".replace"), "{}", err.message());
}

#[test]
fn disabled_and_skip_mount_modules_are_excluded() {
    let config = config(Mode::Overlay, no_rules());
    let mut disabled = record("off", &[("system/etc/a", false)]);
    disabled.disabled = true;
    let mut skipped = record("skip", &[("system/etc/b", false)]);
    skipped.skip_mount = true;

    let result = plan(&[disabled, skipped], &config, &[]);

    assert!(result.overlay_ops.is_empty());
    assert!(result.overlay_module_ids.is_empty());
}

#[test]
fn map_target_splits_promoted_partitions() {
    let promoted = promoted(&["vendor", "product"]);

    assert_eq!(map_target("system/etc/hosts", &promoted), ("system".to_owned(), "/system/etc/hosts".to_owned()));
    assert_eq!(map_target("system/vendor/lib/x.so", &promoted), ("vendor".to_owned(), "/vendor/lib/x.so".to_owned()));
    assert_eq!(map_target("system/product/app", &promoted), ("product".to_owned(), "/product/app".to_owned()));
    assert_eq!(map_target("vendor/lib/x.so", &promoted), ("vendor".to_owned(), "/vendor/lib/x.so".to_owned()));
}

#[test]
fn vfs_module_is_recorded_in_plan() {
    let module = record("vfs_mod", &[("system/etc/hosts", false)]);
    let result = plan(&[module], &config(Mode::Vfs, no_rules()), &[]);
    assert_eq!(result.vfs_module_ids, vec!["vfs_mod".to_owned()]);
    assert!(result.overlay_module_ids.is_empty());
    assert!(result.magic_module_ids.is_empty());
}

#[test]
fn vfs_default_degrades_to_ignore_without_a_kernel_backend() {
    let module = record("vfs_mod", &[("system/etc/hosts", false)]);
    let result = plan_with_vfs(&[module], &config(Mode::Vfs, no_rules()), &[], false);

    assert!(result.vfs_module_ids.is_empty());
    assert!(result.overlay_module_ids.is_empty());
    assert!(result.magic_module_ids.is_empty());
}

#[test]
fn vfs_path_rule_degrades_to_ignore_without_a_kernel_backend() {
    let rules = vec![("vfs_mod", rule(Some(Mode::Magic), &[("system/etc/hosts", Mode::Vfs)]))];
    let module = record("vfs_mod", &[("system/etc/hosts", false)]);
    let result = plan_with_vfs(&[module], &config(Mode::Overlay, rules), &[], false);

    assert!(result.vfs_module_ids.is_empty());
    assert!(result.magic_module_ids.is_empty());
}

#[test]
fn missing_vfs_backend_keeps_other_backends() {
    let module = record("magic_mod", &[("system/etc/hosts", false)]);
    let result = plan_with_vfs(&[module], &config(Mode::Magic, no_rules()), &[], false);

    assert_eq!(result.magic_module_ids, vec!["magic_mod".to_owned()]);
    assert!(result.vfs_module_ids.is_empty());
}

#[test]
fn vfs_file_under_overlay_directory_is_rejected() {
    let rules = vec![("alpha", rule(Some(Mode::Overlay), &[])), ("beta", rule(Some(Mode::Vfs), &[]))];
    let alpha = record("alpha", &[("system/etc", true)]);
    let beta = record("beta", &[("system/etc/hosts", false)]);
    let err = plan_err(&[alpha, beta], &config(Mode::Magic, rules));
    let Error::PlanConflict { target, first_source, second_source, .. } = err else {
        panic!("unexpected: {}", err.message());
    };
    assert!(first_source.contains("alpha:"), "first_source should name the shadowing module, got: {first_source}");
    assert!(second_source.contains("beta:"), "second_source should name the shadowed module, got: {second_source}");
    assert_eq!(target, "/system/etc/hosts");
}

#[test]
fn vfs_file_without_mounted_ancestor_is_allowed() {
    let rules = vec![("alpha", rule(Some(Mode::Overlay), &[])), ("beta", rule(Some(Mode::Vfs), &[]))];
    let alpha = record("alpha", &[("system/etc/other", true)]);
    let beta = record("beta", &[("system/etc/hosts", false)]);
    let result = plan(&[alpha, beta], &config(Mode::Magic, rules), &[]);
    assert_eq!(result.vfs_module_ids.len(), 1);
}

#[test]
fn vfs_replace_directory_is_allowed() {
    let mut module = record("vfs_replace", &[("system/etc", true)]);
    module.entries[0].replace = true;

    let planned = plan(&[module], &config(Mode::Vfs, no_rules()), &[]);
    assert_eq!(planned.vfs_module_ids.len(), 1);
}

#[test]
fn vfs_replace_subtree_rejects_other_backends() {
    let rules = vec![("vfs_replace", rule(Some(Mode::Vfs), &[("system/etc/hosts", Mode::Overlay)]))];
    let mut module = record("vfs_replace", &[("system/etc", true), ("system/etc/hosts", false)]);
    module.entries[0].replace = true;

    let err = plan_err(&[module], &config(Mode::Vfs, rules));
    assert!(matches!(err, Error::PlanConflict { .. }), "unexpected: {}", err.message());
}

#[test]
fn longest_rule_wins_and_split_keeps_empty_pieces() {
    let config = config(
        Mode::Ignore,
        vec![("m", rule(Some(Mode::Ignore), &[("system", Mode::Magic), ("system/etc", Mode::Overlay), ("system/etcetera", Mode::Vfs)]))],
    );
    let module = record("m", &[("system/etc/hosts", false), ("system/bin/sh", false)]);
    let result = plan(&[module], &config, &[]);
    assert!(result.tree.find("/system/etc/hosts").unwrap().source_for(Mode::Overlay).is_some());
    assert!(result.tree.find("/system/bin/sh").unwrap().source_for(Mode::Magic).is_some());
    assert!(result.vfs_module_ids.is_empty());
    assert_eq!(map_target("vendor//x", &promoted(&["vendor"])), ("vendor".to_owned(), "/vendor//x".to_owned()));
    assert_eq!(map_target("system/odm", &promoted(&["vendor"])), ("system".to_owned(), "/system/odm".to_owned()));
}

#[test]
fn every_planned_entry_of_an_overlay_only_plan_stands_in_the_tree() {
    let config = config(Mode::Overlay, no_rules());
    let alpha = record("alpha", &[("system/etc", true), ("system/etc/hosts", false)]);
    let beta = record("beta", &[("vendor/lib", true)]);

    let result = plan(&[alpha, beta], &config, &[]);

    for (target, module) in [("/system/etc", "alpha"), ("/system/etc/hosts", "alpha"), ("/vendor/lib", "beta")] {
        let node = result.tree.find(target).unwrap();
        let source = node.source_for(Mode::Overlay).unwrap();
        assert_eq!(source.module_id, module);
    }
    assert!(!result.tree.has_backend(Mode::Magic));
}

#[test]
fn shared_overlay_target_lists_one_layer_per_module_in_id_order() {
    let config = config(Mode::Overlay, no_rules());
    let modules = [
        record("zeta", &[("system/etc", true), ("system/etc/hosts", false)]),
        record("alpha", &[("system/etc", true), ("system/build.prop", false)]),
    ];

    let result = plan(&modules, &config, &[]);

    assert_eq!(result.overlay_ops.len(), 1);
    assert_eq!(result.overlay_ops[0].target, "/system/etc");
    assert_eq!(
        result.overlay_ops[0].lowerdirs,
        vec!["/data/adb/modules/alpha/system/etc".to_owned(), "/data/adb/modules/zeta/system/etc".to_owned()]
    );
    assert_eq!(result.overlay_files.len(), 1);
    assert_eq!(result.overlay_files[0].0, "/system");
    assert_eq!(result.overlay_files[0].1, vec!["/data/adb/modules/alpha/system/build.prop".to_owned()]);
    assert_eq!(result.overlay_module_ids, vec!["alpha", "zeta"]);
}
