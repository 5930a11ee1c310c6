use std::collections::BTreeSet;

use hybrid_mount::config::Mode;
use hybrid_mount::mount_tree::{MountSource, MountTree, NodeFileType};
use hybrid_mount::test_support::{mount_source, mount_source_at};

fn source(module: &str, relative: &str, file_type: NodeFileType, backend: Mode) -> MountSource {
    mount_source_at(module, relative, file_type, backend, format!("/modules/{module}/{relative}"))
}

fn ids(list: Vec<String>) -> BTreeSet<String> {
    list.into_iter().collect()
}

#[test]
fn one_target_keeps_all_overlay_layers_in_module_order() {
    let mut tree = MountTree::default();
    tree.insert(
        "/system/etc/hosts",
        source("z_mod", "system/etc/hosts", NodeFileType::RegularFile, Mode::Overlay),
    );
    tree.insert(
        "/system/etc/hosts",
        source("a_mod", "system/etc/hosts", NodeFileType::RegularFile, Mode::Overlay),
    );

    let node = tree.find("/system/etc/hosts").unwrap();
    assert_eq!(node.sources[0].module_id, "a_mod");
    assert_eq!(node.sources[1].module_id, "z_mod");
    assert_eq!(node.file_type_for(Mode::Overlay), Some(NodeFileType::RegularFile));
}

#[test]
fn backend_descendant_keeps_shared_structural_ancestors() {
    let mut tree = MountTree::default();
    tree.insert("/system/etc", source("base", "system/etc", NodeFileType::Directory, Mode::Ignore));
    tree.insert(
        "/system/etc/hosts",
        source("base", "system/etc/hosts", NodeFileType::Symlink, Mode::Magic),
    );

    let etc = tree.find("/system/etc").unwrap();
    assert!(etc.has_backend(Mode::Magic));
    assert_eq!(etc.file_type_for(Mode::Magic), Some(NodeFileType::Directory));
    assert_eq!(etc.module_path_for(Mode::Magic), Some("/modules/base/system/etc"));
}

#[test]
fn synthetic_partition_parent_gets_a_structural_source_path() {
    let mut tree = MountTree::default();
    tree.insert(
        "/system/new_dir/file",
        source("base", "system/new_dir/file", NodeFileType::RegularFile, Mode::Magic),
    );

    assert_eq!(
        tree.find("/system").unwrap().module_path_for(Mode::Magic),
        Some("/modules/base/system")
    );
}

#[test]
fn replace_and_whiteout_are_backend_annotated_node_data() {
    let mut tree = MountTree::default();
    let mut directory = source("m", "system/etc", NodeFileType::Directory, Mode::Overlay);
    directory.replace = true;
    tree.insert("/system/etc", directory);
    tree.insert(
        "/system/etc/removed",
        source("m", "system/etc/removed", NodeFileType::Whiteout, Mode::Overlay),
    );

    assert!(tree.find("/system/etc").unwrap().replace_for(Mode::Overlay));
    assert_eq!(
        tree.find("/system/etc/removed").unwrap().file_type_for(Mode::Overlay),
        Some(NodeFileType::Whiteout)
    );
    assert_eq!(ids(tree.module_ids_for(Mode::Overlay)), BTreeSet::from(["m".to_string()]));
}

#[test]
fn target_module_ids_report_only_that_node_sources() {
    let mut tree = MountTree::default();
    tree.insert("/system/etc", source("alpha", "system/etc", NodeFileType::Directory, Mode::Overlay));
    tree.insert(
        "/system/etc/hosts",
        source("beta", "system/etc/hosts", NodeFileType::RegularFile, Mode::Overlay),
    );

    assert_eq!(
        ids(tree.module_ids_for_target(Mode::Overlay, "/system/etc")),
        BTreeSet::from(["alpha".to_string()])
    );
    assert_eq!(
        ids(tree.module_ids_for_target(Mode::Overlay, "/system/etc/hosts")),
        BTreeSet::from(["beta".to_string()])
    );
}

#[test]
fn node_count_includes_root_and_all_descendants() {
    let mut tree = MountTree::default();
    assert_eq!(tree.node_count(), 1);
    tree.insert(
        "/system/etc/hosts",
        source("m", "system/etc/hosts", NodeFileType::RegularFile, Mode::Overlay),
    );

    assert_eq!(tree.node_count(), 4);
}

#[test]
fn subtree_module_ids_collect_backend_descendants() {
    let mut tree = MountTree::default();
    tree.insert("/system/etc/a", source("alpha", "system/etc/a", NodeFileType::RegularFile, Mode::Overlay));
    tree.insert("/system/etc/b", source("beta", "system/etc/b", NodeFileType::RegularFile, Mode::Overlay));

    assert_eq!(
        ids(tree.module_ids_for_subtree(Mode::Overlay, "/system/etc")),
        BTreeSet::from(["alpha".to_string(), "beta".to_string()])
    );
}

#[test]
fn promoted_partition_records_its_module_directory_on_each_level() {
    let mut tree = MountTree::default();
    tree.insert(
        " /vendor/etc/x ",
        mount_source("m", "system/vendor/etc/x", NodeFileType::RegularFile, Mode::Magic),
    );
    let vendor = tree.find("vendor").unwrap();
    assert_eq!(vendor.structural_sources.len(), 1);
    assert_eq!(vendor.structural_sources[0].source_path, "/data/adb/modules/m/system/vendor");
    let etc = tree.find("/vendor//etc/").unwrap();
    assert_eq!(etc.structural_sources[0].source_path, "/data/adb/modules/m/system/vendor/etc");
    assert!(tree.find("/vendor/etc/x").unwrap().structural_sources.is_empty());
    assert!(tree.find("/system").is_none());
    assert_eq!(tree.node_count(), 4);
    assert!(!tree.has_backend(Mode::Overlay));
    assert!(tree.has_backend(Mode::Magic));
    assert_eq!(NodeFileType::Whiteout.as_str(), "Whiteout");
}

#[test]
fn children_stay_ordered_by_name() {
    let mut tree = MountTree::default();
    for name in ["c", "a", "b", "a"] {
        tree.insert(
            &format!("/system/{name}"),
            mount_source("m", &format!("system/{name}"), NodeFileType::RegularFile, Mode::Overlay),
        );
    }
    let system = tree.find("/system").unwrap();
    let names: Vec<&str> = system.children.iter().map(|child| child.name.as_str()).collect();
    assert_eq!(names, vec!["a", "b", "c"]);
    assert_eq!(tree.find("/system/a").unwrap().sources.len(), 2);
}

#[test]
fn backend_presence_matches_module_ids_and_root_subtree() {
    let mut tree = MountTree::default();
    tree.insert("/system/etc", source("alpha", "system/etc", NodeFileType::Directory, Mode::Overlay));
    tree.insert("/vendor/lib", source("beta", "vendor/lib", NodeFileType::Directory, Mode::Magic));
    for backend in [Mode::Overlay, Mode::Magic, Mode::Vfs] {
        let ids_all = tree.module_ids_for(backend);
        assert_eq!(tree.has_backend(backend), !ids_all.is_empty());
        assert_eq!(ids_all, tree.module_ids_for_subtree(backend, "/"));
    }
    assert!(!tree.has_backend(Mode::Vfs));
}

#[test]
fn later_inserts_keep_earlier_targets() {
    let mut tree = MountTree::default();
    tree.insert("/system/etc", source("alpha", "system/etc", NodeFileType::Directory, Mode::Overlay));
    tree.insert("/system/bin", source("beta", "system/bin", NodeFileType::Directory, Mode::Overlay));
    tree.insert("/system/etc/hosts", source("gamma", "system/etc/hosts", NodeFileType::RegularFile, Mode::Overlay));
    assert_eq!(ids(tree.module_ids_for_target(Mode::Overlay, "/system/etc")), ids(vec!["alpha".to_owned()]));
    assert_eq!(ids(tree.module_ids_for_target(Mode::Overlay, "/system/bin")), ids(vec!["beta".to_owned()]));
    assert_eq!(ids(tree.module_ids_for_target(Mode::Overlay, "/system/etc/hosts")), ids(vec!["gamma".to_owned()]));
}

#[test]
fn insert_sorts_the_whole_source_list() {
    let mut tree = MountTree::default();
    tree.root.sources = vec![
        source("b", "system", NodeFileType::Directory, Mode::Overlay),
        source("a", "system", NodeFileType::Directory, Mode::Overlay),
    ];
    tree.insert("/", source("c", "system", NodeFileType::Directory, Mode::Overlay));
    let ids: Vec<&str> = tree.root.sources.iter().map(|s| s.module_id.as_str()).collect();
    assert_eq!(ids, vec!["a", "b", "c"]);
}

#[test]
fn insert_touches_only_the_subtrees_on_its_path() {
    let mut tree = MountTree::default();
    tree.insert("/system/etc/a", source("alpha", "system/etc/a", NodeFileType::RegularFile, Mode::Overlay));
    tree.insert("/vendor/lib/b", source("beta", "vendor/lib/b", NodeFileType::RegularFile, Mode::Overlay));

    assert_eq!(ids(tree.module_ids_for_subtree(Mode::Overlay, "/system")), ids(vec!["alpha".to_string()]));
    assert_eq!(ids(tree.module_ids_for_subtree(Mode::Overlay, "/vendor/lib")), ids(vec!["beta".to_string()]));
    assert_eq!(
        ids(tree.module_ids_for_subtree(Mode::Overlay, "/")),
        ids(vec!["alpha".to_string(), "beta".to_string()])
    );
    let names: Vec<String> = tree.root.children.iter().map(|c| c.name.clone()).collect();
    assert_eq!(names, vec!["system".to_string(), "vendor".to_string()]);
}

#[test]
fn whole_tree_ids_equal_the_root_subtree_ids() {
    let mut tree = MountTree::default();
    tree.insert("/system/etc/a", source("zeta", "system/etc/a", NodeFileType::RegularFile, Mode::Overlay));
    tree.insert("/vendor/b", source("alpha", "vendor/b", NodeFileType::RegularFile, Mode::Overlay));
    tree.insert("/odm/c", source("mid", "odm/c", NodeFileType::RegularFile, Mode::Magic));

    assert_eq!(tree.module_ids_for(Mode::Overlay), tree.module_ids_for_subtree(Mode::Overlay, "/"));
    assert_eq!(tree.module_ids_for(Mode::Overlay), vec!["alpha".to_string(), "zeta".to_string()]);
}
