use hybrid_mount::config::Mode;
use hybrid_mount::mount_tree::{MountSource, MountTree, NodeFileType};
use hybrid_mount::staging::overlay_staging_steps;
use hybrid_mount::test_support::mount_source_at;

fn source(relative: &str, file_type: NodeFileType, backend: Mode) -> MountSource {
    mount_source_at("m", relative, file_type, backend, format!("/modules/m/{relative}"))
}

#[test]
fn shared_tree_staging_keeps_overlay_nodes_and_excludes_magic_nodes() {
    let mut tree = MountTree::default();
    tree.insert("/system/etc", source("system/etc", NodeFileType::Directory, Mode::Overlay));
    tree.insert("/system/etc/overlay.conf", source("system/etc/overlay.conf", NodeFileType::RegularFile, Mode::Overlay));
    tree.insert("/system/etc/overlay.link", source("system/etc/overlay.link", NodeFileType::Symlink, Mode::Overlay));
    tree.insert("/system/etc/magic.conf", source("system/etc/magic.conf", NodeFileType::RegularFile, Mode::Magic));

    let steps = overlay_staging_steps(&tree);
    let relatives: Vec<&str> = steps.iter().map(|step| step.relative.as_str()).collect();
    assert!(relatives.contains(&"system/etc/overlay.conf"));
    assert!(relatives.contains(&"system/etc/overlay.link"));
    assert!(!relatives.contains(&"system/etc/magic.conf"));
    assert_eq!(steps.iter().filter(|step| step.file_type == NodeFileType::RegularFile).count(), 1);
    assert_eq!(steps.iter().filter(|step| step.file_type == NodeFileType::Symlink).count(), 1);
    assert_eq!(steps[0].relative, "system/etc");
    assert!(steps.iter().all(|step| step.module_id == "m"));
}

#[test]
fn replaced_directories_are_staged_opaque() {
    let mut tree = MountTree::default();
    let mut dir = source("system/app", NodeFileType::Directory, Mode::Overlay);
    dir.replace = true;
    tree.insert("/system/app", dir);
    let mut file = source("system/app/x.apk", NodeFileType::RegularFile, Mode::Overlay);
    file.replace = true;
    tree.insert("/system/app/x.apk", file);

    let steps = overlay_staging_steps(&tree);
    assert_eq!(steps.len(), 2);
    assert!(steps[0].opaque);
    assert_eq!(steps[0].source_path, "/modules/m/system/app");
    assert!(!steps[1].opaque);
}
