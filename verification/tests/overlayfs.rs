use hybrid_mount::overlayfs::overlayfs::{
    child_relative_path, escape_mount_option_value, plan_staging_chunks, take_staging_chunk,
    MAX_LAYERS,
};

fn layer(n: usize) -> String {
    format!("/layer{n}")
}

#[test]
fn escape_mount_option_value_escapes_overlay_separators() {
    assert_eq!(escape_mount_option_value("/a,b:/c\\d"), "/a\\,b\\:/c\\\\d");
}

#[test]
fn escaped_lowerdir_preserves_layer_separators() {
    let lower_dirs = ["/a,b".to_owned(), "/c:d".to_owned(), "/e\\f".to_owned()];
    let lowerdir = lower_dirs
        .iter()
        .map(|path| escape_mount_option_value(path))
        .collect::<Vec<_>>()
        .join(":");

    assert_eq!(lowerdir, "/a\\,b:/c\\:d:/e\\\\f");
}

#[test]
fn layers_within_limit_need_no_staging() {
    let layers: Vec<String> = (0..MAX_LAYERS).map(layer).collect();
    assert!(plan_staging_chunks(&layers).is_empty());
}

#[test]
fn one_extra_layer_splits_one_chunk() {
    let layers: Vec<String> = (0..MAX_LAYERS + 1).map(layer).collect();
    let chunks = plan_staging_chunks(&layers);

    assert_eq!(chunks.len(), 1);
    assert_eq!(chunks[0].remaining_layers, 2);
    assert_eq!(chunks[0].layers.len(), MAX_LAYERS - 1);
    assert_eq!(chunks[0].layers[0], layer(2));
}

#[test]
fn many_layers_split_repeatedly() {
    let layers: Vec<String> = (0..MAX_LAYERS * 2).map(layer).collect();
    let chunks = plan_staging_chunks(&layers);

    assert_eq!(chunks.len(), 2);
    assert_eq!(chunks[0].remaining_layers, MAX_LAYERS + 1);
    assert_eq!(chunks[0].layers.len(), MAX_LAYERS - 1);
    assert_eq!(chunks[1].remaining_layers, 2);
    assert_eq!(chunks[1].layers.len(), MAX_LAYERS - 1);
}

#[test]
fn child_relative_path_computes_suffix() {
    assert_eq!(
        child_relative_path("/system", "/system/priv-app"),
        Some("/priv-app".to_owned())
    );
    assert_eq!(child_relative_path("/system", "/system"), None);
    assert_eq!(child_relative_path("/system", "/product"), None);
    assert_eq!(child_relative_path("/system", "/system_ext/app"), None);
}

#[test]
fn staging_reduction_keeps_each_overlay_within_kernel_layer_limit() {
    let mut layers = (0..131).map(|index| format!("layer-{index}")).collect();
    let mut chunks = Vec::new();

    while let Some(chunk) = take_staging_chunk(&mut layers) {
        assert!(chunk.len() <= MAX_LAYERS);
        chunks.push(chunk);
        layers.push(format!("staging-{}", chunks.len()));
    }

    assert_eq!(chunks.len(), 2);
    assert!(chunks.iter().all(|chunk| chunk.len() == MAX_LAYERS - 1));
    assert_eq!(layers.len(), 7);
    assert!(layers.len() <= MAX_LAYERS);
}

#[test]
fn escaping_leaves_plain_paths_unchanged() {
    assert_eq!(escape_mount_option_value("/data/adb/modules/a"), "/data/adb/modules/a");
    assert_eq!(escape_mount_option_value(""), "");
}

#[test]
fn child_relative_path_of_root_slash_paths() {
    assert_eq!(child_relative_path("/system", "/system/etc/hosts"), Some("/etc/hosts".to_owned()));
    assert_eq!(child_relative_path("/system/etc", "/system"), None);
}
