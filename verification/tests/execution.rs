use hybrid_mount::errors::Error;
use hybrid_mount::execution::{
    build_overlay_execution_plan, confirmed_mount_targets, mount_resources, overlay_storage_sizing_paths,
    overlay_target_ancestors, resolve_overlay_directory_target, shallow_structural_dirs,
    OverlayDirectoryTarget, OverlayExecutionPlan, PathProbe, ShallowOverlaySource,
};
use hybrid_mount::plan::planner::{MountPlan, OverlayOperation};
use hybrid_mount::scanner::ModuleRecord;
use hybrid_mount::sys::mountinfo::MountSnapshot;

fn module(id: &str, source_path: &str) -> ModuleRecord {
    ModuleRecord {
        id: id.to_owned(),
        name: "Overlay".to_owned(),
        version: "1".to_owned(),
        author: "a".to_owned(),
        description: "d".to_owned(),
        disabled: false,
        skip_mount: false,
        has_mount_files: true,
        source_path: source_path.to_owned(),
        entries: Vec::new(),
    }
}

fn source(source: &str, relative: &str) -> ShallowOverlaySource {
    ShallowOverlaySource {
        source: source.to_owned(),
        destination_relative: relative.to_owned(),
    }
}

fn missing(mount_target: &str, relative: &str) -> OverlayDirectoryTarget {
    OverlayDirectoryTarget::Missing {
        mount_target: mount_target.to_owned(),
        destination_relative: relative.to_owned(),
    }
}

#[test]
fn overlay_storage_sizing_counts_each_shallow_source_again() {
    let module_root = "/data/adb/modules/overlay_mod";
    let shallow_source = "/data/adb/modules/overlay_mod/system/priv-app/large.apk";
    let modules = [module("overlay_mod", module_root)];
    let plan = MountPlan {
        overlay_module_ids: vec!["overlay_mod".to_owned()],
        ..MountPlan::default()
    };
    let execution_plan = OverlayExecutionPlan {
        direct_operations: Vec::new(),
        shallow: vec![(
            "/system/priv-app".to_owned(),
            vec![source(shallow_source, "large.apk")],
        )],
    };

    assert_eq!(
        overlay_storage_sizing_paths(&modules, &plan, &execution_plan),
        vec![module_root.to_owned(), shallow_source.to_owned()]
    );
}

#[test]
fn sizing_skips_modules_outside_the_overlay_backend() {
    let modules = [module("a", "/m/a"), module("b", "/m/b")];
    let plan = MountPlan {
        overlay_module_ids: vec!["b".to_owned()],
        ..MountPlan::default()
    };
    let execution_plan = OverlayExecutionPlan {
        direct_operations: Vec::new(),
        shallow: Vec::new(),
    };
    assert_eq!(
        overlay_storage_sizing_paths(&modules, &plan, &execution_plan),
        vec!["/m/b".to_owned()]
    );
}

#[test]
fn existing_overlay_directory_stays_direct() {
    let target = "/fixture/product/fonts";
    let ancestors = overlay_target_ancestors(target);
    let mut probes = vec![PathProbe::Directory];
    probes.extend(ancestors.iter().map(|_| PathProbe::Directory));

    assert_eq!(
        resolve_overlay_directory_target(target, &probes).unwrap(),
        OverlayDirectoryTarget::Existing
    );
}

#[test]
fn missing_overlay_directory_uses_nearest_existing_parent() {
    let target = "/fixture/product/fonts/google";
    let ancestors = overlay_target_ancestors(target);
    assert_eq!(
        ancestors,
        vec![
            "/fixture/product/fonts".to_owned(),
            "/fixture/product".to_owned(),
            "/fixture".to_owned(),
        ]
    );
    let probes = vec![
        PathProbe::Missing,
        PathProbe::Missing,
        PathProbe::Directory,
        PathProbe::Directory,
    ];

    assert_eq!(
        resolve_overlay_directory_target(target, &probes).unwrap(),
        missing("/fixture/product", "fonts/google")
    );
}

#[test]
fn non_directory_overlay_target_is_rejected() {
    let target = "/fixture/product/fonts";
    let probes = vec![
        PathProbe::NotDirectory,
        PathProbe::Directory,
        PathProbe::Directory,
    ];

    let err = resolve_overlay_directory_target(target, &probes).unwrap_err();
    assert!(err.message().contains("not a directory"), "{}", err.message());
}

#[test]
fn relative_overlay_target_is_rejected() {
    let err = resolve_overlay_directory_target("system/fonts", &[PathProbe::Missing, PathProbe::Missing])
        .unwrap_err();
    assert_eq!(err.message(), "overlay target is not absolute: system/fonts");
}

#[test]
fn overlay_target_without_existing_ancestor_is_rejected() {
    let err = resolve_overlay_directory_target("/a/b", &[PathProbe::Missing, PathProbe::Missing])
        .unwrap_err();
    assert_eq!(
        err.message(),
        "overlay target has no existing non-root ancestor: /a/b"
    );
}

#[test]
fn failed_ancestor_inspection_is_reported() {
    let probes = vec![
        PathProbe::Missing,
        PathProbe::NotDirectory,
        PathProbe::Failed {
            detail: "permission denied".to_owned(),
        },
    ];
    let err = resolve_overlay_directory_target("/a/b/c", &probes).unwrap_err();
    assert_eq!(err.message(), "inspect overlay ancestor /a: permission denied");
}

#[test]
fn root_level_targets_have_no_ancestor_below_root() {
    assert!(overlay_target_ancestors("/system").is_empty());
}

fn plan_with(files: Vec<(&str, Vec<&str>)>, ops: Vec<(&str, Vec<&str>)>) -> MountPlan {
    MountPlan {
        overlay_files: files
            .into_iter()
            .map(|(target, sources)| {
                (
                    target.to_owned(),
                    sources.into_iter().map(str::to_owned).collect(),
                )
            })
            .collect(),
        overlay_ops: ops
            .into_iter()
            .map(|(target, lowerdirs)| OverlayOperation {
                partition: "system".to_owned(),
                target: target.to_owned(),
                lowerdirs: lowerdirs.into_iter().map(str::to_owned).collect(),
            })
            .collect(),
        ..MountPlan::default()
    }
}

#[test]
fn execution_plan_keeps_existing_operations_direct_and_groups_the_rest() {
    let plan = plan_with(
        vec![("/system/etc", vec!["/m/b/system/etc/hosts", "/m/a/system/etc/hosts"])],
        vec![
            ("/system/bin", vec!["/m/a/system/bin"]),
            ("/product/fonts/google", vec!["/m/a/product/fonts/google"]),
        ],
    );
    let execution = build_overlay_execution_plan(
        &plan,
        &[Ok(OverlayDirectoryTarget::Existing)],
        &[
            Ok(OverlayDirectoryTarget::Existing),
            Ok(missing("/product", "fonts/google")),
        ],
    )
    .unwrap();

    assert_eq!(execution.direct_operations, vec![0]);
    assert_eq!(
        execution.shallow,
        vec![
            (
                "/product".to_owned(),
                vec![source("/m/a/product/fonts/google", "fonts/google")],
            ),
            (
                "/system/etc".to_owned(),
                vec![
                    source("/m/a/system/etc/hosts", "hosts"),
                    source("/m/b/system/etc/hosts", "hosts"),
                ],
            ),
        ]
    );
}

#[test]
fn rerouted_file_targets_land_below_the_missing_directories() {
    let plan = plan_with(
        vec![("/product/overlay/extra", vec!["/m/a/product/overlay/extra/x.apk"])],
        vec![],
    );
    let execution = build_overlay_execution_plan(
        &plan,
        &[Ok(missing("/product", "overlay/extra"))],
        &[],
    )
    .unwrap();
    assert_eq!(
        execution.shallow,
        vec![(
            "/product".to_owned(),
            vec![source("/m/a/product/overlay/extra/x.apk", "overlay/extra/x.apk")],
        )]
    );
}

#[test]
fn execution_plan_reports_the_first_failure_in_plan_order() {
    let plan = plan_with(
        vec![("/system/etc", vec!["/m/a/system/etc/.."])],
        vec![("/system/bin", vec!["/m/a/system/bin"])],
    );
    let err = build_overlay_execution_plan(
        &plan,
        &[Ok(OverlayDirectoryTarget::Existing)],
        &[Err(Error::msg("inspect overlay target /system/bin: io".to_owned()))],
    )
    .unwrap_err();
    assert_eq!(
        err.message(),
        "overlay file source has no file name: /m/a/system/etc/.."
    );

    let plan = plan_with(vec![], vec![("/system/bin", vec!["/m/a/system/bin"])]);
    let err = build_overlay_execution_plan(
        &plan,
        &[],
        &[Err(Error::msg("inspect overlay target /system/bin: io".to_owned()))],
    )
    .unwrap_err();
    assert_eq!(err.message(), "inspect overlay target /system/bin: io");
}

#[test]
fn shallow_destination_creates_each_parent_directory() {
    assert_eq!(
        shallow_structural_dirs("fonts/google/a.ttf").unwrap(),
        vec!["fonts".to_owned(), "fonts/google".to_owned()]
    );
    assert!(shallow_structural_dirs("hosts").unwrap().is_empty());
}

#[test]
fn unsafe_shallow_destinations_are_refused() {
    assert_eq!(
        shallow_structural_dirs("").unwrap_err().message(),
        "invalid shallow overlay destination: "
    );
    assert_eq!(
        shallow_structural_dirs("/etc/hosts").unwrap_err().message(),
        "invalid shallow overlay destination: /etc/hosts"
    );
    assert_eq!(
        shallow_structural_dirs("../etc/hosts").unwrap_err().message(),
        "unsafe shallow overlay destination: ../etc/hosts"
    );
    assert_eq!(
        shallow_structural_dirs("./etc/hosts").unwrap_err().message(),
        "unsafe shallow overlay destination: ./etc/hosts"
    );
}

#[test]
fn mount_resources_follow_the_plan() {
    let empty = MountPlan::default();
    let r = mount_resources(&empty, true);
    assert!(!r.overlay_storage && !r.runtime_temp && !r.retain_runtime);

    let magic_only = MountPlan {
        magic_module_ids: vec!["m".to_owned()],
        ..MountPlan::default()
    };
    let r = mount_resources(&magic_only, true);
    assert!(!r.overlay_storage && r.runtime_temp && !r.retain_runtime);

    let overlay = plan_with(vec![("/system/etc", vec!["/m/a/system/etc/hosts"])], vec![]);
    assert!(mount_resources(&overlay, true).retain_runtime);
    assert!(!mount_resources(&overlay, false).retain_runtime);
}

#[test]
fn only_targets_in_the_mount_table_are_confirmed() {
    let snapshot = MountSnapshot::from_paths(vec!["/system".to_owned(), "/vendor/etc".to_owned()]);
    let targets = vec![
        "/vendor/etc".to_owned(),
        "/product".to_owned(),
        "/system".to_owned(),
    ];
    assert_eq!(
        confirmed_mount_targets(&targets, &snapshot),
        vec!["/vendor/etc".to_owned(), "/system".to_owned()]
    );
}
