use hybrid_mount::mount_tree::NodeFileType;
use hybrid_mount::scanner::{
    entry_relative, parse_prop, scan_partitions, sort_entries, sort_modules, validate_module_id,
    ModuleEntry, ModuleRecord, ModuleScan,
};

fn scan(path: &str) -> ModuleScan {
    ModuleScan {
        source_path: path.to_owned(),
        disabled: false,
        skip_mount: false,
        has_mount_files: true,
        entries: Vec::new(),
    }
}

fn pairs(items: &[(&str, &str)]) -> Vec<(String, String)> {
    items
        .iter()
        .map(|(k, v)| ((*k).to_owned(), (*v).to_owned()))
        .collect()
}

#[test]
fn prop_lines_are_trimmed_and_comments_skipped() {
    let props = parse_prop("# comment\n id = demo \nname=Demo Module\r\n\nbroken line\nversion=v1=2\n");
    assert_eq!(
        props,
        pairs(&[("id", "demo"), ("name", "Demo Module"), ("version", "v1=2")])
    );
}

#[test]
fn later_prop_line_overrides_earlier_one() {
    let props = parse_prop("name=first\nname=second");
    assert_eq!(props, pairs(&[("name", "second")]));
}

#[test]
fn prop_keys_are_listed_in_order() {
    let props = parse_prop("version=1\nauthor=A\nid=x");
    assert_eq!(props, pairs(&[("author", "A"), ("id", "x"), ("version", "1")]));
}

#[test]
fn module_ids_start_with_a_letter() {
    assert!(validate_module_id("hosts").is_ok());
    assert!(validate_module_id("adb-ndk").is_ok());
    assert!(validate_module_id("a_mod.v2").is_ok());
    assert!(validate_module_id("1bad")
        .unwrap_err()
        .message()
        .contains("Invalid module ID"));
    assert!(validate_module_id("x").is_err());
    assert!(validate_module_id("../evil").is_err());
    assert!(validate_module_id("with space").is_err());
}

#[test]
fn complete_prop_gives_a_record() {
    let props = parse_prop("id=a_mod\nname=N\nversion=1\nauthor=A\ndescription=D\n");
    let record = ModuleRecord::from_prop(&props, scan("/data/adb/modules/a_mod")).unwrap();
    assert_eq!(record.id, "a_mod");
    assert_eq!(record.name, "N");
    assert_eq!(record.description, "D");
    assert_eq!(record.source_path, "/data/adb/modules/a_mod");
    assert!(record.mountable());
}

#[test]
fn missing_required_prop_field_gives_no_record() {
    let props = parse_prop("id=bad\n");
    assert!(ModuleRecord::from_prop(&props, scan("/data/adb/modules/bad")).is_none());
}

#[test]
fn invalid_prop_id_gives_no_record() {
    let props = parse_prop("id=1bad\nname=N\nversion=1\nauthor=A\ndescription=D\n");
    assert!(ModuleRecord::from_prop(&props, scan("/data/adb/modules/1bad")).is_none());
}

#[test]
fn disabled_and_skipped_modules_are_not_mountable() {
    let props = parse_prop("id=off\nname=N\nversion=1\nauthor=A\ndescription=D\n");
    let mut s = scan("/m/off");
    s.disabled = true;
    assert!(!ModuleRecord::from_prop(&props, s).unwrap().mountable());
    let mut s = scan("/m/off");
    s.skip_mount = true;
    assert!(!ModuleRecord::from_prop(&props, s).unwrap().mountable());
    let mut s = scan("/m/off");
    s.has_mount_files = false;
    assert!(!ModuleRecord::from_prop(&props, s).unwrap().mountable());
}

#[test]
fn scan_partitions_always_include_system_once() {
    assert_eq!(scan_partitions(&[]), vec!["system".to_owned()]);
    assert_eq!(
        scan_partitions(&["vendor".to_owned(), "system".to_owned(), "product".to_owned()]),
        vec!["product".to_owned(), "system".to_owned(), "vendor".to_owned()]
    );
}

#[test]
fn entry_paths_are_prefixed_with_their_partition() {
    assert_eq!(
        entry_relative("product", &["app".to_owned(), "x.apk".to_owned()]),
        "product/app/x.apk"
    );
}

fn entry(relative: &str) -> ModuleEntry {
    ModuleEntry {
        relative: relative.to_owned(),
        file_type: NodeFileType::RegularFile,
        replace: false,
    }
}

#[test]
fn entries_and_modules_are_sorted() {
    let sorted = sort_entries(vec![
        entry("system/etc/hosts"),
        entry("system/bin"),
        entry("system/etc"),
    ]);
    let names: Vec<&str> = sorted.iter().map(|e| e.relative.as_str()).collect();
    assert_eq!(names, vec!["system/bin", "system/etc", "system/etc/hosts"]);

    let props_b = parse_prop("id=b_mod\nname=N\nversion=1\nauthor=A\ndescription=D\n");
    let props_a = parse_prop("id=a_mod\nname=N\nversion=1\nauthor=A\ndescription=D\n");
    let modules = sort_modules(vec![
        ModuleRecord::from_prop(&props_b, scan("/m/b_mod")).unwrap(),
        ModuleRecord::from_prop(&props_a, scan("/m/a_mod")).unwrap(),
    ]);
    assert_eq!(modules[0].id, "a_mod");
    assert_eq!(modules[1].id, "b_mod");
}
