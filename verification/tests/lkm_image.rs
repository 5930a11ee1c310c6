use std::cell::Cell;

use hybrid_mount::sys::lkm_image::{load_with_vermagic_retry, InsertError, ModuleImage};
use object::write::{Object as WriteObject, Symbol, SymbolSection};
use object::{Architecture, BinaryFormat, Endianness, Object, ObjectSymbol, SectionKind, SymbolFlags, SymbolKind, SymbolScope};

const VERMAGIC: &str = "5.15.0-android13 SMP preempt mod_unload modversions aarch64";

/// A small AArch64 relocatable module shaped like a packaged `.ko`: a
/// `.modinfo` section and undefined kernel symbols.
fn module_image() -> Vec<u8> {
    let mut obj = WriteObject::new(BinaryFormat::Elf, Architecture::Aarch64, Endianness::Little);
    let text = obj.add_section(Vec::new(), b".text".to_vec(), SectionKind::Text);
    obj.append_section_data(text, &[0u8; 16], 4);
    let modinfo = obj.add_section(Vec::new(), b".modinfo".to_vec(), SectionKind::ReadOnlyData);
    let metadata = format!("license=GPL\0author=hybrid\0name=hybridmount\0vermagic={VERMAGIC}\0");
    obj.append_section_data(modinfo, metadata.as_bytes(), 8);
    for name in ["kern_path", "filp_open"] {
        obj.add_symbol(Symbol {
            name: name.as_bytes().to_vec(),
            value: 0,
            size: 0,
            kind: SymbolKind::Text,
            scope: SymbolScope::Dynamic,
            weak: false,
            section: SymbolSection::Undefined,
            flags: SymbolFlags::None,
        });
    }
    obj.write().unwrap()
}

fn os_error(code: i32) -> InsertError {
    InsertError { os_code: Some(code), text: std::io::Error::from_raw_os_error(code).to_string() }
}

fn entries(modinfo: &[u8]) -> Vec<Vec<u8>> {
    modinfo.split(|b| *b == 0).map(|entry| entry.to_vec()).collect()
}

#[test]
fn resolves_core_symbols_without_using_hidden_or_module_owned_addresses() {
    let module = module_image();
    let mut image = ModuleImage::parse(module.clone()).unwrap();
    let kallsyms = "0000000000000000 T kern_path\nffff800000001000 T kern_path [other_driver]\nffff800000002000 T kern_path.llvm.123\nffff800000003000 T kern_path\n";
    assert_eq!(image.resolve_symbols(kallsyms).unwrap(), 1);
    let file = object::File::parse(image.bytes.as_slice()).unwrap();
    let symbol = file.symbols().find(|s| s.name() == Ok("kern_path")).unwrap();
    assert_eq!(symbol.address(), 0xffff800000003000);
    assert_eq!(symbol.section(), object::SymbolSection::Absolute);
}

#[test]
fn ambiguous_symbols_are_left_for_the_kernel_to_resolve() {
    let module = module_image();
    let mut image = ModuleImage::parse(module.clone()).unwrap();
    assert_eq!(
        image.resolve_symbols("ffff800000001000 T kern_path\nffff800000002000 T kern_path\n").unwrap(),
        0
    );
    assert_eq!(image.bytes, module);
}

#[test]
fn suffixed_names_resolve_when_no_exact_name_is_listed() {
    let mut image = ModuleImage::parse(module_image()).unwrap();
    assert_eq!(image.resolve_symbols("ffff800000002000 T filp_open$bc12\n").unwrap(), 1);
    let file = object::File::parse(image.bytes.as_slice()).unwrap();
    let symbol = file.symbols().find(|s| s.name() == Ok("filp_open")).unwrap();
    assert_eq!(symbol.address(), 0xffff800000002000);
}

#[test]
fn grows_vermagic_without_changing_the_packaged_image_or_other_metadata() {
    let module = module_image();
    let mut image = ModuleImage::parse(module.clone()).unwrap();
    let required = "5.15.197-@Coolpak@Kugouzei_NB_LKM SMP preempt mod_unload modversions aarch64";
    image.patch_vermagic(required).unwrap();
    let reparsed = ModuleImage::parse(image.bytes.clone()).unwrap();
    assert_eq!(reparsed.vermagic, required);
    assert_eq!(reparsed.name, "hybridmount");
    for entry in entries(&image.modinfo) {
        if entry.is_empty() || entry.starts_with(b"vermagic=") {
            continue;
        }
        assert!(entries(&reparsed.modinfo).iter().any(|actual| *actual == entry));
    }
    assert_ne!(ModuleImage::parse(module).unwrap().vermagic, required);
}

#[test]
fn invalid_requested_vermagic_is_refused_and_leaves_the_image() {
    let module = module_image();
    let mut image = ModuleImage::parse(module.clone()).unwrap();
    assert!(image.patch_vermagic("").is_err());
    assert!(image.patch_vermagic("two\nlines").is_err());
    assert!(image.patch_vermagic(&"x".repeat(513)).is_err());
    assert_eq!(image.bytes, module);
    assert_eq!(image.vermagic, VERMAGIC);
}

#[test]
fn malformed_and_wrong_architecture_images_are_rejected() {
    let module = module_image();
    for length in [0, 1, 8, 63, 64, 128] {
        assert!(ModuleImage::parse(module[..length].to_vec()).is_err());
    }
    let mut wrong_arch = module.clone();
    wrong_arch[18..20].copy_from_slice(&62_u16.to_le_bytes()); // x86_64
    assert!(ModuleImage::parse(wrong_arch).is_err());
    let mut overflow = module.clone();
    overflow[40..48].copy_from_slice(&u64::MAX.to_le_bytes());
    assert!(ModuleImage::parse(overflow).is_err());
}

#[test]
fn parsed_image_keeps_name_vermagic_and_undefined_symbols() {
    let image = ModuleImage::parse(module_image()).unwrap();
    assert_eq!(image.name, "hybridmount");
    assert_eq!(image.vermagic, VERMAGIC);
    let names: Vec<&str> = image.undefined.iter().map(|(name, _)| name.as_str()).collect();
    assert_eq!(names, vec!["kern_path", "filp_open"]);
}

#[test]
fn vermagic_diagnostic_must_match_both_module_and_attempted_version() {
    let image = ModuleImage::parse(module_image()).unwrap();
    let record = format!("4,123,456,-;hybridmount: version magic '{}' should be 'custom SMP'\n", image.vermagic);
    assert_eq!(image.requested_vermagic(&record).as_deref(), Some("custom SMP"));
    assert!(image.requested_vermagic(&record.replace("hybridmount:", "other_driver:")).is_none());
    assert!(image.requested_vermagic(&record.replace("hybridmount:", "other_hybridmount:")).is_none());
    assert!(image.requested_vermagic(&record.replace(&image.vermagic, "stale-version")).is_none());
}

#[test]
fn retries_only_once_after_an_explicit_vermagic_rejection() {
    let mut image = ModuleImage::parse(module_image()).unwrap();
    let calls = Cell::new(0);
    let result = load_with_vermagic_retry(
        &mut image,
        |bytes: &[u8]| {
            calls.set(calls.get() + 1);
            if calls.get() == 1 {
                return Err(os_error(8));
            }
            assert_eq!(ModuleImage::parse(bytes.to_vec()).unwrap().vermagic, "custom SMP");
            Ok(())
        },
        |_: &ModuleImage| Some("custom SMP".into()),
    );
    assert!(result.is_ok());
    assert_eq!(calls.get(), 2);
}

#[test]
fn does_not_retry_success_or_errors_unrelated_to_vermagic() {
    for errno in [None, Some(17), Some(1), Some(22)] {
        let mut image = ModuleImage::parse(module_image()).unwrap();
        let calls = Cell::new(0);
        let result = load_with_vermagic_retry(
            &mut image,
            |_: &[u8]| {
                calls.set(calls.get() + 1);
                errno.map_or(Ok(()), |errno| Err(os_error(errno)))
            },
            |_: &ModuleImage| -> Option<String> { panic!("must not inspect unrelated kernel diagnostics") },
        );
        assert_eq!(result.is_ok(), errno.is_none());
        assert_eq!(calls.get(), 1);
    }
}

#[test]
fn incompatible_abi_remains_an_error_after_vermagic_is_adapted() {
    let mut image = ModuleImage::parse(module_image()).unwrap();
    let calls = Cell::new(0);
    assert!(load_with_vermagic_retry(
        &mut image,
        |_: &[u8]| {
            calls.set(calls.get() + 1);
            Err(os_error(8))
        },
        |_: &ModuleImage| Some("custom SMP".into())
    )
    .is_err());
    assert_eq!(calls.get(), 2);
}

#[test]
fn missing_vermagic_diagnostic_does_not_retry_or_modify_the_image() {
    let module = module_image();
    let mut image = ModuleImage::parse(module.clone()).unwrap();
    let calls = Cell::new(0);
    let result = load_with_vermagic_retry(
        &mut image,
        |_: &[u8]| {
            calls.set(calls.get() + 1);
            Err(os_error(8))
        },
        |_: &ModuleImage| None,
    );
    assert!(result.is_err());
    assert!(result.unwrap_err().starts_with("module rejected without a matching vermagic diagnostic: "));
    assert_eq!(calls.get(), 1);
    assert_eq!(image.bytes, module);
}
