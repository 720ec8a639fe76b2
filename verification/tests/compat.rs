use miden_tools::compat::canonical::canonicalize_type_string;
use miden_tools::compat::check::{Check, Diagnostic};
use miden_tools::compat::fast_abi::compare_fast_abi;
use miden_tools::compat::name_map::NameMap;
use miden_tools::compat::package::{
    classify_procedure_compatibility, ExportInfo, Exports, FeltLayoutInfo, PackageInfo,
    ProcedureCompatibility, ProcedureInfo,
};
use miden_tools::compat::release::{compare_compatibility, compare_package};
use miden_tools::compat::report::Report;
use miden_tools::compat::source::compare_source;

fn exports<const N: usize>(entries: [(String, ExportInfo); N]) -> Exports {
    let mut r = Exports::new();
    for (name, export) in entries {
        r.insert(name, export);
    }
    r
}

fn procedure(digest: &str) -> ExportInfo {
    ExportInfo::Procedure(ProcedureInfo {
        digest: digest.to_string(),
        signature: None,
        calling_convention: None,
        felt_layout: None,
        abi_attributes: NameMap::new(),
    })
}

#[test]
fn compare_exports_allows_added_procedure() {
    let previous = PackageInfo::for_test(Exports::new());
    let current = exports([("new_proc".to_string(), procedure("0x01"))]);
    let current = PackageInfo::for_test(current);

    assert_eq!(compare_compatibility(Check::All, &previous, &current, &mut Report::new()), Ok(()));
}

#[test]
fn compare_exports_rejects_changed_procedure() {
    let previous = exports([("existing_proc".to_string(), procedure("0x01"))]);
    let current = exports([("existing_proc".to_string(), procedure("0x02"))]);
    let previous = PackageInfo::for_test(previous);
    let current = PackageInfo::for_test(current);

    assert!(compare_compatibility(Check::All, &previous, &current, &mut Report::new()).is_err());
}

fn procedure_info(digest: &str, signature: &str, callconv: &str) -> ProcedureInfo {
    ProcedureInfo {
        digest: digest.to_string(),
        signature: Some(signature.to_string()),
        calling_convention: Some(callconv.to_string()),
        felt_layout: Some(FeltLayoutInfo { inputs: 1, outputs: 1 }),
        abi_attributes: NameMap::new(),
    }
}

#[test]
fn procedure_compatibility_accepts_unchanged_root_and_interface() {
    let previous = procedure_info("0x01", "extern \"fast\" fn(u32) -> u32", "fast");
    let current = previous.clone();

    assert_eq!(
        classify_procedure_compatibility(&previous, &current),
        ProcedureCompatibility::Compatible
    );
}

#[test]
fn procedure_compatibility_warns_for_interface_only_change() {
    let previous = procedure_info("0x01", "extern \"fast\" fn(u32) -> u32", "fast");
    let current = procedure_info("0x01", "extern \"fast\" fn(u64) -> u32", "fast");

    assert_eq!(
        classify_procedure_compatibility(&previous, &current),
        ProcedureCompatibility::InterfaceChanged
    );
}

#[test]
fn procedure_compatibility_rejects_root_only_change() {
    let previous = procedure_info("0x01", "extern \"fast\" fn(u32) -> u32", "fast");
    let current = procedure_info("0x02", "extern \"fast\" fn(u32) -> u32", "fast");

    assert_eq!(
        classify_procedure_compatibility(&previous, &current),
        ProcedureCompatibility::ExecutableChanged { interface_changed: false }
    );
}

#[test]
fn procedure_compatibility_rejects_and_reports_combined_change() {
    let previous = procedure_info("0x01", "extern \"fast\" fn(u32) -> u32", "fast");
    let current = procedure_info("0x02", "extern \"wasm\" fn(u32) -> u32", "wasm");

    assert_eq!(
        classify_procedure_compatibility(&previous, &current),
        ProcedureCompatibility::ExecutableChanged { interface_changed: true }
    );
}

#[test]
fn fast_abi_compares_total_felt_widths() {
    let old = ProcedureInfo {
        digest: "0x01".to_string(),
        signature: Some("extern \"fast\" fn(u32, u32)".to_string()),
        calling_convention: Some("fast".to_string()),
        felt_layout: Some(FeltLayoutInfo { inputs: 2, outputs: 0 }),
        abi_attributes: NameMap::new(),
    };
    let new = ProcedureInfo {
        digest: "0x01".to_string(),
        signature: Some("extern \"fast\" fn(struct pair {u32, u32})".to_string()),
        calling_convention: Some("fast".to_string()),
        felt_layout: Some(FeltLayoutInfo { inputs: 2, outputs: 0 }),
        abi_attributes: NameMap::new(),
    };
    let previous = exports([("p".to_string(), ExportInfo::Procedure(old))]);
    let current = exports([("p".to_string(), ExportInfo::Procedure(new))]);

    assert_eq!(compare_fast_abi(&previous, &current, &mut Report::new()), Ok(()));
    assert!(compare_source(&previous, &current, Diagnostic::Error, true, &mut Report::new()).is_err());
}

#[test]
fn release_allows_source_only_changes() {
    let old = ProcedureInfo {
        digest: "0x01".to_string(),
        signature: Some("extern \"fast\" fn(u32, u32)".to_string()),
        calling_convention: Some("fast".to_string()),
        felt_layout: Some(FeltLayoutInfo { inputs: 2, outputs: 0 }),
        abi_attributes: NameMap::new(),
    };
    let new = ProcedureInfo {
        digest: "0x01".to_string(),
        signature: Some("extern \"fast\" fn(struct pair {u32, u32})".to_string()),
        calling_convention: Some("fast".to_string()),
        felt_layout: Some(FeltLayoutInfo { inputs: 2, outputs: 0 }),
        abi_attributes: NameMap::new(),
    };
    let previous =
        PackageInfo::for_test(exports([("p".to_string(), ExportInfo::Procedure(old))]));
    let current =
        PackageInfo::for_test(exports([("p".to_string(), ExportInfo::Procedure(new))]));

    assert_eq!(compare_compatibility(Check::All, &previous, &current, &mut Report::new()), Ok(()));
    assert!(compare_compatibility(Check::Source, &previous, &current, &mut Report::new()).is_err());
}

#[test]
fn package_change_requires_a_new_version() {
    let previous = PackageInfo::for_test(Exports::new());
    let mut current = previous.clone();
    current.commitments.dependency = "0x02".to_string();

    assert!(compare_package(&previous, &current, &mut Report::new()).is_err());

    current.version = "0.1.1".to_string();
    assert_eq!(compare_package(&previous, &current, &mut Report::new()), Ok(()));
}

#[test]
fn canonicalize_strips_struct_field_labels() {
    let previous = "struct u256 {u128, u128}";
    let current = "struct u256 {lo : u128, hi : u128}";
    assert_eq!(canonicalize_type_string(previous), canonicalize_type_string(current));
}

#[test]
fn canonicalize_strips_field_labels_in_signature() {
    let previous = "extern \"fast\" fn(struct u256 {u128, u128}) -> struct u256 {u128, u128}";
    let current = "extern \"fast\" fn(struct u256 {lo : u128, hi : u128}) -> struct u256 {lo : u128, hi : u128}";
    assert_eq!(canonicalize_type_string(previous), canonicalize_type_string(current));
}

#[test]
fn canonicalize_preserves_field_type_changes() {
    let previous = "struct u256 {u128, u128}";
    let current = "struct u256 {u64, u64}";
    assert_ne!(canonicalize_type_string(previous), canonicalize_type_string(current));
}

#[test]
fn canonicalize_preserves_field_count_changes() {
    let previous = "struct u256 {u128, u128}";
    let current = "struct u256 {u128, u128, u128}";
    assert_ne!(canonicalize_type_string(previous), canonicalize_type_string(current));
}

#[test]
fn canonicalize_preserves_struct_name_changes() {
    let previous = "struct u256 {u128, u128}";
    let current = "struct u512 {u128, u128}";
    assert_ne!(canonicalize_type_string(previous), canonicalize_type_string(current));
}

#[test]
fn canonicalize_preserves_repr_attributes() {
    let previous = "struct u256 {u128, u128}";
    let current = "@packed struct u256 {u128, u128}";
    assert_ne!(canonicalize_type_string(previous), canonicalize_type_string(current));
}

#[test]
fn canonicalize_handles_nested_structs() {
    let previous = "struct outer {struct inner {u128}, u128}";
    let current = "struct outer {x : struct inner {lo : u128}, y : u128}";
    assert_eq!(canonicalize_type_string(previous), canonicalize_type_string(current));
}

#[test]
fn canonicalize_handles_multiline_signatures_from_ci() {
    // The second struct body uses the multi-line layout, with newline-separated fields and no
    // commas.
    let previous =
        "extern \"fast\" fn(struct u256 {u128, u128}, struct u256 {u128, u128}) -> i1";
    let current = "extern \"fast\" fn(struct u256 {lo : u128, hi : u128}, struct u256 {\n    lo : u128\n    hi : u128}) -> i1";
    assert_eq!(canonicalize_type_string(previous), canonicalize_type_string(current));
}

#[test]
fn canonicalize_treats_label_renames_as_equal() {
    let a = "struct u256 {lo : u128, hi : u128}";
    let b = "struct u256 {low : u128, high : u128}";
    assert_eq!(canonicalize_type_string(a), canonicalize_type_string(b));
}

#[test]
fn canonicalize_catches_field_count_diff_in_multiline_form() {
    let a = "struct u256 {u128, u128}";
    let b = "struct u256 {\n    lo : u128}";
    assert_ne!(canonicalize_type_string(a), canonicalize_type_string(b));
}

#[test]
fn canonicalize_ignores_struct_body_padding() {
    let a = "struct u128 {u64}";
    let b = "struct u128 { u64 }";
    assert_eq!(canonicalize_type_string(a), canonicalize_type_string(b));
}

#[test]
fn canonicalize_ignores_trailing_multiline_struct_body_padding() {
    let a = "struct u128 {u64}";
    let b = "struct u128 {\n    u64\n}";
    assert_eq!(canonicalize_type_string(a), canonicalize_type_string(b));
}

#[test]
fn canonicalize_preserves_qualified_type_changes() {
    let a = "struct wrapper {foo::T}";
    let b = "struct wrapper {bar::T}";
    assert_ne!(canonicalize_type_string(a), canonicalize_type_string(b));
}

#[test]
fn canonicalize_preserves_qualified_type_changes_after_label() {
    let a = "struct wrapper {value : foo::T}";
    let b = "struct wrapper {value : bar::T}";
    assert_ne!(canonicalize_type_string(a), canonicalize_type_string(b));
}

#[test]
fn canonicalize_ignores_label_changes_on_qualified_types() {
    let a = "struct wrapper {left : foo::T}";
    let b = "struct wrapper {right : foo::T}";
    assert_eq!(canonicalize_type_string(a), canonicalize_type_string(b));
}
