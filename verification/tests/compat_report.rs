use miden_tools::compat::canonical::{canonicalize_type_string, normalize, strip_field_labels};
use miden_tools::compat::check::{usage, Arguments, Check, Diagnostic};
use miden_tools::compat::collect::{
    collect_package_info, Attribute, Package, PackageExport, ProcedureExport, Signature,
    TypeExport,
};
use miden_tools::compat::executable::compare_executable;
use miden_tools::compat::fast_abi::compare_fast_abi;
use miden_tools::compat::name_map::NameMap;
use miden_tools::compat::package::{
    format_attributes, is_abi_attribute, ExportInfo, Exports, FeltLayoutInfo, PackageInfo,
    ProcedureInfo, TypeInfo,
};
use miden_tools::compat::release::{compare_compatibility, compare_package, report_commitment};
use miden_tools::compat::report::Report;
use miden_tools::compat::source::{compare_source, compare_source_procedure};
use miden_tools::compat::text::{comes_before, join, number_text};

fn attributes(entries: &[(&str, &str)]) -> NameMap<String> {
    let mut r = NameMap::new();
    for (name, value) in entries {
        r.insert(name.to_string(), value.to_string());
    }
    r
}

fn exports(entries: Vec<(&str, ExportInfo)>) -> Exports {
    let mut r = Exports::new();
    for (name, export) in entries {
        r.insert(name.to_string(), export);
    }
    r
}

fn info(digest: &str, signature: &str) -> ProcedureInfo {
    ProcedureInfo {
        digest: digest.to_string(),
        signature: Some(signature.to_string()),
        calling_convention: Some("fast".to_string()),
        felt_layout: Some(FeltLayoutInfo { inputs: 2, outputs: 1 }),
        abi_attributes: NameMap::new(),
    }
}

fn bare(digest: &str) -> ProcedureInfo {
    ProcedureInfo {
        digest: digest.to_string(),
        signature: None,
        calling_convention: None,
        felt_layout: None,
        abi_attributes: NameMap::new(),
    }
}

fn procedure(digest: &str, signature: &str) -> ExportInfo {
    ExportInfo::Procedure(info(digest, signature))
}

fn ty(text: &str) -> ExportInfo {
    ExportInfo::Type(TypeInfo { ty: text.to_string() })
}

#[test]
fn descriptions() {
    let layout = FeltLayoutInfo { inputs: 0, outputs: 1234567890 };
    assert_eq!(layout.describe(), "0 input felts, 1234567890 output felts");
    let mut full = info("0xab", "fn(u32)");
    full.abi_attributes = attributes(&[("note_script", "@note_script"), ("callconv", "@c")]);
    assert_eq!(
        full.describe(),
        "procedure digest=0xab, signature=fn(u32), callconv=fast, \
         felt_layout=2 input felts, 1 output felts, \
         abi_attributes=callconv=@c, note_script=@note_script"
    );
    assert_eq!(
        full.interface_description(),
        "signature=fn(u32), callconv=fast, layout=2 input felts, 1 output felts"
    );
    assert_eq!(
        bare("0xab").describe(),
        "procedure digest=0xab, signature=None, callconv=None, felt_layout=None, abi_attributes=None"
    );
    assert_eq!(
        bare("0xab").interface_description(),
        "signature=None, callconv=None, layout=unknown"
    );
    assert_eq!(ty("u32").describe(), "type=u32");
    assert_eq!(ExportInfo::Procedure(bare("1")).describe(), bare("1").describe());
}

#[test]
fn attribute_lists() {
    assert_eq!(format_attributes(&attributes(&[])), "None");
    assert_eq!(format_attributes(&attributes(&[("a", "1")])), "a=1");
    assert_eq!(format_attributes(&attributes(&[("b", "2"), ("a", "1"), ("c", "3")])), "a=1, b=2, c=3");
    for name in ["account_procedure", "auth_script", "callconv", "note_script", "transaction_script"]
    {
        assert!(is_abi_attribute(name));
    }
    for name in ["", "inline", "callconv ", "Callconv"] {
        assert!(!is_abi_attribute(name));
    }
}

#[test]
fn names_are_kept_in_order() {
    let mut map = attributes(&[("b", "1"), ("", "2"), ("ab", "3"), ("a", "4")]);
    assert_eq!(map.len(), 4);
    let names: Vec<&String> = (0..map.len()).map(|i| map.name_at(i)).collect();
    assert_eq!(names, ["", "a", "ab", "b"]);
    map.insert("ab".to_string(), "5".to_string());
    assert_eq!(map.len(), 4);
    assert_eq!(map.get(&"ab".to_string()), Some(&"5".to_string()));
    assert_eq!(map.get(&"b".to_string()), Some(&"1".to_string()));
    assert_eq!(map.get(&"c".to_string()), None);
    assert_eq!(map.value_at(0), "2");
    assert!(!map.is_empty() && NameMap::<String>::new().is_empty());
    assert!(comes_before("Z", "a") && comes_before("a", "é") && !comes_before("a", "a"));
}

#[test]
fn numbers_and_lists_as_text() {
    assert_eq!(number_text(0), "0");
    assert_eq!(number_text(usize::MAX), format!("{}", usize::MAX));
    let parts = vec!["a".to_string(), "".to_string(), "b".to_string()];
    assert_eq!(join(&parts, ", "), "a, , b");
    assert_eq!(join(&vec![], ", "), "");
    assert_eq!(join(&vec!["a".to_string()], ", "), "a");
}

#[test]
fn checks_by_their_words() {
    assert_eq!(Check::parse("all"), Ok(Check::All));
    assert_eq!(Check::parse("executable"), Ok(Check::Executable));
    assert_eq!(Check::parse("fast-abi"), Ok(Check::FastAbi));
    assert_eq!(Check::parse("source"), Ok(Check::Source));
    assert_eq!(Check::parse("package"), Ok(Check::Package));
    assert_eq!(
        Check::parse("All"),
        Err(format!("unknown compatibility check 'All'\n{}", usage()))
    );
    assert!(usage().starts_with("usage: check-masm-export-digests.rs [--check all|"));
    assert!(usage().ends_with("<current-miden-project.toml|current-project-dir>"));
}

#[test]
fn labels_and_consequences() {
    let labels: Vec<&str> =
        [Check::All, Check::Executable, Check::FastAbi, Check::Source, Check::Package]
            .iter()
            .map(|check| check.label())
            .collect();
    assert_eq!(
        labels,
        [
            "all",
            "Executable compatibility",
            "Fast ABI compatibility",
            "Source compatibility",
            "Package compatibility"
        ]
    );
    assert_eq!(Check::All.consequence(), "all compatibility checks run");
    assert_eq!(
        Check::Executable.consequence(),
        "old compiled callers resolve the same paths to the same executable MAST roots"
    );
    assert_eq!(
        Check::FastAbi.consequence(),
        "old compiled Fast callers provide and receive the same number of felts"
    );
    assert_eq!(
        Check::Source.consequence(),
        "reports whether released MASM source continues to type-check without changes"
    );
    assert_eq!(
        Check::Package.consequence(),
        "one semantic version identifies one dependency commitment; older commitments must remain archived"
    );
    assert_eq!(Diagnostic::Error.annotation(), "error");
    assert_eq!(Diagnostic::Warning.annotation(), "warning");
}

fn parse(args: &[&str]) -> Result<Arguments, String> {
    Arguments::parse(&args.iter().map(|arg| arg.to_string()).collect())
}

#[test]
fn arguments() {
    let both = |check| {
        Ok(Arguments { check, previous: "old".to_string(), current: "new".to_string() })
    };
    assert_eq!(parse(&["old", "new"]), both(Check::All));
    assert_eq!(parse(&["--check", "fast-abi", "old", "new"]), both(Check::FastAbi));
    assert_eq!(parse(&[]), Err(usage()));
    assert_eq!(parse(&["old"]), Err(usage()));
    assert_eq!(parse(&["old", "new", "newer"]), Err(usage()));
    assert_eq!(parse(&["--check"]), Err(usage()));
    assert_eq!(parse(&["--check", "none"]), Err(usage()));
    assert_eq!(parse(&["--check", "source", "old"]), Err(usage()));
    assert_eq!(parse(&["--check", "source", "old", "new", "newer"]), Err(usage()));
    let unknown = Err(format!("unknown compatibility check 'none'\n{}", usage()));
    assert_eq!(parse(&["--check", "none", "old"]), unknown);
    assert_eq!(parse(&["--check", "none", "old", "new", "newer"]), unknown);
}

#[test]
fn executable_report() {
    let previous = exports(vec![
        ("a", procedure("1", "fn()")),
        ("b", procedure("2", "fn()")),
        ("c", procedure("3", "fn()")),
        ("d", procedure("4", "fn()")),
        ("e", procedure("5", "fn()")),
        ("f", procedure("6", "fn(struct s {x : u8})")),
        ("g", ty("u32")),
    ]);
    let current = exports(vec![
        ("a", procedure("1", "fn(u8)")),
        ("b", procedure("22", "fn()")),
        ("c", procedure("33", "fn(u8)")),
        ("d", ty("u32")),
        ("f", procedure("6", "fn(struct s {u8})")),
    ]);
    let mut report = Report::new();
    let result = compare_executable(&previous, &current, &mut report);
    assert_eq!(result, Err("executable exports changed".to_string()));
    let layout = "layout=2 input felts, 1 output felts";
    let old = format!("signature=fn(), callconv=fast, {layout}");
    let new = format!("signature=fn(u8), callconv=fast, {layout}");
    assert_eq!(
        *report.lines(),
        vec![
            format!("::warning::procedure interface changed for a without an executable change; source callers may need updates: previous={old}, current={new}"),
            "::error::procedure executable changed for b: MAST root previous=2, current=22; interface=unchanged".to_string(),
            "::error::procedure executable changed for c: MAST root previous=3, current=33; interface=changed".to_string(),
            format!("::error::procedure interface also changed for c: previous={old}, current={new}"),
            "::error::executable export kind changed for d: previous=procedure digest=4, signature=fn(), callconv=fast, felt_layout=2 input felts, 1 output felts, abi_attributes=None, current=type=u32".to_string(),
            "::error::executable export removed: e".to_string(),
            "checked 6 previously published procedure digests".to_string(),
        ]
    );
    let mut report = Report::new();
    assert_eq!(compare_executable(&current, &current, &mut report), Ok(()));
    assert_eq!(*report.lines(), ["checked 4 previously published procedure digests"]);
}

#[test]
fn interface_changes_do_not_fail_the_executable_check() {
    let previous = exports(vec![("a", procedure("1", "fn()"))]);
    let current = exports(vec![("a", procedure("1", "fn(u8)"))]);
    let mut report = Report::new();
    assert_eq!(compare_executable(&previous, &current, &mut report), Ok(()));
    assert_eq!(report.lines().len(), 2);
}

#[test]
fn fast_abi_report() {
    let with = |layout, convention: &str| {
        ExportInfo::Procedure(ProcedureInfo {
            felt_layout: layout,
            calling_convention: Some(convention.to_string()),
            ..bare("1")
        })
    };
    let layout = |inputs, outputs| Some(FeltLayoutInfo { inputs, outputs });
    let previous = exports(vec![
        ("a", with(layout(1, 2), "fast")),
        ("b", with(layout(1, 2), "fast")),
        ("c", with(layout(1, 2), "fast")),
        ("d", with(layout(1, 2), "fast")),
        ("e", with(layout(1, 2), "fast")),
        ("f", with(layout(1, 2), "wasm")),
        ("g", with(None, "fast")),
        ("h", ty("u32")),
        ("i", with(layout(1, 2), "fast")),
    ]);
    let current = exports(vec![
        ("a", with(layout(1, 2), "fast")),
        ("b", with(layout(2, 1), "fast")),
        ("c", with(layout(1, 2), "wasm")),
        ("d", with(None, "fast")),
        ("e", ty("u32")),
    ]);
    let mut report = Report::new();
    let result = compare_fast_abi(&previous, &current, &mut report);
    assert_eq!(result, Err("Fast ABI changed".to_string()));
    assert_eq!(
        *report.lines(),
        [
            "::error::Fast ABI changed for b: previous=1 input felts, 2 output felts, current=2 input felts, 1 output felts",
            "::error::Fast ABI changed for c: previous=1 input felts, 2 output felts, current=1 input felts, 2 output felts",
            "::error::Fast ABI changed for d: previous=1 input felts, 2 output felts, current=not Fast",
            "::error::Fast ABI export removed: e",
            "::error::Fast ABI export removed: i",
            "checked 6 previously published Fast procedure layouts",
        ]
    );
}

#[test]
fn source_procedure_report() {
    let mut previous = info("1", "fn()");
    previous.abi_attributes =
        attributes(&[("callconv", "c"), ("note_script", "n"), ("auth_script", "None")]);
    let mut current = bare("1");
    current.abi_attributes = attributes(&[("callconv", "d"), ("transaction_script", "t")]);
    let mut report = Report::new();
    assert!(compare_source_procedure(
        "p",
        &previous,
        &current,
        Diagnostic::Error,
        true,
        &mut report
    ));
    assert_eq!(
        *report.lines(),
        [
            "::error::source signature changed for p: previous=fn(), current=None",
            "::error::source calling convention changed for p: previous=fast, current=None",
            "::error::source attribute changed for p: auth_script previous=None, current=None",
            "::error::source attribute changed for p: callconv previous=c, current=d",
            "::error::source attribute changed for p: note_script previous=n, current=None",
        ]
    );
    let mut report = Report::new();
    assert!(compare_source_procedure(
        "p",
        &previous,
        &current,
        Diagnostic::Warning,
        false,
        &mut report
    ));
    assert_eq!(report.lines().len(), 3);
    // Added metadata is compatible.
    let mut report = Report::new();
    let richer = info("2", "fn()");
    assert!(!compare_source_procedure(
        "p",
        &bare("1"),
        &richer,
        Diagnostic::Error,
        true,
        &mut report
    ));
    assert!(report.lines().is_empty());
}

#[test]
fn removing_an_attribute_is_a_change_and_adding_one_is_not() {
    let mut with = bare("0x01");
    with.abi_attributes = attributes(&[("auth_script", "None")]);
    let without = bare("0x01");
    let compare = |previous, current| {
        let report = &mut Report::new();
        compare_source_procedure("p", previous, current, Diagnostic::Error, true, report)
    };
    assert!(compare(&with, &without));
    assert!(!compare(&without, &with));
    assert!(!compare(&with, &with));
}

#[test]
fn source_report() {
    let previous = exports(vec![
        ("a", ty("struct s {u8}")),
        ("b", ty("u8")),
        ("c", ty("u8")),
        ("d", ty("u8")),
        ("e", procedure("1", "fn()")),
        ("f", procedure("1", "fn()")),
    ]);
    let current = exports(vec![
        ("0", ty("u8")),
        ("a", ty("struct s { x : u8 }")),
        ("b", ty("u16")),
        ("c", procedure("1", "fn()")),
        ("e", procedure("2", "fn()")),
        ("f", procedure("1", "fn(u8)")),
        ("z", ty("u8")),
    ]);
    let mut report = Report::new();
    let result = compare_source(&previous, &current, Diagnostic::Warning, true, &mut report);
    assert_eq!(result, Err("source exports changed".to_string()));
    assert_eq!(
        *report.lines(),
        [
            "::warning::source type changed for b: previous=u8, current=u16",
            "::warning::source export kind changed for c: previous=type=u8, current=procedure digest=1, signature=fn(), callconv=fast, felt_layout=2 input felts, 1 output felts, abi_attributes=None",
            "::warning::source export removed: d previous=type=u8",
            "::warning::source signature changed for f: previous=fn(), current=fn(u8)",
            "::notice::2 source exports added; additions are source-compatible",
        ]
    );
    let mut report = Report::new();
    let previous = exports(vec![("f", procedure("1", "fn()"))]);
    let result = compare_source(&previous, &current, Diagnostic::Error, false, &mut report);
    assert_eq!(result, Ok(()));
    assert_eq!(
        *report.lines(),
        ["::notice::6 source exports added; additions are source-compatible"]
    );
    let mut report = Report::new();
    assert_eq!(compare_source(&current, &current, Diagnostic::Error, true, &mut report), Ok(()));
    assert!(report.lines().is_empty());
}

#[test]
fn package_report() {
    let previous = PackageInfo::for_test(Exports::new());
    let mut current = previous.clone();
    let mut report = Report::new();
    assert_eq!(compare_package(&previous, &current, &mut report), Ok(()));
    assert_eq!(
        *report.lines(),
        [
            "interface commitment unchanged: 0x01",
            "MAST forest commitment unchanged: 0x01",
            "code commitment unchanged: 0x01",
            "dependency commitment unchanged: 0x01",
        ]
    );
    current.name = "other".to_string();
    current.commitments.mast_forest = "0x02".to_string();
    let mut report = Report::new();
    assert_eq!(
        compare_package(&previous, &current, &mut report),
        Err("package identity changed".to_string())
    );
    assert_eq!(
        report.lines()[0],
        "::error::package name changed: previous=test, current=other"
    );
    assert_eq!(
        report.lines()[2],
        "::notice::MAST forest commitment changed: previous=0x01, current=0x02"
    );
    assert_eq!(report.lines().len(), 5);
    current.commitments.dependency = "0x03".to_string();
    let mut report = Report::new();
    assert_eq!(
        compare_package(&previous, &current, &mut report),
        Err("package version identifies two dependency commitments".to_string())
    );
    assert_eq!(
        report.lines()[5],
        "::error::package dependency commitment changed without a version change: package=other version=0.1.0 previous=0x01, current=0x03"
    );
    current.version = "0.2.0".to_string();
    let mut report = Report::new();
    assert_eq!(
        compare_package(&previous, &current, &mut report),
        Err("package identity changed".to_string())
    );
    assert_eq!(
        report.lines()[5],
        "::notice::package dependency commitment changed with version 0.1.0 -> 0.2.0; serialized dependents remain loadable only while the test 0.1.0 package is archived"
    );
    let mut report = Report::new();
    report_commitment("code", "a", "b", &mut report);
    assert_eq!(*report.lines(), ["::notice::code commitment changed: previous=a, current=b"]);
}

#[test]
fn release_report() {
    let previous = PackageInfo::for_test(exports(vec![("a", ty("u8"))]));
    let current = PackageInfo::for_test(Exports::new());
    let mut report = Report::new();
    assert_eq!(compare_compatibility(Check::All, &previous, &current, &mut report), Ok(()));
    assert_eq!(
        *report.lines(),
        [
            "::group::Executable compatibility",
            "Consequence: old compiled callers resolve the same paths to the same executable MAST roots",
            "checked 0 previously published procedure digests",
            "::endgroup::",
            "::group::Source compatibility",
            "Consequence: reports whether released MASM source continues to type-check without changes",
            "::warning::source export removed: a previous=type=u8",
            "::endgroup::",
            "::notice::source compatibility changed; source changes do not block this release",
            "::group::Package compatibility",
            "Consequence: one semantic version identifies one dependency commitment; older commitments must remain archived",
            "interface commitment unchanged: 0x01",
            "MAST forest commitment unchanged: 0x01",
            "code commitment unchanged: 0x01",
            "dependency commitment unchanged: 0x01",
            "::endgroup::",
        ]
    );
    let mut report = Report::new();
    assert_eq!(
        compare_compatibility(Check::Source, &previous, &current, &mut report),
        Err("compatibility checks failed: Source compatibility".to_string())
    );
    assert_eq!(report.lines()[2], "::error::source export removed: a previous=type=u8");
    assert_eq!(report.lines().len(), 4);
}

#[test]
fn release_names_every_failed_check() {
    let previous = PackageInfo::for_test(exports(vec![("a", procedure("1", "fn()"))]));
    let mut current = PackageInfo::for_test(Exports::new());
    current.name = "other".to_string();
    let compare = |check| compare_compatibility(check, &previous, &current, &mut Report::new());
    assert_eq!(
        compare(Check::All),
        Err("compatibility checks failed: Executable compatibility, Package compatibility"
            .to_string())
    );
    assert_eq!(
        compare(Check::Executable),
        Err("compatibility checks failed: Executable compatibility".to_string())
    );
    assert_eq!(
        compare(Check::FastAbi),
        Err("compatibility checks failed: Fast ABI compatibility".to_string())
    );
    assert_eq!(
        compare(Check::Package),
        Err("compatibility checks failed: Package compatibility".to_string())
    );
}

#[test]
fn unchanged_packages_pass_every_check() {
    let mut package = PackageInfo::for_test(exports(vec![
        ("a", procedure("1", "fn()")),
        ("b", ty("u8")),
        ("c", ExportInfo::Procedure(bare("2"))),
    ]));
    package.name = "p".to_string();
    for check in [Check::All, Check::Executable, Check::FastAbi, Check::Source, Check::Package] {
        let result = compare_compatibility(check, &package, &package, &mut Report::new());
        assert_eq!(result, Ok(()));
    }
}

#[test]
fn executable_compatibility_is_transitive() {
    let first = exports(vec![("a", procedure("1", "fn()"))]);
    let second = exports(vec![("a", procedure("1", "fn(u8)")), ("b", procedure("2", "fn()"))]);
    let third = exports(vec![("a", procedure("1", "fn(u16)")), ("b", procedure("2", "fn()"))]);
    for (x, y) in [(&first, &second), (&second, &third), (&first, &third)] {
        assert_eq!(compare_executable(x, y, &mut Report::new()), Ok(()));
        assert_eq!(compare_fast_abi(x, y, &mut Report::new()), Ok(()));
    }
}

fn package(exports: Vec<PackageExport>, interface: Result<String, String>) -> Package {
    Package {
        name: "n".to_string(),
        version: "v".to_string(),
        exports,
        interface_commitment: interface,
        mast_forest_commitment: "m".to_string(),
        code_commitment: "c".to_string(),
        dependency_commitment: "d".to_string(),
    }
}

#[test]
fn packages_are_collected() {
    let attribute =
        |name: &str, text: &str| Attribute { name: name.to_string(), text: text.to_string() };
    let type_export = |path: &str, ty: &str| {
        PackageExport::Type(TypeExport { path: path.to_string(), ty: ty.to_string() })
    };
    let with_signature = ProcedureExport {
        path: "q".to_string(),
        digest: "0x1".to_string(),
        signature: Some(Signature {
            text: "fn(u32, u64) -> u8".to_string(),
            abi: "fast".to_string(),
            params: vec![1, 2],
            results: vec![1],
        }),
        attributes: vec![
            attribute("inline", "@inline"),
            attribute("callconv", "@callconv(a)"),
            attribute("callconv", "@callconv(b)"),
        ],
    };
    let without_signature = ProcedureExport {
        path: "p".to_string(),
        digest: "0x2".to_string(),
        signature: None,
        attributes: vec![],
    };
    let package = package(
        vec![
            type_export("t", "u8"),
            PackageExport::Procedure(with_signature),
            PackageExport::Constant,
            PackageExport::Procedure(without_signature),
            type_export("t", "u16"),
        ],
        Ok("i".to_string()),
    );
    let collected = collect_package_info(&package).unwrap();
    assert_eq!(collected.name, "n");
    assert_eq!(collected.version, "v");
    assert_eq!(collected.commitments.interface, "i");
    assert_eq!(collected.commitments.mast_forest, "m");
    assert_eq!(collected.commitments.code, "c");
    assert_eq!(collected.commitments.dependency, "d");
    let expected = exports(vec![
        ("p", ExportInfo::Procedure(bare("0x2"))),
        (
            "q",
            ExportInfo::Procedure(ProcedureInfo {
                digest: "0x1".to_string(),
                signature: Some("fn(u32, u64) -> u8".to_string()),
                calling_convention: Some("fast".to_string()),
                felt_layout: Some(FeltLayoutInfo { inputs: 3, outputs: 1 }),
                abi_attributes: attributes(&[("callconv", "@callconv(b)")]),
            }),
        ),
        ("t", ty("u16")),
    ]);
    assert_eq!(collected.exports, expected);
}

#[test]
fn packages_need_an_interface_commitment() {
    let package = package(vec![], Err("no interface".to_string()));
    assert_eq!(collect_package_info(&package), Err("no interface".to_string()));
}

#[test]
fn labels_are_stripped() {
    assert_eq!(strip_field_labels("struct s {a : u8, b:u16}"), "struct s { u8, u16}");
    assert_eq!(strip_field_labels("a : u8"), "a : u8");
    assert_eq!(strip_field_labels("{a::B, c}"), "{a::B, c}");
    assert_eq!(strip_field_labels("{a :"), "{");
    assert_eq!(strip_field_labels("{x-1_y\t: u8}"), "{ u8}");
    assert_eq!(strip_field_labels("{1a : u8}"), "{1a : u8}");
    assert_eq!(strip_field_labels("}a : b"), "}a : b");
    assert_eq!(strip_field_labels("{a\n: b}"), "{a\n: b}");
    // Only the first of two labels in a row is dropped.
    assert_eq!(strip_field_labels("{a : b : c}"), "{ b : c}");
}

#[test]
fn letters_and_digits_beyond_ascii() {
    assert_eq!(strip_field_labels("{größe : u8}"), "{ u8}");
    assert_eq!(strip_field_labels("{λ٣ : u8}"), "{ u8}");
    // A digit begins no label.
    assert_eq!(strip_field_labels("{٣λ : u8}"), "{٣λ : u8}");
    assert_eq!(strip_field_labels("{a∑ : u8}"), "{a∑ : u8}");
    // A space that is no separator: the field still begins after it.
    assert_eq!(strip_field_labels("{\u{2003}a : u8}"), "{\u{2003} u8}");
    assert_eq!(normalize("a\u{2003}\u{2003}b\u{2003}"), "a\u{2003}\u{2003}b");
}

#[test]
fn spaces_are_normalized() {
    assert_eq!(normalize("  a \t\n b  "), "a b");
    assert_eq!(normalize("fn ( a , b ) -> c"), "fn(a,b)->c");
    assert_eq!(normalize("{a\n  b\n\n  c\n}"), "{a,b,c}");
    assert_eq!(normalize("{a,,b,}"), "{a,b,}");
    assert_eq!(normalize("{a ,\n b}"), "{a,b}");
    assert_eq!(normalize("{a b}"), "{a b}");
    assert_eq!(normalize("a,,b"), "a,,b");
    assert_eq!(normalize("{\n, a}"), "{a}");
    assert_eq!(normalize(""), "");
}

#[test]
fn separators_are_equal() {
    let expected = canonicalize_type_string("struct s {u8, u16}");
    assert_eq!(expected, "struct s{u8,u16}");
    for text in ["struct s {u8,u16}", "struct s {u8\nu16}", "struct s {u8 , u16}", "struct s {u8\r\n\tu16}"]
    {
        assert_eq!(canonicalize_type_string(text), expected);
    }
    assert_ne!(canonicalize_type_string("struct s {u8 u16}"), expected);
}

#[test]
fn padding_in_braces_is_ignored() {
    for text in ["{  u8}", "{u8\t}", "{\nu8\n}", "{ x : u8 }"] {
        assert_eq!(canonicalize_type_string(text), "{u8}");
    }
}

#[test]
fn separators_after_nested_structs_are_kept() {
    assert_eq!(
        normalize("struct outer {struct inner {u128}, u128}"),
        "struct outer{struct inner{u128},u128}"
    );
    assert_eq!(
        normalize("struct outer {\n    struct inner {u128}\n    u128\n}"),
        "struct outer{struct inner{u128},u128}"
    );
    assert_eq!(normalize("fn(struct a {u8}, u8) -> struct b {u8}"), "fn(struct a{u8},u8)->struct b{u8}");
    assert_ne!(
        canonicalize_type_string("struct o {struct i {a}, b}"),
        canonicalize_type_string("struct o {struct i {a} b}")
    );
}

#[test]
fn names_inside_parentheses_are_kept() {
    assert_eq!(strip_field_labels("s {f : fn(a : u8, b : u8)}"), "s { fn(a : u8, b : u8)}");
    assert_eq!(
        strip_field_labels("s {f : fn(a : u8,\nb : u8), g : u8}"),
        "s { fn(a : u8,\nb : u8),  u8}"
    );
    assert_eq!(
        strip_field_labels("s {f : fn(struct t {a : u8, b : u8}, c : u8), d : u8}"),
        "s { fn(struct t { u8,  u8}, c : u8),  u8}"
    );
    assert_eq!(strip_field_labels("fn(struct t {a : u8, b : u8})"), "fn(struct t { u8,  u8})");
    // A parenthesis that was never opened does not matter.
    assert_eq!(strip_field_labels("s {a : b), c : d}"), "s { b),  d}");
    // Nor does one that is not closed in an inner body.
    assert_eq!(strip_field_labels("s {struct t {a : (}, c : d}"), "s {struct t { (},  d}");
}

#[test]
fn normalizing_twice_changes_nothing() {
    for text in [
        "",
        "  a  b ",
        "struct s { a ,, b\n c ,}",
        "{ { a } , { b } }",
        "fn ( a , b ) -> struct t {\n x\n}",
        "} , { \t",
        "a \u{2003} b \u{2003}",
    ] {
        let once = normalize(text);
        assert_eq!(normalize(&once), once);
    }
}

#[test]
fn layouts_of_a_field_list() {
    let fields = ["u8", "Vec<a::b>", "fn(x)->y"];
    let expected = format!("struct N{{{}}}", fields.join(","));
    assert_eq!(normalize(&format!("struct N {{{}}}", fields.join(", "))), expected);
    assert_eq!(normalize(&format!("struct N {{{}}}", fields.join(",\n    "))), expected);
    assert_eq!(normalize(&format!("struct N {{\n    {}\n}}", fields.join("\n    "))), expected);
}

#[test]
fn canonical_forms_tell_structs_apart() {
    let canonical = canonicalize_type_string("struct N {a : u8, b : x::y::z}");
    assert_eq!(canonical, "struct N{u8,x::y::z}");
    assert_eq!(canonicalize_type_string("struct N {u8, other : x::y::z}"), canonical);
    for text in [
        "struct M {u8, x::y::z}",
        "struct N {x::y::z, u8}",
        "struct N {u8}",
        "struct N {u8, x::y::z, u8}",
        "struct N {u8 x::y::z}",
    ] {
        assert_ne!(canonicalize_type_string(text), canonical);
    }
}

#[test]
fn line_breaks_inside_parentheses_separate_no_fields() {
    assert_eq!(normalize("{fn(u8\n)}"), "{fn(u8)}");
    assert_eq!(normalize("{f({u}\n)}"), "{f({u})}");
    assert_eq!(normalize("{fn(\n    u8,\n    u16\n)\n    u32\n}"), "{fn(u8,u16),u32}");
    assert_eq!(normalize("{f({u}, v)}"), "{f({u},v)}");
    assert_eq!(normalize("{f({u},)}"), "{f({u})}");
    // A parenthesis that is never closed has nothing inside.
    assert_eq!(normalize("{(a\nb}"), "{(a,b}");
    assert_eq!(strip_field_labels("{(a,b:c}"), "{(a,c}");
    assert_eq!(strip_field_labels("{(a,b:c)}"), "{(a,b:c)}");
}

#[test]
fn separators_after_inner_bodies_need_a_field() {
    assert_eq!(normalize("{a {u},}"), "{a{u}}");
    assert_eq!(normalize("{a {u} , ,\n}"), "{a{u}}");
    assert_eq!(normalize("{a {u},, b}"), "{a{u},b}");
    assert_eq!(normalize("{{u}\n{v}}"), "{{u},{v}}");
    assert_eq!(normalize("{{u}, {v}}"), "{{u},{v}}");
    assert_eq!(normalize("{v<struct i {u}\n>, w}"), "{v<struct i{u}>,w}");
    assert_eq!(normalize("{a {u} b}"), "{a{u}b}");
}
