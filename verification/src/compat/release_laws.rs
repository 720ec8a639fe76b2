//! What holds of the checks together.
use crate::compat::canonical_laws::{
    all_blank, begins_with_labeled_field, is_field_start, is_identifier, label, law_label_ignored,
};
use crate::compat::check::{Check, Diagnostic};
use crate::compat::executable::{executable_broken, executable_fails};
use crate::compat::fast_abi::{
    fast_abi_broken, fast_abi_fails, fast_abi_findings, fast_abi_lines, fast_layout,
};
use crate::compat::name_map::{
    ascending, inserted, law_entry_is_found, law_lookup_after_insertion, lookup,
};
use crate::compat::package::{
    compatibility, ExportModel, FeltLayoutInfo, PackageModel, ProcedureCompatibility,
    ProcedureModel,
};
use crate::compat::release::{
    check_failure, compatibility_failure, expanded, failed_labels, package_failure,
};
use crate::compat::source::{
    lemma_unchanged_is_silent, source_changed, source_fails, source_findings, source_lines,
    source_procedure_changed,
};
use vstd::prelude::*;

verus! {

/// Every export of `previous` is still there as it was.
pub open spec fn keeps_all(
    previous: Seq<(Seq<char>, ExportModel)>,
    current: Seq<(Seq<char>, ExportModel)>,
) -> bool {
    forall|i: int|
        0 <= i < previous.len() ==> lookup(current, (#[trigger] previous[i]).0) == Some(
            previous[i].1,
        )
}

/// A release is refused if and only if its executable check or its package check fails. Source
/// changes never block it.
pub proof fn law_release_is_blocked(previous: PackageModel, current: PackageModel)
    ensures
        compatibility_failure(Check::All, previous, current) is Some <==> (executable_fails(
            previous.exports,
            current.exports,
        ) || package_failure(previous, current) is Some),
{
    let checks = expanded(Check::All);
    let two = checks.drop_last();
    let one = two.drop_last();
    assert(one.drop_last() =~= seq![]);
    assert(checks.last() == Check::Package && two.last() == Check::Source && one.last()
        == Check::Executable);
    reveal_with_fuel(failed_labels, 4);
}

/// A check that is selected fails if and only if what it checks is broken.
pub proof fn law_selected_check_fails(
    check: Check,
    previous: PackageModel,
    current: PackageModel,
)
    requires
        check != Check::All,
    ensures
        compatibility_failure(check, previous, current) is Some <==> check_failure(
            check,
            false,
            previous,
            current,
        ) is Some,
{
    let checks = expanded(check);
    assert(checks.drop_last() =~= seq![]);
    assert(checks.last() == check);
    reveal_with_fuel(failed_labels, 2);
}

/// New exports break nothing: where every published export is kept as it was, the executable, the
/// Fast ABI and the source check pass.
pub proof fn law_additions_are_compatible(
    previous: Seq<(Seq<char>, ExportModel)>,
    current: Seq<(Seq<char>, ExportModel)>,
    report_interfaces: bool,
)
    requires
        keeps_all(previous, current),
    ensures
        !executable_fails(previous, current),
        !fast_abi_fails(previous, current),
        !source_fails(previous, current, report_interfaces),
{
}

/// An export under a new name leaves every published export as it was.
pub proof fn law_new_name_keeps_all(
    exports: Seq<(Seq<char>, ExportModel)>,
    name: Seq<char>,
    export: ExportModel,
)
    requires
        ascending(exports),
        lookup(exports, name) is None,
    ensures
        keeps_all(exports, inserted(exports, name, export)),
{
    assert forall|i: int| 0 <= i < exports.len() implies lookup(
        inserted(exports, name, export),
        (#[trigger] exports[i]).0,
    ) == Some(exports[i].1) by {
        law_entry_is_found(exports, i);
        law_lookup_after_insertion(exports, name, export, exports[i].0);
    }
}

/// A package compared with itself passes every check.
pub proof fn law_unchanged_package_passes(check: Check, package: PackageModel)
    requires
        ascending(package.exports),
    ensures
        compatibility_failure(check, package, package) is None,
{
    let exports = package.exports;
    assert forall|i: int| 0 <= i < exports.len() implies lookup(
        exports,
        (#[trigger] exports[i]).0,
    ) == Some(exports[i].1) by {
        law_entry_is_found(exports, i);
    }
    law_additions_are_compatible(exports, exports, true);
    if check == Check::All {
        law_release_is_blocked(package, package);
    } else {
        law_selected_check_fails(check, package, package);
    }
}

/// One version identifies one dependency commitment: where the package check passes and the
/// version is the same, so is the commitment.
pub proof fn law_version_identifies_dependency(previous: PackageModel, current: PackageModel)
    requires
        package_failure(previous, current) is None,
        previous.version == current.version,
    ensures
        previous.commitments.dependency == current.commitments.dependency,
{
}

/// With a new version the dependency commitment may change.
pub proof fn law_new_version_allows_change(previous: PackageModel, current: PackageModel)
    requires
        previous.version != current.version,
    ensures
        package_failure(previous, current) is None <==> previous.name == current.name,
{
}

/// Executable compatibility can be checked release by release: what holds from the first to the
/// second and from the second to the third holds from the first to the third.
pub proof fn law_executable_transitive(
    first: Seq<(Seq<char>, ExportModel)>,
    second: Seq<(Seq<char>, ExportModel)>,
    third: Seq<(Seq<char>, ExportModel)>,
)
    requires
        !executable_fails(first, second),
        !executable_fails(second, third),
    ensures
        !executable_fails(first, third),
{
    assert forall|i: int| 0 <= i < first.len() implies !executable_broken(
        (#[trigger] first[i]).1,
        lookup(third, first[i].0),
    ) by {
        let name = first[i].0;
        assert(!executable_broken(first[i].1, lookup(second, name)));
        if first[i].1 is Procedure {
            let j = lemma_lookup_is_entry(second, name);
            assert(!executable_broken(second[j].1, lookup(third, second[j].0)));
        }
    }
}

/// So can Fast ABI compatibility.
pub proof fn law_fast_abi_transitive(
    first: Seq<(Seq<char>, ExportModel)>,
    second: Seq<(Seq<char>, ExportModel)>,
    third: Seq<(Seq<char>, ExportModel)>,
)
    requires
        !fast_abi_fails(first, second),
        !fast_abi_fails(second, third),
    ensures
        !fast_abi_fails(first, third),
{
    assert forall|i: int| 0 <= i < first.len() implies !fast_abi_broken(
        (#[trigger] first[i]).1,
        lookup(third, first[i].0),
    ) by {
        let name = first[i].0;
        assert(!fast_abi_broken(first[i].1, lookup(second, name)));
        if fast_layout(first[i].1) is Some {
            let j = lemma_lookup_is_entry(second, name);
            assert(!fast_abi_broken(second[j].1, lookup(third, second[j].0)));
        }
    }
}

/// What is found under a name is an entry of that name.
proof fn lemma_lookup_is_entry(entries: Seq<(Seq<char>, ExportModel)>, name: Seq<char>) -> (j: int)
    requires
        lookup(entries, name) is Some,
    ensures
        0 <= j < entries.len(),
        entries[j] == (name, lookup(entries, name)->Some_0),
    decreases entries.len(),
{
    if entries[0].0 == name {
        0
    } else {
        let j = lemma_lookup_is_entry(entries.drop_first(), name);
        assert(entries.drop_first()[j] == entries[j + 1]);
        j + 1
    }
}

/// The source check fails if and only if it reports something of a published export.
pub proof fn law_source_failure_is_reported(
    diagnostic: Diagnostic,
    previous: Seq<(Seq<char>, ExportModel)>,
    current: Seq<(Seq<char>, ExportModel)>,
    report_interfaces: bool,
)
    ensures
        source_fails(previous, current, report_interfaces) <==> source_findings(
            diagnostic,
            previous,
            current,
            report_interfaces,
        ).len() > 0,
    decreases previous.len(),
{
    if previous.len() > 0 {
        let before = previous.drop_last();
        let (name, export) = previous.last();
        let found = lookup(current, name);
        law_source_failure_is_reported(diagnostic, before, current, report_interfaces);
        assert(previous.last() == previous[previous.len() - 1]);
        if let (ExportModel::Procedure(a), Some(ExportModel::Procedure(b))) = (export, found) {
            lemma_unchanged_is_silent(diagnostic, name, a, b, report_interfaces);
        }
        assert(source_changed(export, found, report_interfaces) <==> source_lines(
            diagnostic,
            name,
            export,
            found,
            report_interfaces,
        ).len() > 0);
        if source_fails(before, current, report_interfaces) {
            let j = choose|j: int|
                0 <= j < before.len() && source_changed(
                    (#[trigger] before[j]).1,
                    lookup(current, before[j].0),
                    report_interfaces,
                );
            assert(before[j] == previous[j]);
        }
        if source_fails(previous, current, report_interfaces) {
            let j = choose|j: int|
                0 <= j < previous.len() && source_changed(
                    (#[trigger] previous[j]).1,
                    lookup(current, previous[j].0),
                    report_interfaces,
                );
            if j < before.len() {
                assert(before[j] == previous[j]);
            }
        }
    }
}

/// The Fast ABI check fails if and only if it reports something of a published export.
pub proof fn law_fast_abi_failure_is_reported(
    previous: Seq<(Seq<char>, ExportModel)>,
    current: Seq<(Seq<char>, ExportModel)>,
)
    ensures
        fast_abi_fails(previous, current) <==> fast_abi_findings(previous, current).len() > 0,
    decreases previous.len(),
{
    if previous.len() > 0 {
        let before = previous.drop_last();
        let (name, export) = previous.last();
        let found = lookup(current, name);
        law_fast_abi_failure_is_reported(before, current);
        assert(previous.last() == previous[previous.len() - 1]);
        assert(fast_abi_broken(export, found) <==> fast_abi_lines(name, export, found).len() > 0);
        if fast_abi_fails(before, current) {
            let j = choose|j: int|
                0 <= j < before.len() && fast_abi_broken(
                    (#[trigger] before[j]).1,
                    lookup(current, before[j].0),
                );
            assert(before[j] == previous[j]);
        }
        if fast_abi_fails(previous, current) {
            let j = choose|j: int|
                0 <= j < previous.len() && fast_abi_broken(
                    (#[trigger] previous[j]).1,
                    lookup(current, previous[j].0),
                );
            if j < before.len() {
                assert(before[j] == previous[j]);
            }
        }
    }
}

/// The digest of the procedure under a name.
pub open spec fn digest_at(
    exports: Seq<(Seq<char>, ExportModel)>,
    name: Seq<char>,
) -> Option<Seq<char>> {
    match lookup(exports, name) {
        Some(ExportModel::Procedure(procedure)) => Some(procedure.digest),
        _ => None,
    }
}

/// The layout of the Fast procedure under a name.
pub open spec fn fast_layout_at(
    exports: Seq<(Seq<char>, ExportModel)>,
    name: Seq<char>,
) -> Option<FeltLayoutInfo> {
    match lookup(exports, name) {
        Some(export) => fast_layout(export),
        None => None,
    }
}

/// Only paths and digests matter to the executable check: whatever else is changed, in interfaces,
/// attributes or types, its outcome is the same.
pub proof fn law_executable_sees_digests_only(
    previous: Seq<(Seq<char>, ExportModel)>,
    current: Seq<(Seq<char>, ExportModel)>,
    other: Seq<(Seq<char>, ExportModel)>,
)
    requires
        forall|name: Seq<char>| #[trigger] digest_at(current, name) == digest_at(other, name),
    ensures
        executable_fails(previous, current) == executable_fails(previous, other),
{
    assert forall|i: int| 0 <= i < previous.len() implies executable_broken(
        (#[trigger] previous[i]).1,
        lookup(current, previous[i].0),
    ) == executable_broken(previous[i].1, lookup(other, previous[i].0)) by {
        assert(digest_at(current, previous[i].0) == digest_at(other, previous[i].0));
    }
}

/// Only the numbers of felts matter to the Fast ABI check: whatever else is changed, in code,
/// signatures or attributes, its outcome is the same.
pub proof fn law_fast_abi_sees_layouts_only(
    previous: Seq<(Seq<char>, ExportModel)>,
    current: Seq<(Seq<char>, ExportModel)>,
    other: Seq<(Seq<char>, ExportModel)>,
)
    requires
        forall|name: Seq<char>| #[trigger]
            fast_layout_at(current, name) == fast_layout_at(other, name),
    ensures
        fast_abi_fails(previous, current) == fast_abi_fails(previous, other),
{
    assert forall|i: int| 0 <= i < previous.len() implies fast_abi_broken(
        (#[trigger] previous[i]).1,
        lookup(current, previous[i].0),
    ) == fast_abi_broken(previous[i].1, lookup(other, previous[i].0)) by {
        assert(fast_layout_at(current, previous[i].0) == fast_layout_at(other, previous[i].0));
    }
}

/// A signature that gains or loses a field label, and is otherwise the same, changes nothing: the
/// procedure is compatible, and its source too.
pub proof fn law_field_label_is_not_breaking(
    previous: ProcedureModel,
    current: ProcedureModel,
    p: Seq<char>,
    l: Seq<char>,
    b: Seq<char>,
    w: Seq<char>,
    r: Seq<char>,
)
    requires
        is_field_start(p, r),
        is_identifier(l),
        all_blank(b),
        all_blank(w),
        r.len() > 0 ==> r[0] != ':',
        !begins_with_labeled_field(r),
        ({
            let labeled = Some(p + (label(l, b) + (w + r)));
            let unlabeled = Some(p + r);
            ||| previous.signature == labeled && current.signature == unlabeled
            ||| previous.signature == unlabeled && current.signature == labeled
        }),
        previous == (ProcedureModel { signature: previous.signature, ..current }),
        ascending(previous.abi_attributes),
    ensures
        compatibility(previous, current) == ProcedureCompatibility::Compatible,
        !source_procedure_changed(previous, current, true),
{
    law_label_ignored(p, l, b, w, r);
    let attributes = previous.abi_attributes;
    assert forall|i: int| 0 <= i < attributes.len() implies lookup(
        attributes,
        (#[trigger] attributes[i]).0,
    ) == Some(attributes[i].1) by {
        law_entry_is_found(attributes, i);
    }
}

/// An attribute under a new name, with all else kept, is no source change.
pub proof fn law_added_attributes_are_compatible(
    previous: ProcedureModel,
    attribute: Seq<char>,
    value: Seq<char>,
)
    requires
        ascending(previous.abi_attributes),
        lookup(previous.abi_attributes, attribute) is None,
    ensures
        !source_procedure_changed(
            previous,
            (ProcedureModel {
                abi_attributes: inserted(previous.abi_attributes, attribute, value),
                ..previous
            }),
            true,
        ),
{
    let attributes = previous.abi_attributes;
    assert forall|i: int| 0 <= i < attributes.len() implies lookup(
        inserted(attributes, attribute, value),
        (#[trigger] attributes[i]).0,
    ) == Some(attributes[i].1) by {
        law_entry_is_found(attributes, i);
        law_lookup_after_insertion(attributes, attribute, value, attributes[i].0);
    }
}

} // verus!
