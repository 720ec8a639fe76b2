//! What each check decides, in terms of what was published before and what is published now.
use crate::compat::canonical::canonical;
use crate::compat::check::{check_consequence, check_label, Check, Diagnostic};
use crate::compat::collect::{
    abi_attributes, published_procedure, total, Attribute, ProcedureExport,
};
use crate::compat::executable::{
    executable_broken, executable_fails, executable_findings, executable_lines, executable_report,
    procedures,
};
use crate::compat::fast_abi::{
    fast_abi_broken, fast_abi_fails, fast_abi_findings, fast_abi_lines, fast_abi_report,
    fast_layout, fast_procedures,
};
use crate::compat::name_map::{
    ascending, law_entry_is_found, law_lookup_after_insertion, lookup,
};
use crate::compat::package::{
    attributes_text, compatibility, ExportModel, PackageModel, ProcedureCompatibility, ProcedureModel,
};
use crate::compat::release::{
    all_lines, check_failure, check_report, compatibility_failure, expanded, failed_labels,
    group_lines, package_failure, package_report,
};
use crate::compat::source::{
    added_exports, attribute_changed, attributes_changed, source_changed, source_fails,
    source_findings, source_lines, source_procedure_changed, source_report,
};
use crate::compat::text::separated;
use vstd::prelude::*;

verus! {

// Executable compatibility.
/// The executable check fails if and only if some published procedure is not found under its name
/// as a procedure with the same digest.
pub proof fn law_executable_outcome(
    previous: Seq<(Seq<char>, ExportModel)>,
    current: Seq<(Seq<char>, ExportModel)>,
)
    ensures
        executable_fails(previous, current) <==> exists|i: int|
            0 <= i < previous.len() && match (#[trigger] previous[i]).1 {
                ExportModel::Type(_) => false,
                ExportModel::Procedure(p) => !(lookup(current, previous[i].0) matches Some(
                    ExportModel::Procedure(c),
                ) && c.digest == p.digest),
            },
{
    if executable_fails(previous, current) {
        let i = choose|i: int|
            0 <= i < previous.len() && executable_broken(
                (#[trigger] previous[i]).1,
                lookup(current, previous[i].0),
            );
        assert(previous[i].1 is Procedure);
    }
    assert forall|i: int|
        0 <= i < previous.len() && match (#[trigger] previous[i]).1 {
            ExportModel::Type(_) => false,
            ExportModel::Procedure(p) => !(lookup(current, previous[i].0) matches Some(
                ExportModel::Procedure(c),
            ) && c.digest == p.digest),
        } implies executable_fails(previous, current) by {
        assert(executable_broken(previous[i].1, lookup(current, previous[i].0)));
    }
}

/// Nothing is reported of a published procedure if and only if it is still there with the same
/// digest, calling convention and signature, field labels and layout aside. Nothing is ever reported
/// of a type.
pub proof fn law_executable_silence(
    name: Seq<char>,
    previous: ExportModel,
    current: Option<ExportModel>,
)
    ensures
        executable_lines(name, previous, current).len() == 0 <==> match previous {
            ExportModel::Type(_) => true,
            ExportModel::Procedure(p) => current matches Some(ExportModel::Procedure(c)) && {
                &&& c.digest == p.digest
                &&& c.calling_convention == p.calling_convention
                &&& p.signature is Some <==> c.signature is Some
                &&& p.signature is Some ==> canonical(p.signature->Some_0) == canonical(
                    c.signature->Some_0,
                )
            },
        },
{
}

/// How a procedure is classified: by its digest, its calling convention and the canonical form of
/// its signature, each compared with what it was.
pub proof fn law_classification(previous: ProcedureModel, current: ProcedureModel)
    ensures
        ({
            let interface_kept = {
                &&& previous.calling_convention == current.calling_convention
                &&& previous.signature is Some <==> current.signature is Some
                &&& previous.signature is Some ==> canonical(previous.signature->Some_0)
                    == canonical(current.signature->Some_0)
            };
            let digest_kept = previous.digest == current.digest;
            let class = compatibility(previous, current);
            &&& class is Compatible <==> digest_kept && interface_kept
            &&& class is InterfaceChanged <==> digest_kept && !interface_kept
            &&& class == (ProcedureCompatibility::ExecutableChanged { interface_changed: true })
                <==> !digest_kept && !interface_kept
            &&& class == (ProcedureCompatibility::ExecutableChanged { interface_changed: false })
                <==> !digest_kept && interface_kept
        }),
{
}

/// All published procedures are counted, and nothing else.
pub proof fn law_procedures_are_counted(exports: Seq<(Seq<char>, ExportModel)>)
    ensures
        procedures(exports) == exports.filter(
            |e: (Seq<char>, ExportModel)| e.1 is Procedure,
        ).len(),
    decreases exports.len(),
{
    let f = |e: (Seq<char>, ExportModel)| e.1 is Procedure;
    reveal(Seq::filter);
    if exports.len() > 0 {
        law_procedures_are_counted(exports.drop_last());
        assert(f(exports.last()) == (exports.last().1 is Procedure));
    }
}

// Fast ABI compatibility.
/// The Fast ABI check fails if and only if some published procedure with the calling convention
/// `fast` and a layout is not found under its name as a procedure with the calling convention
/// `fast`, the same number of input felts and the same number of output felts.
pub proof fn law_fast_abi_outcome(
    previous: Seq<(Seq<char>, ExportModel)>,
    current: Seq<(Seq<char>, ExportModel)>,
)
    ensures
        fast_abi_fails(previous, current) <==> exists|i: int|
            0 <= i < previous.len() && match (#[trigger] previous[i]).1 {
                ExportModel::Type(_) => false,
                ExportModel::Procedure(p) => {
                    &&& p.calling_convention == Some("fast"@)
                    &&& p.felt_layout is Some
                    &&& !(lookup(current, previous[i].0) matches Some(ExportModel::Procedure(c))
                        && {
                        &&& c.calling_convention == Some("fast"@)
                        &&& c.felt_layout is Some
                        &&& c.felt_layout->Some_0.inputs == p.felt_layout->Some_0.inputs
                        &&& c.felt_layout->Some_0.outputs == p.felt_layout->Some_0.outputs
                    })
                },
            },
{
    assert forall|i: int| 0 <= i < previous.len() implies fast_abi_broken(
        (#[trigger] previous[i]).1,
        lookup(current, previous[i].0),
    ) == match previous[i].1 {
        ExportModel::Type(_) => false,
        ExportModel::Procedure(p) => {
            &&& p.calling_convention == Some("fast"@)
            &&& p.felt_layout is Some
            &&& !(lookup(current, previous[i].0) matches Some(ExportModel::Procedure(c)) && {
                &&& c.calling_convention == Some("fast"@)
                &&& c.felt_layout is Some
                &&& c.felt_layout->Some_0.inputs == p.felt_layout->Some_0.inputs
                &&& c.felt_layout->Some_0.outputs == p.felt_layout->Some_0.outputs
            })
        },
    } by {
        if let (ExportModel::Procedure(p), Some(ExportModel::Procedure(c))) = (
            previous[i].1,
            lookup(current, previous[i].0),
        ) {
            if p.felt_layout is Some && c.felt_layout is Some {
                let (x, y) = (p.felt_layout->Some_0, c.felt_layout->Some_0);
                assert(x == y <==> x.inputs == y.inputs && x.outputs == y.outputs);
            }
        }
    }
    if fast_abi_fails(previous, current) {
        let i = choose|i: int|
            0 <= i < previous.len() && fast_abi_broken(
                (#[trigger] previous[i]).1,
                lookup(current, previous[i].0),
            );
        assert(previous[i].1 is Procedure);
    }
}

/// All published Fast procedures with a layout are counted, and nothing else.
pub proof fn law_fast_procedures_are_counted(exports: Seq<(Seq<char>, ExportModel)>)
    ensures
        fast_procedures(exports) == exports.filter(
            |e: (Seq<char>, ExportModel)|
                e.1 is Procedure && e.1->Procedure_0.calling_convention == Some("fast"@)
                    && e.1->Procedure_0.felt_layout is Some,
        ).len(),
    decreases exports.len(),
{
    let f = |e: (Seq<char>, ExportModel)|
        e.1 is Procedure && e.1->Procedure_0.calling_convention == Some("fast"@)
            && e.1->Procedure_0.felt_layout is Some;
    reveal(Seq::filter);
    if exports.len() > 0 {
        law_fast_procedures_are_counted(exports.drop_last());
        assert(f(exports.last()) == (fast_layout(
            exports.last().1,
        ) is Some));
    }
}

// Source compatibility.
/// The source of a procedure changed if and only if its signature, its calling convention or one
/// of its attributes was published and is not the same now; the first two count only where
/// interfaces are reported. A signature is the same if its canonical form is, and a missing one
/// counts as the empty text.
pub proof fn law_source_of_procedure(
    previous: ProcedureModel,
    current: ProcedureModel,
    report_interface: bool,
)
    ensures
        source_procedure_changed(previous, current, report_interface) <==> {
            ||| report_interface && previous.signature is Some && canonical(
                previous.signature->Some_0,
            ) != canonical(
                if current.signature is Some {
                    current.signature->Some_0
                } else {
                    ""@
                },
            )
            ||| report_interface && previous.calling_convention is Some
                && current.calling_convention != previous.calling_convention
            ||| exists|i: int|
                0 <= i < previous.abi_attributes.len() && lookup(
                    current.abi_attributes,
                    (#[trigger] previous.abi_attributes[i]).0,
                ) != Some(previous.abi_attributes[i].1)
        },
{
    let attributes = previous.abi_attributes;
    if attributes_changed(attributes, current) {
        let i = choose|i: int|
            0 <= i < attributes.len() && attribute_changed(#[trigger] attributes[i], current);
        assert(lookup(current.abi_attributes, attributes[i].0) != Some(attributes[i].1));
    }
    assert forall|i: int|
        0 <= i < attributes.len() && lookup(
            current.abi_attributes,
            (#[trigger] attributes[i]).0,
        ) != Some(attributes[i].1) implies attributes_changed(attributes, current) by {
        assert(attribute_changed(attributes[i], current));
    }
}

/// The digests of procedures do not matter to the source check: with any other digests its outcome
/// is the same.
pub proof fn law_source_ignores_digests(
    previous: ProcedureModel,
    current: ProcedureModel,
    report_interface: bool,
    digest1: Seq<char>,
    digest2: Seq<char>,
)
    requires
        ascending(previous.abi_attributes),
    ensures
        source_changed(
            ExportModel::Procedure(previous),
            Some(ExportModel::Procedure(current)),
            report_interface,
        ) == source_changed(
            ExportModel::Procedure((ProcedureModel { digest: digest1, ..previous })),
            Some(ExportModel::Procedure((ProcedureModel { digest: digest2, ..current }))),
            report_interface,
        ),
        source_changed(
            ExportModel::Procedure(previous),
            Some(ExportModel::Procedure(current)),
            report_interface,
        ) == source_procedure_changed(previous, current, report_interface),
{
    let p = ProcedureModel { digest: digest1, ..previous };
    let c = ProcedureModel { digest: digest2, ..current };
    law_source_of_procedure(previous, current, report_interface);
    law_source_of_procedure(p, c, report_interface);
    let attributes = previous.abi_attributes;
    assert forall|i: int| 0 <= i < attributes.len() implies lookup(
        attributes,
        (#[trigger] attributes[i]).0,
    ) == Some(attributes[i].1) by {
        law_entry_is_found(attributes, i);
    }
    assert(p.abi_attributes == attributes && c.abi_attributes == current.abi_attributes);
    if previous == current {
        assert(!source_procedure_changed(previous, current, report_interface));
    }
    if p == c {
        assert(previous.abi_attributes == current.abi_attributes);
        assert(!source_procedure_changed(p, c, report_interface));
    }
    assert(source_procedure_changed(p, c, report_interface) == source_procedure_changed(
        previous,
        current,
        report_interface,
    ));
}

/// The source check fails if and only if some published export is missing, is of another kind, is
/// a type with another canonical form, or is a procedure whose published signature, calling
/// convention or attributes changed.
pub proof fn law_source_outcome(
    previous: Seq<(Seq<char>, ExportModel)>,
    current: Seq<(Seq<char>, ExportModel)>,
    report_interfaces: bool,
)
    requires
        forall|i: int|
            0 <= i < previous.len() ==> ((#[trigger] previous[i]).1 matches ExportModel::Procedure(
                p,
            ) ==> ascending(p.abi_attributes)),
    ensures
        source_fails(previous, current, report_interfaces) <==> exists|i: int|
            0 <= i < previous.len() && match ((#[trigger] previous[i]).1, lookup(
                current,
                previous[i].0,
            )) {
                (ExportModel::Type(s), Some(ExportModel::Type(t))) => canonical(s) != canonical(t),
                (ExportModel::Procedure(p), Some(ExportModel::Procedure(c))) => {
                    ||| report_interfaces && p.signature is Some && canonical(p.signature->Some_0)
                        != canonical(
                        if c.signature is Some {
                            c.signature->Some_0
                        } else {
                            ""@
                        },
                    )
                    ||| report_interfaces && p.calling_convention is Some && c.calling_convention
                        != p.calling_convention
                    ||| exists|j: int|
                        0 <= j < p.abi_attributes.len() && lookup(
                            c.abi_attributes,
                            (#[trigger] p.abi_attributes[j]).0,
                        ) != Some(p.abi_attributes[j].1)
                },
                _ => true,
            },
{
    assert forall|i: int| 0 <= i < previous.len() implies source_changed(
        (#[trigger] previous[i]).1,
        lookup(current, previous[i].0),
        report_interfaces,
    ) == match (previous[i].1, lookup(current, previous[i].0)) {
        (ExportModel::Type(s), Some(ExportModel::Type(t))) => canonical(s) != canonical(t),
        (ExportModel::Procedure(p), Some(ExportModel::Procedure(c))) => source_procedure_changed(
            p,
            c,
            report_interfaces,
        ),
        _ => true,
    } by {
        if let (ExportModel::Procedure(p), Some(ExportModel::Procedure(c))) = (
            previous[i].1,
            lookup(current, previous[i].0),
        ) {
            law_source_ignores_digests(p, c, report_interfaces, p.digest, c.digest);
        }
    }
    assert forall|i: int| 0 <= i < previous.len() implies match ((#[trigger] previous[i]).1, lookup(
        current,
        previous[i].0,
    )) {
        (ExportModel::Procedure(p), Some(ExportModel::Procedure(c))) => source_procedure_changed(
            p,
            c,
            report_interfaces,
        ) == {
            ||| report_interfaces && p.signature is Some && canonical(p.signature->Some_0)
                != canonical(
                if c.signature is Some {
                    c.signature->Some_0
                } else {
                    ""@
                },
            )
            ||| report_interfaces && p.calling_convention is Some && c.calling_convention
                != p.calling_convention
            ||| exists|j: int|
                0 <= j < p.abi_attributes.len() && lookup(
                    c.abi_attributes,
                    (#[trigger] p.abi_attributes[j]).0,
                ) != Some(p.abi_attributes[j].1)
        },
        _ => true,
    } by {
        if let (ExportModel::Procedure(p), Some(ExportModel::Procedure(c))) = (
            previous[i].1,
            lookup(current, previous[i].0),
        ) {
            law_source_of_procedure(p, c, report_interfaces);
        }
    }
    if source_fails(previous, current, report_interfaces) {
        let i = choose|i: int|
            0 <= i < previous.len() && source_changed(
                (#[trigger] previous[i]).1,
                lookup(current, previous[i].0),
                report_interfaces,
            );
        assert(previous[i].1 is Procedure || previous[i].1 is Type);
    }
}

/// Where interfaces are reported, a published signature whose canonical form is no longer the same
/// fails the source check, whatever the digests are.
pub proof fn law_changed_signature_fails(
    previous: Seq<(Seq<char>, ExportModel)>,
    current: Seq<(Seq<char>, ExportModel)>,
    i: int,
)
    requires
        0 <= i < previous.len(),
        previous[i].1 is Procedure,
        lookup(current, previous[i].0) matches Some(ExportModel::Procedure(_)),
        previous[i].1->Procedure_0.signature is Some,
        lookup(current, previous[i].0)->Some_0->Procedure_0.signature is Some,
        canonical(previous[i].1->Procedure_0.signature->Some_0) != canonical(
            lookup(current, previous[i].0)->Some_0->Procedure_0.signature->Some_0,
        ),
    ensures
        source_fails(previous, current, true),
{
    let p = previous[i].1->Procedure_0;
    let c = lookup(current, previous[i].0)->Some_0->Procedure_0;
    law_source_of_procedure(p, c, true);
    assert(source_changed(previous[i].1, lookup(current, previous[i].0), true));
}

/// All exports under new names are counted, and nothing else.
pub proof fn law_additions_are_counted(
    previous: Seq<(Seq<char>, ExportModel)>,
    current: Seq<(Seq<char>, ExportModel)>,
)
    ensures
        added_exports(previous, current) == current.filter(
            |e: (Seq<char>, ExportModel)| lookup(previous, e.0) is None,
        ).len(),
    decreases current.len(),
{
    let f = |e: (Seq<char>, ExportModel)| lookup(previous, e.0) is None;
    reveal(Seq::filter);
    if current.len() > 0 {
        law_additions_are_counted(previous, current.drop_last());
        assert(f(current.last()) == (lookup(previous, current.last().0) is None));
    }
}

// Package compatibility.
/// The package check fails if and only if the name of the package changed, or its dependency
/// commitment changed and its version did not. Of both failures the second is told.
pub proof fn law_package_outcome(previous: PackageModel, current: PackageModel)
    ensures
        ({
            let renamed = previous.name != current.name;
            let ambiguous = previous.version == current.version && previous.commitments.dependency
                != current.commitments.dependency;
            &&& package_failure(previous, current) is None <==> !renamed && !ambiguous
            &&& ambiguous ==> package_failure(previous, current) == Some(
                "package version identifies two dependency commitments"@,
            )
            &&& renamed && !ambiguous ==> package_failure(previous, current) == Some(
                "package identity changed"@,
            )
        }),
{
}

// The checks together.
/// Which check each word stands for: a selected check fails if and only if the executables, the
/// Fast ABI, the source with its interfaces, or the package is what it should not be, and then its
/// title is told.
pub proof fn law_selected_outcome(previous: PackageModel, current: PackageModel)
    ensures
        compatibility_failure(Check::Executable, previous, current) == (if executable_fails(
            previous.exports,
            current.exports,
        ) {
            Some("compatibility checks failed: "@ + "Executable compatibility"@)
        } else {
            None
        }),
        compatibility_failure(Check::FastAbi, previous, current) == (if fast_abi_fails(
            previous.exports,
            current.exports,
        ) {
            Some("compatibility checks failed: "@ + "Fast ABI compatibility"@)
        } else {
            None
        }),
        compatibility_failure(Check::Source, previous, current) == (if source_fails(
            previous.exports,
            current.exports,
            true,
        ) {
            Some("compatibility checks failed: "@ + "Source compatibility"@)
        } else {
            None
        }),
        compatibility_failure(Check::Package, previous, current) == (if package_failure(
            previous,
            current,
        ) is Some {
            Some("compatibility checks failed: "@ + "Package compatibility"@)
        } else {
            None
        }),
{
    lemma_selected(Check::Executable, previous, current);
    lemma_selected(Check::FastAbi, previous, current);
    lemma_selected(Check::Source, previous, current);
    lemma_selected(Check::Package, previous, current);
}

proof fn lemma_selected(check: Check, previous: PackageModel, current: PackageModel)
    requires
        check != Check::All,
    ensures
        ({
            let failed = failed_labels(expanded(check), false, previous, current);
            &&& check_failure(check, false, previous, current) is None ==> failed.len() == 0
            &&& check_failure(check, false, previous, current) is Some ==> failed == seq![
                check_label(check),
            ]
        }),
{
    let checks = expanded(check);
    assert(checks.drop_last() =~= seq![]);
    assert(checks.last() == check);
    reveal_with_fuel(failed_labels, 2);
    let failed = failed_labels(checks, false, previous, current);
    if check_failure(check, false, previous, current) is Some {
        assert(failed =~= seq![check_label(check)]);
    }
}

/// What a release is refused for: its executables, its package, or both, each by its title and in
/// this order.
pub proof fn law_release_outcome(previous: PackageModel, current: PackageModel)
    ensures
        ({
            let executable = executable_fails(previous.exports, current.exports);
            let package = package_failure(previous, current) is Some;
            let told = compatibility_failure(Check::All, previous, current);
            &&& !executable && !package ==> told is None
            &&& executable && !package ==> told == Some(
                "compatibility checks failed: "@ + "Executable compatibility"@,
            )
            &&& !executable && package ==> told == Some(
                "compatibility checks failed: "@ + "Package compatibility"@,
            )
            &&& executable && package ==> told == Some(
                "compatibility checks failed: "@ + ("Executable compatibility"@ + ", "@
                    + "Package compatibility"@),
            )
        }),
{
    let checks = expanded(Check::All);
    let two = checks.drop_last();
    let one = two.drop_last();
    assert(one.drop_last() =~= seq![]);
    assert(checks.last() == Check::Package && two.last() == Check::Source && one.last()
        == Check::Executable);
    reveal_with_fuel(failed_labels, 4);
    let failed = failed_labels(checks, true, previous, current);
    let (e, p) = ("Executable compatibility"@, "Package compatibility"@);
    let executable = executable_fails(previous.exports, current.exports);
    let package = package_failure(previous, current) is Some;
    if executable && package {
        assert(failed =~= seq![e, p]);
        assert(seq![e, p].drop_last() =~= seq![e]);
        reveal_with_fuel(separated, 2);
        assert(separated(failed, ", "@) == e + ", "@ + p);
    } else if executable {
        assert(failed =~= seq![e]);
    } else if package {
        assert(failed =~= seq![p]);
    }
}

// Reports.
/// Every published export is reported on, in its turn: of two lists of exports one after the other
/// what is reported of the first comes before what is reported of the second, and of a single export
/// all is reported that there is.
pub proof fn law_every_export_is_reported(
    a: Seq<(Seq<char>, ExportModel)>,
    b: Seq<(Seq<char>, ExportModel)>,
    current: Seq<(Seq<char>, ExportModel)>,
    diagnostic: Diagnostic,
    report_interfaces: bool,
)
    ensures
        executable_findings(a + b, current) == executable_findings(a, current)
            + executable_findings(b, current),
        fast_abi_findings(a + b, current) == fast_abi_findings(a, current) + fast_abi_findings(
            b,
            current,
        ),
        source_findings(diagnostic, a + b, current, report_interfaces) == source_findings(
            diagnostic,
            a,
            current,
            report_interfaces,
        ) + source_findings(diagnostic, b, current, report_interfaces),
        b.len() == 1 ==> {
            let (name, export) = b[0];
            let found = lookup(current, name);
            &&& executable_findings(b, current) == executable_lines(name, export, found)
            &&& fast_abi_findings(b, current) == fast_abi_lines(name, export, found)
            &&& source_findings(diagnostic, b, current, report_interfaces) == source_lines(
                diagnostic,
                name,
                export,
                found,
                report_interfaces,
            )
        },
    decreases b.len(),
{
    if b.len() == 0 {
        assert(a + b =~= a);
        assert(executable_findings(a + b, current) =~= executable_findings(a, current)
            + executable_findings(b, current));
        assert(fast_abi_findings(a + b, current) =~= fast_abi_findings(a, current)
            + fast_abi_findings(b, current));
        assert(source_findings(diagnostic, a + b, current, report_interfaces) =~= source_findings(
            diagnostic,
            a,
            current,
            report_interfaces,
        ) + source_findings(diagnostic, b, current, report_interfaces));
    } else {
        let c = b.drop_last();
        assert((a + b).drop_last() =~= a + c);
        assert((a + b).last() == b.last());
        law_every_export_is_reported(a, c, current, diagnostic, report_interfaces);
        assert(executable_findings(a + b, current) =~= executable_findings(a, current)
            + executable_findings(b, current));
        assert(fast_abi_findings(a + b, current) =~= fast_abi_findings(a, current)
            + fast_abi_findings(b, current));
        assert(source_findings(diagnostic, a + b, current, report_interfaces) =~= source_findings(
            diagnostic,
            a,
            current,
            report_interfaces,
        ) + source_findings(diagnostic, b, current, report_interfaces));
        if b.len() == 1 {
            let (name, export) = b[0];
            let found = lookup(current, name);
            assert(c =~= seq![]);
            assert(executable_findings(b, current) =~= executable_lines(name, export, found));
            assert(fast_abi_findings(b, current) =~= fast_abi_lines(name, export, found));
            assert(source_findings(diagnostic, b, current, report_interfaces) =~= source_lines(
                diagnostic,
                name,
                export,
                found,
                report_interfaces,
            ));
        }
    }
}

/// A text begins with another.
pub open spec fn begins_with(s: Seq<char>, prefix: Seq<char>) -> bool {
    s.len() >= prefix.len() && s.take(prefix.len() as int) == prefix
}

proof fn lemma_begins_with(prefix: Seq<char>, s: Seq<char>, t: Seq<char>)
    requires
        begins_with(s, prefix),
    ensures
        begins_with(s + t, prefix),
{
    assert((s + t).take(prefix.len() as int) =~= s.take(prefix.len() as int));
}

proof fn lemma_announcements()
    ensures
        begins_with("::warning::procedure interface changed for "@, "::warning::"@),
        begins_with("::error::procedure executable changed for "@, "::error::"@),
        begins_with("::error::procedure interface also changed for "@, "::error::"@),
        begins_with("::error::executable export kind changed for "@, "::error::"@),
        begins_with("::error::executable export removed: "@, "::error::"@),
        begins_with("::error::Fast ABI changed for "@, "::error::"@),
        begins_with("::error::Fast ABI export removed: "@, "::error::"@),
{
    reveal_strlit("::warning::");
    reveal_strlit("::error::");
    reveal_strlit("::warning::procedure interface changed for ");
    reveal_strlit("::error::procedure executable changed for ");
    reveal_strlit("::error::procedure interface also changed for ");
    reveal_strlit("::error::executable export kind changed for ");
    reveal_strlit("::error::executable export removed: ");
    reveal_strlit("::error::Fast ABI changed for ");
    reveal_strlit("::error::Fast ABI export removed: ");
    let w = "::warning::"@;
    let e = "::error::"@;
    assert("::warning::procedure interface changed for "@.take(11) =~= w);
    assert("::error::procedure executable changed for "@.take(9) =~= e);
    assert("::error::procedure interface also changed for "@.take(9) =~= e);
    assert("::error::executable export kind changed for "@.take(9) =~= e);
    assert("::error::executable export removed: "@.take(9) =~= e);
    assert("::error::Fast ABI changed for "@.take(9) =~= e);
    assert("::error::Fast ABI export removed: "@.take(9) =~= e);
}

/// What breaks the executables is announced as an error, and what does not as a warning. A change of
/// both the code and the interface is told in two lines, any other in one.
pub proof fn law_executable_announcements(
    name: Seq<char>,
    previous: ExportModel,
    current: Option<ExportModel>,
    i: int,
)
    requires
        0 <= i < executable_lines(name, previous, current).len(),
    ensures
        executable_broken(previous, current) ==> begins_with(
            executable_lines(name, previous, current)[i],
            "::error::"@,
        ),
        !executable_broken(previous, current) ==> begins_with(
            executable_lines(name, previous, current)[i],
            "::warning::"@,
        ),
        executable_lines(name, previous, current).len() == 2 <==> {
            &&& previous is Procedure
            &&& current matches Some(ExportModel::Procedure(_))
            &&& compatibility(previous->Procedure_0, current->Some_0->Procedure_0) == (
            ProcedureCompatibility::ExecutableChanged { interface_changed: true })
        },
        executable_lines(name, previous, current).len() <= 2,
{
    lemma_announcements();
    let line = executable_lines(name, previous, current)[i];
    assert forall|s: Seq<char>, t: Seq<char>, prefix: Seq<char>| #[trigger]
        begins_with(s, prefix) implies begins_with(#[trigger] (s + t), prefix) by {
        lemma_begins_with(prefix, s, t);
    }
}

/// What breaks the Fast ABI is announced as an error, in one line; nothing else is told.
pub proof fn law_fast_abi_announcements(
    name: Seq<char>,
    previous: ExportModel,
    current: Option<ExportModel>,
)
    ensures
        fast_abi_broken(previous, current) ==> {
            &&& fast_abi_lines(name, previous, current).len() == 1
            &&& begins_with(fast_abi_lines(name, previous, current)[0], "::error::"@)
        },
        !fast_abi_broken(previous, current) ==> fast_abi_lines(name, previous, current).len() == 0,
{
    lemma_announcements();
    assert forall|s: Seq<char>, t: Seq<char>, prefix: Seq<char>| #[trigger]
        begins_with(s, prefix) implies begins_with(#[trigger] (s + t), prefix) by {
        lemma_begins_with(prefix, s, t);
    }
}

/// The package check tells of all four commitments, each by its own name and as it was and is.
pub proof fn law_commitments_are_told(previous: PackageModel, current: PackageModel)
    ensures
        ({
            let lines = package_report(previous, current);
            let start: int = if previous.name != current.name {
                1
            } else {
                0
            };
            let (p, c) = (previous.commitments, current.commitments);
            &&& lines.len() >= start + 4
            &&& lines[start] == told(
                "interface"@,
                p.interface,
                c.interface,
            )
            &&& lines[start + 1] == told("MAST forest"@, p.mast_forest, c.mast_forest)
            &&& lines[start + 2] == told("code"@, p.code, c.code)
            &&& lines[start + 3] == told("dependency"@, p.dependency, c.dependency)
            &&& lines.len() == start + 4 <==> p.dependency == c.dependency
        }),
{
}

/// How a commitment is told of.
pub open spec fn told(label: Seq<char>, previous: Seq<char>, current: Seq<char>) -> Seq<char> {
    if previous == current {
        label + " commitment unchanged: "@ + current
    } else {
        "::notice::"@ + label + " commitment changed: previous="@ + previous + ", current="@
            + current
    }
}

/// What a selected check reports: its own findings, under its heading. The source check on its own
/// tells of errors, and of interfaces too.
pub proof fn law_selected_report(previous: PackageModel, current: PackageModel)
    ensures
        ({
            let (p, c) = (previous.exports, current.exports);
            let lines = |check: Check| all_lines(expanded(check), false, previous, current);
            &&& lines(Check::Executable) == under_heading(
                Check::Executable,
                executable_report(p, c),
            )
            &&& lines(Check::FastAbi) == under_heading(Check::FastAbi, fast_abi_report(p, c))
            &&& lines(Check::Source) == under_heading(
                Check::Source,
                source_report(Diagnostic::Error, p, c, true),
            )
            &&& lines(Check::Package) == under_heading(
                Check::Package,
                package_report(previous, current),
            )
        }),
{
    lemma_selected_report(Check::Executable, previous, current);
    lemma_selected_report(Check::FastAbi, previous, current);
    lemma_selected_report(Check::Source, previous, current);
    lemma_selected_report(Check::Package, previous, current);
}

/// The lines of a check between those that open and close its group.
pub open spec fn under_heading(check: Check, lines: Seq<Seq<char>>) -> Seq<Seq<char>> {
    seq!["::group::"@ + check_label(check), "Consequence: "@ + check_consequence(check)] + lines
        + seq!["::endgroup::"@]
}

proof fn lemma_selected_report(check: Check, previous: PackageModel, current: PackageModel)
    requires
        check != Check::All,
    ensures
        all_lines(expanded(check), false, previous, current) == under_heading(
            check,
            check_report(check, false, previous, current),
        ),
{
    let checks = expanded(check);
    assert(checks.drop_last() =~= seq![]);
    assert(checks.last() == check);
    reveal_with_fuel(all_lines, 2);
    let group = group_lines(check, false, previous, current);
    assert(seq![] + group =~= group);
}

/// What a release reports: the executables, then the source, with warnings and without interfaces,
/// then the package. If the source changed, it is noticed that this blocks nothing.
pub proof fn law_release_report(previous: PackageModel, current: PackageModel)
    ensures
        ({
            let (p, c) = (previous.exports, current.exports);
            let notice = if source_fails(p, c, false) {
                seq![
                    "::notice::source compatibility changed; source changes do not block this release"@,
                ]
            } else {
                seq![]
            };
            all_lines(expanded(Check::All), true, previous, current) == under_heading(
                Check::Executable,
                executable_report(p, c),
            ) + under_heading(Check::Source, source_report(Diagnostic::Warning, p, c, false))
                + notice + under_heading(Check::Package, package_report(previous, current))
        }),
{
    let checks = expanded(Check::All);
    let two = checks.drop_last();
    let one = two.drop_last();
    assert(one.drop_last() =~= seq![]);
    assert(checks.last() == Check::Package && two.last() == Check::Source && one.last()
        == Check::Executable);
    reveal_with_fuel(all_lines, 4);
    let (p, c) = (previous.exports, current.exports);
    let notice = if source_fails(p, c, false) {
        seq!["::notice::source compatibility changed; source changes do not block this release"@]
    } else {
        seq![]
    };
    let e = group_lines(Check::Executable, true, previous, current);
    let s = group_lines(Check::Source, true, previous, current);
    let k = group_lines(Check::Package, true, previous, current);
    assert(e == under_heading(Check::Executable, executable_report(p, c)));
    assert(s =~= under_heading(Check::Source, source_report(Diagnostic::Warning, p, c, false))
        + notice);
    assert(k == under_heading(Check::Package, package_report(previous, current)));
    assert(all_lines(checks, true, previous, current) =~= e + s + k);
    let u = under_heading(Check::Source, source_report(Diagnostic::Warning, p, c, false));
    assert(e + (u + notice) + k =~= e + u + notice + k);
}

/// All attributes are told, in their order.
pub proof fn law_every_attribute_is_told(
    attributes: Seq<(Seq<char>, Seq<char>)>,
    name: Seq<char>,
    value: Seq<char>,
)
    ensures
        attributes_text(seq![]) == "None"@,
        attributes_text(seq![(name, value)]) == name + "="@ + value,
        attributes.len() > 0 ==> attributes_text(attributes.push((name, value)))
            == attributes_text(attributes) + ", "@ + name + "="@ + value,
{
    assert(attributes.push((name, value)).drop_last() =~= attributes);
}

// What a package publishes.
/// What is published of a procedure: its digest, the text and the calling convention of its
/// signature, and the sums of the sizes of its parameters and of its results.
pub proof fn law_published_procedure(procedure: ProcedureExport)
    requires
        procedure.signature is Some ==> procedure.signature->Some_0.fits(),
    ensures
        ({
            let p = published_procedure(procedure);
            &&& p.digest == procedure.digest@
            &&& procedure.signature is None ==> p.signature is None && p.calling_convention is None
                && p.felt_layout is None
            &&& procedure.signature is Some ==> {
                let signature = procedure.signature->Some_0;
                &&& p.signature == Some(signature.text@)
                &&& p.calling_convention == Some(signature.abi@)
                &&& p.felt_layout is Some
                &&& p.felt_layout->Some_0.inputs == total(signature.params@)
                &&& p.felt_layout->Some_0.outputs == total(signature.results@)
            }
        }),
{
    if procedure.signature is Some {
        let signature = procedure.signature->Some_0;
        law_total(signature.params@, seq![]);
        law_total(signature.results@, seq![]);
    }
}

/// A sum of sizes: of none it is zero, of one it is the size, and of two lists one after the other
/// it is the sum of both. It is never negative.
pub proof fn law_total(a: Seq<usize>, b: Seq<usize>)
    ensures
        total(seq![]) == 0,
        forall|x: usize| #[trigger] total(seq![x]) == x,
        total(a + b) == total(a) + total(b),
        total(a) >= 0,
    decreases a.len() + b.len(),
{
    assert forall|x: usize| #[trigger] total(seq![x]) == x by {
        assert(seq![x].drop_last() =~= seq![]);
        reveal_with_fuel(total, 2);
    }
    if b.len() > 0 {
        assert((a + b).drop_last() =~= a + b.drop_last());
        law_total(a, b.drop_last());
    } else {
        assert(a + b =~= a);
        if a.len() > 0 {
            law_total(a.drop_last(), b);
        }
    }
}

/// Of an attribute that is part of what a procedure publishes, the last text under its name is
/// published; of any other nothing is.
pub proof fn law_published_attributes(attributes: Seq<Attribute>, name: Seq<char>)
    ensures
        ({
            let published = name == "account_procedure"@ || name == "auth_script"@ || name
                == "callconv"@ || name == "note_script"@ || name == "transaction_script"@;
            let found = lookup(abi_attributes(attributes), name);
            &&& !published ==> found is None
            &&& published ==> (found is None <==> forall|i: int|
                0 <= i < attributes.len() ==> (#[trigger] attributes[i]).name@ != name)
            &&& published ==> forall|i: int|
                0 <= i < attributes.len() && (#[trigger] attributes[i]).name@ == name && (forall|
                    j: int,
                |
                    i < j < attributes.len() ==> (#[trigger] attributes[j]).name@ != name) ==> found
                    == Some(attributes[i].text@)
        }),
    decreases attributes.len(),
{
    let published = name == "account_procedure"@ || name == "auth_script"@ || name == "callconv"@
        || name == "note_script"@ || name == "transaction_script"@;
    let found = lookup(abi_attributes(attributes), name);
    if attributes.len() > 0 {
        let before = attributes.drop_last();
        let last = attributes.last();
        assert(last == attributes[attributes.len() - 1]);
        law_published_attributes(before, name);
        law_lookup_after_insertion(abi_attributes(before), last.name@, last.text@, name);
        assert(forall|i: int| 0 <= i < before.len() ==> #[trigger] before[i] == attributes[i]);
        if published {
            let found_before = lookup(abi_attributes(before), name);
            if last.name@ != name {
                assert(found == found_before);
                assert((forall|i: int|
                    0 <= i < before.len() ==> (#[trigger] before[i]).name@ != name) <==> (forall|
                    i: int,
                |
                    0 <= i < attributes.len() ==> (#[trigger] attributes[i]).name@ != name)) by {
                    if forall|i: int|
                        0 <= i < before.len() ==> (#[trigger] before[i]).name@ != name {
                        assert forall|i: int| 0 <= i < attributes.len() implies (
                        #[trigger] attributes[i]).name@ != name by {
                            if i < before.len() {
                                assert(before[i].name@ != name);
                            }
                        }
                    }
                    if forall|i: int|
                        0 <= i < attributes.len() ==> (#[trigger] attributes[i]).name@ != name {
                        assert forall|i: int| 0 <= i < before.len() implies (
                        #[trigger] before[i]).name@ != name by {
                            assert(attributes[i].name@ != name);
                        }
                    }
                }
            }
            assert forall|i: int|
                0 <= i < attributes.len() && (#[trigger] attributes[i]).name@ == name && (forall|
                    j: int,
                |
                    i < j < attributes.len() ==> (#[trigger] attributes[j]).name@
                        != name) implies found == Some(attributes[i].text@) by {
                if i < before.len() {
                    assert(attributes[attributes.len() - 1].name@ != name);
                    assert(before[i].name@ == name);
                    assert forall|j: int| i < j < before.len() implies (#[trigger] before[j]).name@
                        != name by {
                        assert(attributes[j].name@ != name);
                    }
                }
            }
        }
    }
}

} // verus!
