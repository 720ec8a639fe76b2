//! The source check: the signatures, calling conventions, types and attributes that source
//! callers see.
use crate::compat::canonical::canonical;
use crate::compat::check::{annotation_text, Diagnostic};
use crate::compat::name_map::{lookup, NameMap};
use crate::compat::package::{
    export_text, same_canonical_text, same_optional_text, text_or, text_or_else, ExportInfo,
    ExportModel, Exports, ProcedureInfo, ProcedureModel,
};
use crate::compat::report::{failure, Report};
use crate::compat::text::{decimal, number_text};
use vstd::prelude::*;
use vstd::string::*;

verus! {

/// A published signature is no longer the same, field labels and layout aside.
pub open spec fn signature_changed(previous: ProcedureModel, current: ProcedureModel) -> bool {
    previous.signature is Some && canonical(text_or(previous.signature, ""@)) != canonical(
        text_or(current.signature, ""@),
    )
}

/// A published calling convention is no longer the same.
pub open spec fn convention_changed(previous: ProcedureModel, current: ProcedureModel) -> bool {
    previous.calling_convention is Some && previous.calling_convention
        != current.calling_convention
}

/// A published attribute is no longer there with the same value.
pub open spec fn attribute_changed(
    attribute: (Seq<char>, Seq<char>),
    current: ProcedureModel,
) -> bool {
    lookup(current.abi_attributes, attribute.0) != Some(attribute.1)
}

/// One of the published attributes is no longer there with the same value.
pub open spec fn attributes_changed(
    attributes: Seq<(Seq<char>, Seq<char>)>,
    current: ProcedureModel,
) -> bool {
    exists|i: int| 0 <= i < attributes.len() && attribute_changed(#[trigger] attributes[i], current)
}

/// The source of a procedure changed. Added metadata is no change.
pub open spec fn source_procedure_changed(
    previous: ProcedureModel,
    current: ProcedureModel,
    report_interface: bool,
) -> bool {
    ||| report_interface && signature_changed(previous, current)
    ||| report_interface && convention_changed(previous, current)
    ||| attributes_changed(previous.abi_attributes, current)
}

/// How a line on an export begins.
pub open spec fn opening(diagnostic: Diagnostic, what: Seq<char>, name: Seq<char>) -> Seq<char> {
    "::"@ + annotation_text(diagnostic) + "::"@ + what + name
}

fn begin_line(diagnostic: Diagnostic, what: &str, name: &str) -> (r: String)
    ensures
        r@ == opening(diagnostic, what@, name@),
{
    "::".to_owned().concat(diagnostic.annotation()).concat("::").concat(what).concat(name)
}

/// How a line on a change ends.
pub open spec fn from_to(previous: Seq<char>, current: Seq<char>) -> Seq<char> {
    "previous="@ + previous + ", current="@ + current
}

fn write_from_to(previous: &str, current: &str) -> (r: String)
    ensures
        r@ == from_to(previous@, current@),
{
    "previous=".to_owned().concat(previous).concat(", current=").concat(current)
}

/// What is reported of the attributes of a procedure.
pub open spec fn attribute_lines(
    diagnostic: Diagnostic,
    name: Seq<char>,
    attributes: Seq<(Seq<char>, Seq<char>)>,
    current: ProcedureModel,
) -> Seq<Seq<char>>
    decreases attributes.len(),
{
    if attributes.len() == 0 {
        seq![]
    } else {
        let before = attribute_lines(diagnostic, name, attributes.drop_last(), current);
        let (attribute, value) = attributes.last();
        if attribute_changed(attributes.last(), current) {
            before.push(
                opening(diagnostic, "source attribute changed for "@, name) + ": "@ + attribute
                    + " "@ + from_to(
                    value,
                    text_or(lookup(current.abi_attributes, attribute), "None"@),
                ),
            )
        } else {
            before
        }
    }
}

/// What is reported of a procedure.
pub open spec fn source_procedure_lines(
    diagnostic: Diagnostic,
    name: Seq<char>,
    previous: ProcedureModel,
    current: ProcedureModel,
    report_interface: bool,
) -> Seq<Seq<char>> {
    let signature = if report_interface && signature_changed(previous, current) {
        seq![
            opening(diagnostic, "source signature changed for "@, name) + ": "@ + from_to(
                text_or(previous.signature, "None"@),
                text_or(current.signature, "None"@),
            ),
        ]
    } else {
        seq![]
    };
    let convention = if report_interface && convention_changed(previous, current) {
        seq![
            opening(diagnostic, "source calling convention changed for "@, name) + ": "@ + from_to(
                text_or(previous.calling_convention, "None"@),
                text_or(current.calling_convention, "None"@),
            ),
        ]
    } else {
        seq![]
    };
    signature + convention + attribute_lines(diagnostic, name, previous.abi_attributes, current)
}

/// Reports what changed for source callers of a procedure, and tells whether anything did.
pub fn compare_source_procedure(
    name: &str,
    previous: &ProcedureInfo,
    current: &ProcedureInfo,
    diagnostic: Diagnostic,
    report_interface: bool,
    report: &mut Report,
) -> (r: bool)
    ensures
        r == source_procedure_changed(previous@, current@, report_interface),
        final(report)@ == old(report)@ + source_procedure_lines(
            diagnostic,
            name@,
            previous@,
            current@,
            report_interface,
        ),
{
    let ghost before = report@;
    let mut changed = false;
    if report_interface && previous.signature.is_some() && !same_canonical_text(
        text_or_else(&previous.signature, ""),
        text_or_else(&current.signature, ""),
    ) {
        report.line(
            begin_line(diagnostic, "source signature changed for ", name).concat(": ").concat(
                write_from_to(
                    text_or_else(&previous.signature, "None"),
                    text_or_else(&current.signature, "None"),
                ).as_str(),
            ),
        );
        changed = true;
    }
    if report_interface && previous.calling_convention.is_some() && !same_optional_text(
        &previous.calling_convention,
        &current.calling_convention,
    ) {
        report.line(
            begin_line(diagnostic, "source calling convention changed for ", name).concat(
                ": ",
            ).concat(
                write_from_to(
                    text_or_else(&previous.calling_convention, "None"),
                    text_or_else(&current.calling_convention, "None"),
                ).as_str(),
            ),
        );
        changed = true;
    }
    let ghost interface_lines = report@;
    let ghost interface_changed = changed;
    let attributes = &previous.abi_attributes;
    let n: usize = attributes.len();
    for i in 0..n
        invariant
            n == attributes@.len(),
            changed == (interface_changed || attributes_changed(
                attributes@.take(i as int),
                current@,
            )),
            report@ =~= interface_lines + attribute_lines(
                diagnostic,
                name@,
                attributes@.take(i as int),
                current@,
            ),
    {
        let ghost done = attributes@.take(i as int);
        let ghost next = attributes@.take(i + 1);
        let attribute = attributes.name_at(i);
        let value = attributes.value_at(i);
        let current_value = current.abi_attributes.get(attribute);
        let same = match current_value {
            Some(current_value) => *value == *current_value,
            None => false,
        };
        proof {
            assert(next.drop_last() =~= done);
            assert(next.last() == attributes@[i as int]);
            assert(same == !attribute_changed(next[i as int], current@));
            if attributes_changed(done, current@) {
                let j = choose|j: int|
                    0 <= j < done.len() && attribute_changed(#[trigger] done[j], current@);
                assert(done[j] == next[j]);
            }
            if attributes_changed(next, current@) {
                let j = choose|j: int|
                    0 <= j < next.len() && attribute_changed(#[trigger] next[j], current@);
                if j < i {
                    assert(done[j] == next[j]);
                }
            }
        }
        if !same {
            let shown = match current_value {
                Some(current_value) => current_value.as_str(),
                None => "None",
            };
            report.line(
                begin_line(diagnostic, "source attribute changed for ", name).concat(": ").concat(
                    attribute.as_str(),
                ).concat(" ").concat(
                    write_from_to(value.as_str(), shown).as_str(),
                ),
            );
            changed = true;
        }
    }
    proof {
        assert(attributes@.take(n as int) =~= attributes@);
        assert(report@ =~= before + source_procedure_lines(
            diagnostic,
            name@,
            previous@,
            current@,
            report_interface,
        ));
    }
    changed
}

/// The source of an export changed, or it is no longer there.
pub open spec fn source_changed(
    previous: ExportModel,
    current: Option<ExportModel>,
    report_interfaces: bool,
) -> bool {
    current != Some(previous) && match (previous, current) {
        (
            ExportModel::Procedure(old_procedure),
            Some(ExportModel::Procedure(new_procedure)),
        ) => source_procedure_changed(old_procedure, new_procedure, report_interfaces),
        (ExportModel::Type(old_type), Some(ExportModel::Type(new_type))) => canonical(old_type)
            != canonical(new_type),
        _ => true,
    }
}

/// What is reported of an export.
pub open spec fn source_lines(
    diagnostic: Diagnostic,
    name: Seq<char>,
    previous: ExportModel,
    current: Option<ExportModel>,
    report_interfaces: bool,
) -> Seq<Seq<char>> {
    if !source_changed(previous, current, report_interfaces) {
        seq![]
    } else {
        match (previous, current) {
            (
                ExportModel::Procedure(old_procedure),
                Some(ExportModel::Procedure(new_procedure)),
            ) => source_procedure_lines(
                diagnostic,
                name,
                old_procedure,
                new_procedure,
                report_interfaces,
            ),
            (ExportModel::Type(old_type), Some(ExportModel::Type(new_type))) => seq![
                opening(diagnostic, "source type changed for "@, name) + ": "@ + from_to(
                    old_type,
                    new_type,
                ),
            ],
            (_, Some(new_export)) => seq![
                opening(diagnostic, "source export kind changed for "@, name) + ": "@ + from_to(
                    export_text(previous),
                    export_text(new_export),
                ),
            ],
            (_, None) => seq![
                opening(diagnostic, "source export removed: "@, name) + " previous="@
                    + export_text(previous),
            ],
        }
    }
}

/// What is reported of all published exports.
pub open spec fn source_findings(
    diagnostic: Diagnostic,
    previous: Seq<(Seq<char>, ExportModel)>,
    current: Seq<(Seq<char>, ExportModel)>,
    report_interfaces: bool,
) -> Seq<Seq<char>>
    decreases previous.len(),
{
    if previous.len() == 0 {
        seq![]
    } else {
        let (name, export) = previous.last();
        source_findings(diagnostic, previous.drop_last(), current, report_interfaces)
            + source_lines(diagnostic, name, export, lookup(current, name), report_interfaces)
    }
}

/// The number of exports that were not published before.
pub open spec fn added_exports(
    previous: Seq<(Seq<char>, ExportModel)>,
    current: Seq<(Seq<char>, ExportModel)>,
) -> nat
    decreases current.len(),
{
    if current.len() == 0 {
        0
    } else {
        added_exports(previous, current.drop_last()) + if lookup(
            previous,
            current.last().0,
        ) is None {
            1nat
        } else {
            0nat
        }
    }
}

/// The lines of the source check.
pub open spec fn source_report(
    diagnostic: Diagnostic,
    previous: Seq<(Seq<char>, ExportModel)>,
    current: Seq<(Seq<char>, ExportModel)>,
    report_interfaces: bool,
) -> Seq<Seq<char>> {
    let findings = source_findings(diagnostic, previous, current, report_interfaces);
    let added = added_exports(previous, current);
    if added > 0 {
        findings.push(
            "::notice::"@ + decimal(added)
                + " source exports added; additions are source-compatible"@,
        )
    } else {
        findings
    }
}

/// The source check fails: the source of a published export changed.
pub open spec fn source_fails(
    previous: Seq<(Seq<char>, ExportModel)>,
    current: Seq<(Seq<char>, ExportModel)>,
    report_interfaces: bool,
) -> bool {
    exists|i: int|
        0 <= i < previous.len() && source_changed(
            (#[trigger] previous[i]).1,
            lookup(current, previous[i].0),
            report_interfaces,
        )
}

/// Whether two lists of attributes are the same.
fn same_attributes(a: &NameMap<String>, b: &NameMap<String>) -> (r: bool)
    ensures
        r == (a@ == b@),
{
    let n: usize = a.len();
    if n != b.len() {
        return false;
    }
    for i in 0..n
        invariant
            n == a@.len(),
            n == b@.len(),
            forall|j: int| 0 <= j < i ==> a@[j] == b@[j],
    {
        if *a.name_at(i) != *b.name_at(i) || *a.value_at(i) != *b.value_at(i) {
            assert(a@[i as int] != b@[i as int]);
            return false;
        }
    }
    assert(a@ =~= b@);
    true
}

/// Whether two exports are the same.
fn same_export(a: &ExportInfo, b: &ExportInfo) -> (r: bool)
    ensures
        r == (a@ == b@),
{
    match (a, b) {
        (ExportInfo::Procedure(a), ExportInfo::Procedure(b)) => a.digest == b.digest
            && same_optional_text(&a.signature, &b.signature) && same_optional_text(
            &a.calling_convention,
            &b.calling_convention,
        ) && a.felt_layout == b.felt_layout && same_attributes(
            &a.abi_attributes,
            &b.abi_attributes,
        ),
        (ExportInfo::Type(a), ExportInfo::Type(b)) => a.ty == b.ty,
        (ExportInfo::Procedure(_), ExportInfo::Type(_)) => false,
        (ExportInfo::Type(_), ExportInfo::Procedure(_)) => false,
    }
}

fn report_source(
    name: &String,
    previous_export: &ExportInfo,
    current_export: Option<&ExportInfo>,
    diagnostic: Diagnostic,
    report_interfaces: bool,
    report: &mut Report,
) -> (r: bool)
    ensures
        ({
            let current = match current_export {
                Some(export) => Some(export@),
                None => None,
            };
            &&& r == source_changed(previous_export@, current, report_interfaces)
            &&& final(report)@ == old(report)@ + source_lines(
                diagnostic,
                name@,
                previous_export@,
                current,
                report_interfaces,
            )
        }),
{
    let ghost before = report@;
    assert(before =~= before + seq![]);
    let changed = match current_export {
        Some(current_export) => {
            if same_export(previous_export, current_export) {
                false
            } else {
                match (previous_export, current_export) {
                    (ExportInfo::Procedure(previous), ExportInfo::Procedure(current)) => {
                        let changed = compare_source_procedure(
                            name.as_str(),
                            previous,
                            current,
                            diagnostic,
                            report_interfaces,
                            report,
                        );
                        proof {
                            lemma_unchanged_is_silent(
                                diagnostic,
                                name@,
                                previous@,
                                current@,
                                report_interfaces,
                            );
                        }
                        changed
                    },
                    (ExportInfo::Type(previous), ExportInfo::Type(current)) => {
                        if same_canonical_text(previous.ty.as_str(), current.ty.as_str()) {
                            false
                        } else {
                            report.line(
                                begin_line(
                                    diagnostic,
                                    "source type changed for ",
                                    name.as_str(),
                                ).concat(": ").concat(
                                    write_from_to(
                                        previous.ty.as_str(),
                                        current.ty.as_str(),
                                    ).as_str(),
                                ),
                            );
                            assert(report@ =~= before + seq![report@.last()]);
                            true
                        }
                    },
                    (_, _) => {
                        report.line(
                            begin_line(
                                diagnostic,
                                "source export kind changed for ",
                                name.as_str(),
                            ).concat(": ").concat(
                                write_from_to(
                                    previous_export.describe().as_str(),
                                    current_export.describe().as_str(),
                                ).as_str(),
                            ),
                        );
                        assert(report@ =~= before + seq![report@.last()]);
                        true
                    },
                }
            }
        },
        None => {
            report.line(
                begin_line(diagnostic, "source export removed: ", name.as_str()).concat(
                    " previous=",
                ).concat(previous_export.describe().as_str()),
            );
            assert(report@ =~= before + seq![report@.last()]);
            true
        },
    };
    changed
}

proof fn lemma_unchanged_attributes_are_silent(
    diagnostic: Diagnostic,
    name: Seq<char>,
    attributes: Seq<(Seq<char>, Seq<char>)>,
    current: ProcedureModel,
)
    ensures
        attributes_changed(attributes, current) <==> attribute_lines(
            diagnostic,
            name,
            attributes,
            current,
        ).len() > 0,
    decreases attributes.len(),
{
    if attributes.len() > 0 {
        let before = attributes.drop_last();
        lemma_unchanged_attributes_are_silent(diagnostic, name, before, current);
        assert(attributes.last() == attributes[attributes.len() - 1]);
        if attributes_changed(before, current) {
            let j = choose|j: int|
                0 <= j < before.len() && attribute_changed(#[trigger] before[j], current);
            assert(before[j] == attributes[j]);
        }
        if attributes_changed(attributes, current) {
            let j = choose|j: int|
                0 <= j < attributes.len() && attribute_changed(#[trigger] attributes[j], current);
            if j < before.len() {
                assert(before[j] == attributes[j]);
            }
        }
    }
}

pub proof fn lemma_unchanged_is_silent(
    diagnostic: Diagnostic,
    name: Seq<char>,
    previous: ProcedureModel,
    current: ProcedureModel,
    report_interface: bool,
)
    ensures
        source_procedure_changed(previous, current, report_interface) <==> source_procedure_lines(
            diagnostic,
            name,
            previous,
            current,
            report_interface,
        ).len() > 0,
        !source_procedure_changed(previous, current, report_interface) ==> source_procedure_lines(
            diagnostic,
            name,
            previous,
            current,
            report_interface,
        ) == Seq::<Seq<char>>::empty(),
{
    lemma_unchanged_attributes_are_silent(diagnostic, name, previous.abi_attributes, current);
    let lines = source_procedure_lines(diagnostic, name, previous, current, report_interface);
    if lines.len() == 0 {
        assert(lines =~= Seq::empty());
    }
}

proof fn lemma_appended(a: Seq<Seq<char>>, b: Seq<Seq<char>>, c: Seq<Seq<char>>)
    ensures
        (a + b) + c == a + (b + c),
{
    assert((a + b) + c =~= a + (b + c));
}

/// What one export more adds to the outcome and to the findings.
proof fn lemma_source_step(
    diagnostic: Diagnostic,
    previous: Seq<(Seq<char>, ExportModel)>,
    current: Seq<(Seq<char>, ExportModel)>,
    report_interfaces: bool,
    i: int,
)
    requires
        0 <= i < previous.len(),
    ensures
        ({
            let (done, next) = (previous.take(i), previous.take(i + 1));
            let (name, export) = previous[i];
            let found = lookup(current, name);
            &&& source_fails(next, current, report_interfaces) == (source_fails(
                done,
                current,
                report_interfaces,
            ) || source_changed(export, found, report_interfaces))
            &&& source_findings(diagnostic, next, current, report_interfaces) == source_findings(
                diagnostic,
                done,
                current,
                report_interfaces,
            ) + source_lines(diagnostic, name, export, found, report_interfaces)
        }),
{
    let (done, next) = (previous.take(i), previous.take(i + 1));
    assert(next.drop_last() =~= done);
    assert(next.last() == previous[i]);
    assert(next[i] == previous[i]);
    if source_fails(done, current, report_interfaces) {
        let j = choose|j: int|
            0 <= j < done.len() && source_changed(
                (#[trigger] done[j]).1,
                lookup(current, done[j].0),
                report_interfaces,
            );
        assert(done[j] == next[j]);
    }
    if source_fails(next, current, report_interfaces) {
        let j = choose|j: int|
            0 <= j < next.len() && source_changed(
                (#[trigger] next[j]).1,
                lookup(current, next[j].0),
                report_interfaces,
            );
        if j < i {
            assert(done[j] == next[j]);
        }
    }
}

/// Whether source written against the published exports needs no changes.
pub fn compare_source(
    previous: &Exports,
    current: &Exports,
    diagnostic: Diagnostic,
    report_interfaces: bool,
    report: &mut Report,
) -> (r: Result<(), String>)
    ensures
        failure(r) == if source_fails(previous@, current@, report_interfaces) {
            Some("source exports changed"@)
        } else {
            None
        },
        final(report)@ == old(report)@ + source_report(
            diagnostic,
            previous@,
            current@,
            report_interfaces,
        ),
{
    let ghost before = report@;
    let mut changed = false;
    let n: usize = previous.len();
    assert(previous@.take(0) =~= seq![]);
    assert(before + source_findings(diagnostic, previous@.take(0), current@, report_interfaces)
        =~= before);
    for i in 0..n
        invariant
            n == previous@.len(),
            before == old(report)@,
            changed == source_fails(previous@.take(i as int), current@, report_interfaces),
            report@ == before + source_findings(
                diagnostic,
                previous@.take(i as int),
                current@,
                report_interfaces,
            ),
    {
        let ghost done = previous@.take(i as int);
        let name = previous.name_at(i);
        let export = previous.value_at(i);
        let found = report_source(
            name,
            export,
            current.get(name),
            diagnostic,
            report_interfaces,
            report,
        );
        proof {
            lemma_source_step(diagnostic, previous@, current@, report_interfaces, i as int);
            lemma_appended(
                before,
                source_findings(diagnostic, done, current@, report_interfaces),
                source_lines(
                    diagnostic,
                    name@,
                    export@,
                    lookup(current@, name@),
                    report_interfaces,
                ),
            );
        }
        changed = changed || found;
    }
    assert(previous@.take(n as int) =~= previous@);
    let ghost findings = report@;
    let mut added: usize = 0;
    let m: usize = current.len();
    for i in 0..m
        invariant
            m == current@.len(),
            added <= i,
            added == added_exports(previous@, current@.take(i as int)),
    {
        proof {
            assert(current@.take(i + 1).drop_last() =~= current@.take(i as int));
            assert(current@.take(i + 1).last() == current@[i as int]);
        }
        if previous.get(current.name_at(i)).is_none() {
            added = added + 1;
        }
    }
    assert(current@.take(m as int) =~= current@);
    if added > 0 {
        report.line(
            "::notice::".to_owned().concat(number_text(added).as_str()).concat(
                " source exports added; additions are source-compatible",
            ),
        );
    }
    assert(report@ =~= before + source_report(diagnostic, previous@, current@, report_interfaces));
    if changed {
        Err("source exports changed".to_owned())
    } else {
        Ok(())
    }
}

} // verus!
