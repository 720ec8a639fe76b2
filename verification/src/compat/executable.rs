//! The executable check: the exported paths and the code that they lead to.
use crate::compat::name_map::lookup;
use crate::compat::package::{
    classify_procedure_compatibility, compatibility, export_text, interface_text, ExportInfo,
    ExportModel, Exports, ProcedureCompatibility,
};
use crate::compat::report::{failure, Report};
use crate::compat::text::{decimal, number_text};
use vstd::prelude::*;
use vstd::string::*;

verus! {

/// An export is no longer there as the same code.
pub open spec fn executable_broken(previous: ExportModel, current: Option<ExportModel>) -> bool {
    match previous {
        ExportModel::Type(_) => false,
        ExportModel::Procedure(old_procedure) => match current {
            Some(ExportModel::Procedure(new_procedure)) => old_procedure.digest
                != new_procedure.digest,
            _ => true,
        },
    }
}

/// What is reported of an export.
pub open spec fn executable_lines(
    name: Seq<char>,
    previous: ExportModel,
    current: Option<ExportModel>,
) -> Seq<Seq<char>> {
    match previous {
        ExportModel::Type(_) => seq![],
        ExportModel::Procedure(old_procedure) => match current {
            Some(ExportModel::Procedure(new_procedure)) => match compatibility(
                old_procedure,
                new_procedure,
            ) {
                ProcedureCompatibility::Compatible => seq![],
                ProcedureCompatibility::InterfaceChanged => seq![
                    "::warning::procedure interface changed for "@ + name
                        + " without an executable change; source callers may need updates: previous="@
                        + interface_text(old_procedure) + ", current="@ + interface_text(
                        new_procedure,
                    ),
                ],
                ProcedureCompatibility::ExecutableChanged { interface_changed } => {
                    let root = "::error::procedure executable changed for "@ + name
                        + ": MAST root previous="@ + old_procedure.digest + ", current="@
                        + new_procedure.digest + "; interface="@ + if interface_changed {
                        "changed"@
                    } else {
                        "unchanged"@
                    };
                    if interface_changed {
                        seq![
                            root,
                            "::error::procedure interface also changed for "@ + name
                                + ": previous="@ + interface_text(old_procedure) + ", current="@
                                + interface_text(new_procedure),
                        ]
                    } else {
                        seq![root]
                    }
                },
            },
            Some(new_export) => seq![
                "::error::executable export kind changed for "@ + name + ": previous="@
                    + export_text(previous) + ", current="@ + export_text(new_export),
            ],
            None => seq!["::error::executable export removed: "@ + name],
        },
    }
}

/// What is reported of all exports.
pub open spec fn executable_findings(
    previous: Seq<(Seq<char>, ExportModel)>,
    current: Seq<(Seq<char>, ExportModel)>,
) -> Seq<Seq<char>>
    decreases previous.len(),
{
    if previous.len() == 0 {
        seq![]
    } else {
        let (name, export) = previous.last();
        executable_findings(previous.drop_last(), current) + executable_lines(
            name,
            export,
            lookup(current, name),
        )
    }
}

/// The number of procedures.
pub open spec fn procedures(exports: Seq<(Seq<char>, ExportModel)>) -> nat
    decreases exports.len(),
{
    if exports.len() == 0 {
        0
    } else {
        procedures(exports.drop_last()) + if exports.last().1 is Procedure {
            1nat
        } else {
            0nat
        }
    }
}

/// The lines of the executable check.
pub open spec fn executable_report(
    previous: Seq<(Seq<char>, ExportModel)>,
    current: Seq<(Seq<char>, ExportModel)>,
) -> Seq<Seq<char>> {
    executable_findings(previous, current).push(
        "checked "@ + decimal(procedures(previous)) + " previously published procedure digests"@,
    )
}

/// The executable check fails: a published procedure is no longer there as the same code.
pub open spec fn executable_fails(
    previous: Seq<(Seq<char>, ExportModel)>,
    current: Seq<(Seq<char>, ExportModel)>,
) -> bool {
    exists|i: int|
        0 <= i < previous.len() && executable_broken(
            (#[trigger] previous[i]).1,
            lookup(current, previous[i].0),
        )
}

fn report_executable(
    name: &String,
    previous_export: &ExportInfo,
    current_export: Option<&ExportInfo>,
    report: &mut Report,
) -> (r: bool)
    ensures
        ({
            let current = match current_export {
                Some(export) => Some(export@),
                None => None,
            };
            &&& r == executable_broken(previous_export@, current)
            &&& final(report)@ == old(report)@ + executable_lines(
                name@,
                previous_export@,
                current,
            )
        }),
{
    let ghost before = report@;
    let broken = match (previous_export, current_export) {
        (ExportInfo::Type(_), _) => false,
        (
            ExportInfo::Procedure(previous_procedure),
            Some(ExportInfo::Procedure(current_procedure)),
        ) => match classify_procedure_compatibility(previous_procedure, current_procedure) {
            ProcedureCompatibility::Compatible => false,
            ProcedureCompatibility::InterfaceChanged => {
                report.line(
                    "::warning::procedure interface changed for ".to_owned().concat(
                        name.as_str(),
                    ).concat(
                        " without an executable change; source callers may need updates: previous=",
                    ).concat(previous_procedure.interface_description().as_str()).concat(
                        ", current=",
                    ).concat(current_procedure.interface_description().as_str()),
                );
                false
            },
            ProcedureCompatibility::ExecutableChanged { interface_changed } => {
                report.line(
                    "::error::procedure executable changed for ".to_owned().concat(
                        name.as_str(),
                    ).concat(": MAST root previous=").concat(
                        previous_procedure.digest.as_str(),
                    ).concat(", current=").concat(current_procedure.digest.as_str()).concat(
                        "; interface=",
                    ).concat(
                        if interface_changed {
                            "changed"
                        } else {
                            "unchanged"
                        },
                    ),
                );
                if interface_changed {
                    report.line(
                        "::error::procedure interface also changed for ".to_owned().concat(
                            name.as_str(),
                        ).concat(": previous=").concat(
                            previous_procedure.interface_description().as_str(),
                        ).concat(", current=").concat(
                            current_procedure.interface_description().as_str(),
                        ),
                    );
                }
                true
            },
        },
        (ExportInfo::Procedure(_), Some(current_export)) => {
            report.line(
                "::error::executable export kind changed for ".to_owned().concat(
                    name.as_str(),
                ).concat(": previous=").concat(previous_export.describe().as_str()).concat(
                    ", current=",
                ).concat(current_export.describe().as_str()),
            );
            true
        },
        (ExportInfo::Procedure(_), None) => {
            report.line(
                "::error::executable export removed: ".to_owned().concat(name.as_str()),
            );
            true
        },
    };
    proof {
        let current = match current_export {
            Some(export) => Some(export@),
            None => None,
        };
        assert(report@ =~= before + executable_lines(name@, previous_export@, current));
    }
    broken
}

proof fn lemma_appended(a: Seq<Seq<char>>, b: Seq<Seq<char>>, c: Seq<Seq<char>>)
    ensures
        (a + b) + c == a + (b + c),
{
    assert((a + b) + c =~= a + (b + c));
}

/// What one export more adds to the outcome, the count and the findings.
proof fn lemma_step(
    previous: Seq<(Seq<char>, ExportModel)>,
    current: Seq<(Seq<char>, ExportModel)>,
    i: int,
)
    requires
        0 <= i < previous.len(),
    ensures
        ({
            let (done, next) = (previous.take(i), previous.take(i + 1));
            let (name, export) = previous[i];
            let found = lookup(current, name);
            &&& executable_fails(next, current) == (executable_fails(done, current) || executable_broken(export, found))
            &&& procedures(next) == procedures(done) + if export is Procedure { 1nat } else { 0nat }
            &&& executable_findings(next, current) == executable_findings(done, current) + executable_lines(name, export, found)
        }),
{
    let (done, next) = (previous.take(i), previous.take(i + 1));
    assert(next.drop_last() =~= done);
    assert(next.last() == previous[i]);
    assert(next[i] == previous[i]);
    if executable_fails(done, current) {
        let j = choose|j: int|
            0 <= j < done.len() && executable_broken((#[trigger] done[j]).1, lookup(current, done[j].0));
        assert(done[j] == next[j]);
    }
    if executable_fails(next, current) {
        let j = choose|j: int|
            0 <= j < next.len() && executable_broken((#[trigger] next[j]).1, lookup(current, next[j].0));
        if j < i {
            assert(done[j] == next[j]);
        }
    }
}

/// Whether old compiled callers resolve the same paths to the same code.
pub fn compare_executable(
    previous: &Exports,
    current: &Exports,
    report: &mut Report,
) -> (r: Result<(), String>)
    ensures
        failure(r) == if executable_fails(previous@, current@) {
            Some("executable exports changed"@)
        } else {
            None
        },
        final(report)@ == old(report)@ + executable_report(previous@, current@),
{
    let ghost before = report@;
    let mut broken = false;
    let mut checked: usize = 0;
    let n: usize = previous.len();
    assert(previous@.take(0) =~= seq![]);
    assert(before + executable_findings(previous@.take(0), current@) =~= before);
    for i in 0..n
        invariant
            n == previous@.len(),
            before == old(report)@,
            broken == executable_fails(previous@.take(i as int), current@),
            checked == procedures(previous@.take(i as int)),
            checked <= i,
            report@ == before + executable_findings(previous@.take(i as int), current@),
    {
        let ghost done = previous@.take(i as int);
        let name = previous.name_at(i);
        let export = previous.value_at(i);
        if let ExportInfo::Procedure(_) = export {
            checked = checked + 1;
        }
        let found = report_executable(name, export, current.get(name), report);
        proof {
            lemma_step(previous@, current@, i as int);
            lemma_appended(
                before,
                executable_findings(done, current@),
                executable_lines(name@, export@, lookup(current@, name@)),
            );
        }
        broken = broken || found;
    }
    assert(previous@.take(n as int) =~= previous@);
    report.line(
        "checked ".to_owned().concat(number_text(checked).as_str()).concat(
            " previously published procedure digests",
        ),
    );
    assert(report@ =~= before + executable_report(previous@, current@));
    if broken {
        Err("executable exports changed".to_owned())
    } else {
        Ok(())
    }
}

} // verus!
