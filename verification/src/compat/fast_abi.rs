//! The Fast ABI check: the number of felts that published Fast procedures take and give.
use crate::compat::name_map::lookup;
use crate::compat::package::{
    describe_layout_or, layout_text, layout_text_or, ExportInfo, ExportModel, Exports,
    FeltLayoutInfo, ProcedureInfo, ProcedureModel,
};
use crate::compat::report::{failure, Report};
use crate::compat::text::{decimal, number_text, same_text};
use vstd::prelude::*;
use vstd::string::*;

verus! {

/// The procedure has the calling convention `fast`.
pub open spec fn is_fast(procedure: ProcedureModel) -> bool {
    procedure.calling_convention == Some("fast"@)
}

/// The layout of a Fast procedure.
pub open spec fn fast_layout(export: ExportModel) -> Option<FeltLayoutInfo> {
    match export {
        ExportModel::Procedure(procedure) => if is_fast(procedure) {
            procedure.felt_layout
        } else {
            None
        },
        ExportModel::Type(_) => None,
    }
}

/// A Fast procedure is no longer there with the same layout.
pub open spec fn fast_abi_broken(previous: ExportModel, current: Option<ExportModel>) -> bool {
    fast_layout(previous) is Some && !(current is Some && fast_layout(current->Some_0)
        == fast_layout(previous))
}

/// What is reported of an export.
pub open spec fn fast_abi_lines(
    name: Seq<char>,
    previous: ExportModel,
    current: Option<ExportModel>,
) -> Seq<Seq<char>> {
    if !fast_abi_broken(previous, current) {
        seq![]
    } else {
        match current {
            Some(ExportModel::Procedure(procedure)) => seq![
                "::error::Fast ABI changed for "@ + name + ": previous="@ + layout_text(
                    fast_layout(previous)->Some_0,
                ) + ", current="@ + layout_text_or(procedure.felt_layout, "not Fast"@),
            ],
            _ => seq!["::error::Fast ABI export removed: "@ + name],
        }
    }
}

/// What is reported of all exports.
pub open spec fn fast_abi_findings(
    previous: Seq<(Seq<char>, ExportModel)>,
    current: Seq<(Seq<char>, ExportModel)>,
) -> Seq<Seq<char>>
    decreases previous.len(),
{
    if previous.len() == 0 {
        seq![]
    } else {
        let (name, export) = previous.last();
        fast_abi_findings(previous.drop_last(), current) + fast_abi_lines(
            name,
            export,
            lookup(current, name),
        )
    }
}

/// The number of Fast procedures with a layout.
pub open spec fn fast_procedures(exports: Seq<(Seq<char>, ExportModel)>) -> nat
    decreases exports.len(),
{
    if exports.len() == 0 {
        0
    } else {
        fast_procedures(exports.drop_last()) + if fast_layout(exports.last().1) is Some {
            1nat
        } else {
            0nat
        }
    }
}

/// The lines of the Fast ABI check.
pub open spec fn fast_abi_report(
    previous: Seq<(Seq<char>, ExportModel)>,
    current: Seq<(Seq<char>, ExportModel)>,
) -> Seq<Seq<char>> {
    fast_abi_findings(previous, current).push(
        "checked "@ + decimal(fast_procedures(previous))
            + " previously published Fast procedure layouts"@,
    )
}

/// The Fast ABI check fails: a Fast procedure is no longer there with the same layout.
pub open spec fn fast_abi_fails(
    previous: Seq<(Seq<char>, ExportModel)>,
    current: Seq<(Seq<char>, ExportModel)>,
) -> bool {
    exists|i: int|
        0 <= i < previous.len() && fast_abi_broken(
            (#[trigger] previous[i]).1,
            lookup(current, previous[i].0),
        )
}

fn has_fast_convention(procedure: &ProcedureInfo) -> (r: bool)
    ensures
        r == is_fast(procedure@),
{
    match &procedure.calling_convention {
        Some(convention) => same_text(convention.as_str(), "fast"),
        None => false,
    }
}

fn fast_layout_of(export: &ExportInfo) -> (r: Option<FeltLayoutInfo>)
    ensures
        r == fast_layout(export@),
{
    match export {
        ExportInfo::Procedure(procedure) => if has_fast_convention(procedure) {
            procedure.felt_layout
        } else {
            None
        },
        ExportInfo::Type(_) => None,
    }
}

fn report_fast_abi(
    name: &String,
    previous_export: &ExportInfo,
    current_export: Option<&ExportInfo>,
    report: &mut Report,
) -> (r: bool)
    ensures
        ({
            let current = match current_export {
                Some(export) => Some(export@),
                None => None,
            };
            &&& r == fast_abi_broken(previous_export@, current)
            &&& final(report)@ == old(report)@ + fast_abi_lines(name@, previous_export@, current)
        }),
{
    let ghost before = report@;
    assert(before =~= before + seq![]);
    let previous_abi = match fast_layout_of(previous_export) {
        Some(previous_abi) => previous_abi,
        None => {
            return false;
        },
    };
    match current_export {
        Some(ExportInfo::Procedure(current_procedure)) => {
            if has_fast_convention(current_procedure) {
                if let Some(current_abi) = &current_procedure.felt_layout {
                    if *current_abi == previous_abi {
                        return false;
                    }
                }
            }
            report.line(
                "::error::Fast ABI changed for ".to_owned().concat(name.as_str()).concat(
                    ": previous=",
                ).concat(previous_abi.describe().as_str()).concat(", current=").concat(
                    describe_layout_or(&current_procedure.felt_layout, "not Fast").as_str(),
                ),
            );
        },
        _ => {
            report.line("::error::Fast ABI export removed: ".to_owned().concat(name.as_str()));
        },
    }
    assert(report@ =~= before + seq![report@.last()]);
    true
}

proof fn lemma_appended(a: Seq<Seq<char>>, b: Seq<Seq<char>>, c: Seq<Seq<char>>)
    ensures
        (a + b) + c == a + (b + c),
{
    assert((a + b) + c =~= a + (b + c));
}

/// What one export more adds to the outcome, the count and the findings.
proof fn lemma_step(
    previous: Seq<(Seq<char>, ExportModel)>,
    current: Seq<(Seq<char>, ExportModel)>,
    i: int,
)
    requires
        0 <= i < previous.len(),
    ensures
        ({
            let (done, next) = (previous.take(i), previous.take(i + 1));
            let (name, export) = previous[i];
            let found = lookup(current, name);
            &&& fast_abi_fails(next, current) == (fast_abi_fails(done, current) || fast_abi_broken(export, found))
            &&& fast_procedures(next) == fast_procedures(done) + if fast_layout(export) is Some { 1nat } else { 0nat }
            &&& fast_abi_findings(next, current) == fast_abi_findings(done, current) + fast_abi_lines(name, export, found)
        }),
{
    let (done, next) = (previous.take(i), previous.take(i + 1));
    assert(next.drop_last() =~= done);
    assert(next.last() == previous[i]);
    assert(next[i] == previous[i]);
    if fast_abi_fails(done, current) {
        let j = choose|j: int|
            0 <= j < done.len() && fast_abi_broken((#[trigger] done[j]).1, lookup(current, done[j].0));
        assert(done[j] == next[j]);
    }
    if fast_abi_fails(next, current) {
        let j = choose|j: int|
            0 <= j < next.len() && fast_abi_broken((#[trigger] next[j]).1, lookup(current, next[j].0));
        if j < i {
            assert(done[j] == next[j]);
        }
    }
}

/// Whether old compiled Fast callers provide and receive the same number of felts.
pub fn compare_fast_abi(
    previous: &Exports,
    current: &Exports,
    report: &mut Report,
) -> (r: Result<(), String>)
    ensures
        failure(r) == if fast_abi_fails(previous@, current@) {
            Some("Fast ABI changed"@)
        } else {
            None
        },
        final(report)@ == old(report)@ + fast_abi_report(previous@, current@),
{
    let ghost before = report@;
    let mut broken = false;
    let mut checked: usize = 0;
    let n: usize = previous.len();
    assert(previous@.take(0) =~= seq![]);
    assert(before + fast_abi_findings(previous@.take(0), current@) =~= before);
    for i in 0..n
        invariant
            n == previous@.len(),
            before == old(report)@,
            broken == fast_abi_fails(previous@.take(i as int), current@),
            checked == fast_procedures(previous@.take(i as int)),
            checked <= i,
            report@ == before + fast_abi_findings(previous@.take(i as int), current@),
    {
        let ghost done = previous@.take(i as int);
        let name = previous.name_at(i);
        let export = previous.value_at(i);
        if let Some(_) = fast_layout_of(export) {
            checked = checked + 1;
        }
        let found = report_fast_abi(name, export, current.get(name), report);
        proof {
            lemma_step(previous@, current@, i as int);
            lemma_appended(
                before,
                fast_abi_findings(done, current@),
                fast_abi_lines(name@, export@, lookup(current@, name@)),
            );
        }
        broken = broken || found;
    }
    assert(previous@.take(n as int) =~= previous@);
    report.line(
        "checked ".to_owned().concat(number_text(checked).as_str()).concat(
            " previously published Fast procedure layouts",
        ),
    );
    assert(report@ =~= before + fast_abi_report(previous@, current@));
    if broken {
        Err("Fast ABI changed".to_owned())
    } else {
        Ok(())
    }
}

} // verus!
