//! The package check, and the checks that a release runs.
use crate::compat::check::{check_consequence, check_label, Check, Diagnostic};
use crate::compat::executable::{compare_executable, executable_fails, executable_report};
use crate::compat::fast_abi::{compare_fast_abi, fast_abi_fails, fast_abi_report};
use crate::compat::package::{PackageInfo, PackageModel};
use crate::compat::report::{failure, Report};
use crate::compat::source::{compare_source, source_fails, source_report};
use crate::compat::text::{join, same_text, separated, texts};
use vstd::prelude::*;
use vstd::string::*;

verus! {

/// What is reported of a commitment.
pub open spec fn commitment_line(
    label: Seq<char>,
    previous: Seq<char>,
    current: Seq<char>,
) -> Seq<char> {
    if previous == current {
        label + " commitment unchanged: "@ + current
    } else {
        "::notice::"@ + label + " commitment changed: previous="@ + previous + ", current="@
            + current
    }
}

pub fn report_commitment(label: &str, previous: &str, current: &str, report: &mut Report)
    ensures
        final(report)@ == old(report)@.push(commitment_line(label@, previous@, current@)),
{
    if same_text(previous, current) {
        report.line(label.to_owned().concat(" commitment unchanged: ").concat(current));
    } else {
        report.line(
            "::notice::".to_owned().concat(label).concat(" commitment changed: previous=").concat(
                previous,
            ).concat(", current=").concat(current),
        );
    }
}

/// One version names two dependency commitments.
pub open spec fn is_ambiguous(previous: PackageModel, current: PackageModel) -> bool {
    previous.commitments.dependency != current.commitments.dependency && previous.version
        == current.version
}

/// What the package check fails with.
pub open spec fn package_failure(previous: PackageModel, current: PackageModel) -> Option<
    Seq<char>,
> {
    if is_ambiguous(previous, current) {
        Some("package version identifies two dependency commitments"@)
    } else if previous.name != current.name {
        Some("package identity changed"@)
    } else {
        None
    }
}

/// The lines of the package check.
pub open spec fn package_report(previous: PackageModel, current: PackageModel) -> Seq<Seq<char>> {
    let name = if previous.name != current.name {
        seq![
            "::error::package name changed: previous="@ + previous.name + ", current="@
                + current.name,
        ]
    } else {
        seq![]
    };
    let commitments = seq![
        commitment_line(
            "interface"@,
            previous.commitments.interface,
            current.commitments.interface,
        ),
        commitment_line(
            "MAST forest"@,
            previous.commitments.mast_forest,
            current.commitments.mast_forest,
        ),
        commitment_line("code"@, previous.commitments.code, current.commitments.code),
        commitment_line(
            "dependency"@,
            previous.commitments.dependency,
            current.commitments.dependency,
        ),
    ];
    let dependency = if is_ambiguous(previous, current) {
        seq![
            "::error::package dependency commitment changed without a version change: package="@
                + current.name + " version="@ + current.version + " previous="@
                + previous.commitments.dependency + ", current="@
                + current.commitments.dependency,
        ]
    } else if previous.commitments.dependency != current.commitments.dependency {
        seq![
            "::notice::package dependency commitment changed with version "@ + previous.version
                + " -> "@ + current.version
                + "; serialized dependents remain loadable only while the "@ + previous.name
                + " "@ + previous.version + " package is archived"@,
        ]
    } else {
        seq![]
    };
    name + commitments + dependency
}

/// Whether the package keeps its name, and one version names one dependency commitment.
pub fn compare_package(
    previous: &PackageInfo,
    current: &PackageInfo,
    report: &mut Report,
) -> (r: Result<(), String>)
    ensures
        failure(r) == package_failure(previous@, current@),
        final(report)@ == old(report)@ + package_report(previous@, current@),
{
    let ghost before = report@;
    let mut status: Result<(), String> = Ok(());
    if previous.name != current.name {
        report.line(
            "::error::package name changed: previous=".to_owned().concat(
                previous.name.as_str(),
            ).concat(", current=").concat(current.name.as_str()),
        );
        status = Err("package identity changed".to_owned());
    }
    report_commitment(
        "interface",
        previous.commitments.interface.as_str(),
        current.commitments.interface.as_str(),
        report,
    );
    report_commitment(
        "MAST forest",
        previous.commitments.mast_forest.as_str(),
        current.commitments.mast_forest.as_str(),
        report,
    );
    report_commitment(
        "code",
        previous.commitments.code.as_str(),
        current.commitments.code.as_str(),
        report,
    );
    report_commitment(
        "dependency",
        previous.commitments.dependency.as_str(),
        current.commitments.dependency.as_str(),
        report,
    );
    if previous.commitments.dependency != current.commitments.dependency {
        if previous.version == current.version {
            report.line(
                "::error::package dependency commitment changed without a version change: package=".to_owned().concat(
                    current.name.as_str(),
                ).concat(" version=").concat(current.version.as_str()).concat(" previous=").concat(
                    previous.commitments.dependency.as_str(),
                ).concat(", current=").concat(current.commitments.dependency.as_str()),
            );
            status = Err("package version identifies two dependency commitments".to_owned());
        } else {
            report.line(
                "::notice::package dependency commitment changed with version ".to_owned().concat(
                    previous.version.as_str(),
                ).concat(" -> ").concat(current.version.as_str()).concat(
                    "; serialized dependents remain loadable only while the ",
                ).concat(previous.name.as_str()).concat(" ").concat(
                    previous.version.as_str(),
                ).concat(" package is archived"),
            );
        }
    }
    assert(report@ =~= before + package_report(previous@, current@));
    status
}

/// The checks that one stands for.
pub open spec fn expanded(check: Check) -> Seq<Check> {
    match check {
        Check::All => seq![Check::Executable, Check::Source, Check::Package],
        selected => seq![selected],
    }
}

/// What a single check fails with, in a release or on its own.
pub open spec fn check_failure(
    check: Check,
    release: bool,
    previous: PackageModel,
    current: PackageModel,
) -> Option<Seq<char>> {
    match check {
        Check::All => None,
        Check::Executable => if executable_fails(previous.exports, current.exports) {
            Some("executable exports changed"@)
        } else {
            None
        },
        Check::FastAbi => if fast_abi_fails(previous.exports, current.exports) {
            Some("Fast ABI changed"@)
        } else {
            None
        },
        Check::Source => if source_fails(previous.exports, current.exports, !release) {
            Some("source exports changed"@)
        } else {
            None
        },
        Check::Package => package_failure(previous, current),
    }
}

/// The lines of a single check, in a release or on its own.
pub open spec fn check_report(
    check: Check,
    release: bool,
    previous: PackageModel,
    current: PackageModel,
) -> Seq<Seq<char>> {
    match check {
        Check::All => seq![],
        Check::Executable => executable_report(previous.exports, current.exports),
        Check::FastAbi => fast_abi_report(previous.exports, current.exports),
        Check::Source => source_report(
            if release {
                Diagnostic::Warning
            } else {
                Diagnostic::Error
            },
            previous.exports,
            current.exports,
            !release,
        ),
        Check::Package => package_report(previous, current),
    }
}

/// A failure of the check is only announced: source changes do not block a release.
pub open spec fn is_advisory(check: Check, release: bool) -> bool {
    check == Check::Source && release
}

/// The lines of a single check with its heading, in a release or on its own.
pub open spec fn group_lines(
    check: Check,
    release: bool,
    previous: PackageModel,
    current: PackageModel,
) -> Seq<Seq<char>> {
    let heading = seq![
        "::group::"@ + check_label(check),
        "Consequence: "@ + check_consequence(check),
    ];
    let closing = if check_failure(check, release, previous, current) is Some && is_advisory(
        check,
        release,
    ) {
        seq![
            "::endgroup::"@,
            "::notice::source compatibility changed; source changes do not block this release"@,
        ]
    } else {
        seq!["::endgroup::"@]
    };
    heading + check_report(check, release, previous, current) + closing
}

/// The lines of some checks.
pub open spec fn all_lines(
    checks: Seq<Check>,
    release: bool,
    previous: PackageModel,
    current: PackageModel,
) -> Seq<Seq<char>>
    decreases checks.len(),
{
    if checks.len() == 0 {
        seq![]
    } else {
        all_lines(checks.drop_last(), release, previous, current) + group_lines(
            checks.last(),
            release,
            previous,
            current,
        )
    }
}

/// The titles of those checks that fail.
pub open spec fn failed_labels(
    checks: Seq<Check>,
    release: bool,
    previous: PackageModel,
    current: PackageModel,
) -> Seq<Seq<char>>
    decreases checks.len(),
{
    if checks.len() == 0 {
        seq![]
    } else {
        let before = failed_labels(checks.drop_last(), release, previous, current);
        if check_failure(checks.last(), release, previous, current) is Some && !is_advisory(
            checks.last(),
            release,
        ) {
            before.push(check_label(checks.last()))
        } else {
            before
        }
    }
}

/// What a comparison fails with.
pub open spec fn compatibility_failure(
    check: Check,
    previous: PackageModel,
    current: PackageModel,
) -> Option<Seq<char>> {
    let failed = failed_labels(expanded(check), check == Check::All, previous, current);
    if failed.len() == 0 {
        None
    } else {
        Some("compatibility checks failed: "@ + separated(failed, ", "@))
    }
}

fn run_check(
    selected: Check,
    release_check: bool,
    previous: &PackageInfo,
    current: &PackageInfo,
    report: &mut Report,
) -> (r: Result<(), String>)
    ensures
        failure(r) == check_failure(selected, release_check, previous@, current@),
        final(report)@ == old(report)@ + check_report(
            selected,
            release_check,
            previous@,
            current@,
        ),
{
    assert(report@ =~= report@ + seq![]);
    match selected {
        Check::Executable => compare_executable(&previous.exports, &current.exports, report),
        Check::FastAbi => compare_fast_abi(&previous.exports, &current.exports, report),
        Check::Source => compare_source(
            &previous.exports,
            &current.exports,
            if release_check {
                Diagnostic::Warning
            } else {
                Diagnostic::Error
            },
            !release_check,
            report,
        ),
        Check::Package => compare_package(previous, current, report),
        Check::All => Ok(()),
    }
}

proof fn lemma_appended(
    before: Seq<Seq<char>>,
    first: Seq<char>,
    second: Seq<char>,
    inner: Seq<Seq<char>>,
    last: Seq<char>,
)
    ensures
        (before.push(first).push(second) + inner).push(last) == before + (seq![first, second]
            + inner + seq![last]),
{
    assert((before.push(first).push(second) + inner).push(last) =~= before + (seq![first, second]
        + inner + seq![last]));
}

/// Runs a single check under its heading, and tells whether its failure counts.
fn run_group(
    selected: Check,
    release_check: bool,
    previous: &PackageInfo,
    current: &PackageInfo,
    report: &mut Report,
) -> (r: bool)
    ensures
        r == (check_failure(selected, release_check, previous@, current@) is Some && !is_advisory(
            selected,
            release_check,
        )),
        final(report)@ == old(report)@ + group_lines(
            selected,
            release_check,
            previous@,
            current@,
        ),
{
    let ghost before = report@;
    let ghost inner = check_report(selected, release_check, previous@, current@);
    report.line("::group::".to_owned().concat(selected.label()));
    report.line("Consequence: ".to_owned().concat(selected.consequence()));
    let result = run_check(selected, release_check, previous, current, report);
    report.line("::endgroup::".to_owned());
    let ghost first = "::group::"@ + check_label(selected);
    let ghost second = "Consequence: "@ + check_consequence(selected);
    proof {
        lemma_appended(before, first, second, inner, "::endgroup::"@);
    }
    if result.is_err() && selected == Check::Source && release_check {
        report.line(
            "::notice::source compatibility changed; source changes do not block this release".to_owned(),
        );
        proof {
            let last =
                "::notice::source compatibility changed; source changes do not block this release"@;
            let lines = seq![first, second] + inner + seq!["::endgroup::"@];
            assert((before + lines).push(last) =~= before + lines.push(last));
            assert(lines.push(last) =~= seq![first, second] + inner + seq!["::endgroup::"@, last]);
        }
        false
    } else {
        result.is_err()
    }
}

/// Runs a check, or those of a release, and names those that fail.
pub fn compare_compatibility(
    check: Check,
    previous: &PackageInfo,
    current: &PackageInfo,
    report: &mut Report,
) -> (r: Result<(), String>)
    ensures
        failure(r) == compatibility_failure(check, previous@, current@),
        final(report)@ == old(report)@ + all_lines(
            expanded(check),
            check == Check::All,
            previous@,
            current@,
        ),
{
    let ghost before = report@;
    let release_check = check == Check::All;
    let checks: Vec<Check> = match check {
        Check::All => vec![Check::Executable, Check::Source, Check::Package],
        selected => vec![selected],
    };
    assert(checks@ =~= expanded(check));
    let mut failed: Vec<String> = Vec::new();
    assert(texts(failed@) =~= seq![]);
    for i in 0..checks.len()
        invariant
            before == old(report)@,
            texts(failed@) == failed_labels(
                checks@.take(i as int),
                release_check,
                previous@,
                current@,
            ),
            report@ == before + all_lines(
                checks@.take(i as int),
                release_check,
                previous@,
                current@,
            ),
    {
        let selected = checks[i];
        proof {
            let done = checks@.take(i as int);
            let next = checks@.take(i + 1);
            assert(next.drop_last() =~= done);
            assert(next.last() == selected);
            lemma_concat_associative(
                before,
                all_lines(done, release_check, previous@, current@),
                group_lines(selected, release_check, previous@, current@),
            );
        }
        let ghost failed_before = texts(failed@);
        if run_group(selected, release_check, previous, current, report) {
            failed.push(selected.label().to_owned());
            assert(texts(failed@) =~= failed_before.push(check_label(selected)));
        }
    }
    assert(checks@.take(checks@.len() as int) =~= checks@);
    if failed.len() == 0 {
        Ok(())
    } else {
        Err("compatibility checks failed: ".to_owned().concat(join(&failed, ", ").as_str()))
    }
}

proof fn lemma_concat_associative(a: Seq<Seq<char>>, b: Seq<Seq<char>>, c: Seq<Seq<char>>)
    ensures
        (a + b) + c == a + (b + c),
{
    assert((a + b) + c =~= a + (b + c));
}

} // verus!
