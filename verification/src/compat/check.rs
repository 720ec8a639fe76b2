//! The checks that can be selected, and the arguments that select them.
use crate::compat::text::same_text;
use vstd::prelude::*;
use vstd::string::*;

verus! {

// A release has four separate boundaries. The executable check protects exported procedure paths
// and their digests, and reports corrections of an interface beside the procedure. The Fast ABI
// check, which must be selected, protects the number of felts that published Fast procedures take
// and give. The source check reports changes to published signatures, calling conventions, types
// and attributes; it is advisory in a release. The package check keeps one version from naming two
// dependency commitments.

#[derive(Debug, Clone, Copy, PartialEq, Eq, Structural)]
pub enum Check {
    All,
    Executable,
    FastAbi,
    Source,
    Package,
}

#[derive(Debug, Clone, Copy, PartialEq, Eq, Structural)]
pub enum Diagnostic {
    Error,
    Warning,
}

/// The word that a diagnostic is announced by.
pub open spec fn annotation_text(diagnostic: Diagnostic) -> Seq<char> {
    match diagnostic {
        Diagnostic::Error => "error"@,
        Diagnostic::Warning => "warning"@,
    }
}

impl Diagnostic {
    pub fn annotation(self) -> (r: &'static str)
        ensures
            r@ == annotation_text(self),
    {
        match self {
            Diagnostic::Error => "error",
            Diagnostic::Warning => "warning",
        }
    }
}

/// The word that selects a check.
pub open spec fn check_word(check: Check) -> Seq<char> {
    match check {
        Check::All => "all"@,
        Check::Executable => "executable"@,
        Check::FastAbi => "fast-abi"@,
        Check::Source => "source"@,
        Check::Package => "package"@,
    }
}

/// The title of a check.
pub open spec fn check_label(check: Check) -> Seq<char> {
    match check {
        Check::All => "all"@,
        Check::Executable => "Executable compatibility"@,
        Check::FastAbi => "Fast ABI compatibility"@,
        Check::Source => "Source compatibility"@,
        Check::Package => "Package compatibility"@,
    }
}

/// What it means that a check passes.
pub open spec fn check_consequence(check: Check) -> Seq<char> {
    match check {
        Check::All => "all compatibility checks run"@,
        Check::Executable =>
            "old compiled callers resolve the same paths to the same executable MAST roots"@,
        Check::FastAbi =>
            "old compiled Fast callers provide and receive the same number of felts"@,
        Check::Source =>
            "reports whether released MASM source continues to type-check without changes"@,
        Check::Package =>
            "one semantic version identifies one dependency commitment; older commitments must remain archived"@,
    }
}

/// How the program is called.
pub open spec fn usage_text() -> Seq<char> {
    "usage: check-masm-export-digests.rs [--check all|executable|fast-abi|source|package] <previous-miden-project.toml|previous-project-dir> <current-miden-project.toml|current-project-dir>"@
}

pub fn usage() -> (r: String)
    ensures
        r@ == usage_text(),
{
    "usage: check-masm-export-digests.rs [--check all|executable|fast-abi|source|package] <previous-miden-project.toml|previous-project-dir> <current-miden-project.toml|current-project-dir>".to_owned()
}

/// The error for a word that selects no check.
pub open spec fn unknown_check_text(word: Seq<char>) -> Seq<char> {
    "unknown compatibility check '"@ + word + "'\n"@ + usage_text()
}

/// The check that a word selects.
pub open spec fn selected_by(word: Seq<char>) -> Option<Check> {
    if word == check_word(Check::All) {
        Some(Check::All)
    } else if word == check_word(Check::Executable) {
        Some(Check::Executable)
    } else if word == check_word(Check::FastAbi) {
        Some(Check::FastAbi)
    } else if word == check_word(Check::Source) {
        Some(Check::Source)
    } else if word == check_word(Check::Package) {
        Some(Check::Package)
    } else {
        None
    }
}

/// Every check is selected by its word, and by no other.
pub proof fn law_word_selects_check(word: Seq<char>, check: Check)
    ensures
        selected_by(word) == Some(check) <==> word == check_word(check),
{
    reveal_strlit("all");
    reveal_strlit("executable");
    reveal_strlit("fast-abi");
    reveal_strlit("source");
    reveal_strlit("package");
    assert("all"@.len() == 3 && "executable"@.len() == 10 && "fast-abi"@.len() == 8 && "source"@.len()
        == 6 && "package"@.len() == 7);
}

impl Check {
    pub fn parse(value: &str) -> (r: Result<Self, String>)
        ensures
            match r {
                Ok(check) => selected_by(value@) == Some(check),
                Err(error) => selected_by(value@) is None && error@ == unknown_check_text(value@),
            },
    {
        if same_text(value, "all") {
            Ok(Check::All)
        } else if same_text(value, "executable") {
            Ok(Check::Executable)
        } else if same_text(value, "fast-abi") {
            Ok(Check::FastAbi)
        } else if same_text(value, "source") {
            Ok(Check::Source)
        } else if same_text(value, "package") {
            Ok(Check::Package)
        } else {
            Err(
                "unknown compatibility check '".to_owned().concat(value).concat("'\n").concat(
                    usage().as_str(),
                ),
            )
        }
    }

    pub fn label(self) -> (r: &'static str)
        ensures
            r@ == check_label(self),
    {
        match self {
            Check::All => "all",
            Check::Executable => "Executable compatibility",
            Check::FastAbi => "Fast ABI compatibility",
            Check::Source => "Source compatibility",
            Check::Package => "Package compatibility",
        }
    }

    pub fn consequence(self) -> (r: &'static str)
        ensures
            r@ == check_consequence(self),
    {
        match self {
            Check::All => "all compatibility checks run",
            Check::Executable =>
                "old compiled callers resolve the same paths to the same executable MAST roots",
            Check::FastAbi =>
                "old compiled Fast callers provide and receive the same number of felts",
            Check::Source =>
                "reports whether released MASM source continues to type-check without changes",
            Check::Package =>
                "one semantic version identifies one dependency commitment; older commitments must remain archived",
        }
    }
}

/// What the arguments of the program ask for: a check, and the projects to compare.
#[derive(Debug, PartialEq, Eq)]
pub struct Arguments {
    pub check: Check,
    pub previous: String,
    pub current: String,
}

/// The arguments begin with the option that selects a check.
pub open spec fn selects_check(args: Seq<String>) -> bool {
    args.len() > 0 && args[0]@ == "--check"@
}

/// The arguments select a check that there is none of, and name a project at least.
pub open spec fn selects_unknown_check(args: Seq<String>) -> bool {
    selects_check(args) && args.len() >= 3 && selected_by(args[1]@) is None
}

/// The arguments are complete, and there is none too many.
pub open spec fn are_complete(args: Seq<String>) -> bool {
    if selects_check(args) {
        args.len() == 4
    } else {
        args.len() == 2
    }
}

impl Arguments {
    /// Reads the arguments that follow the name of the program.
    pub fn parse(args: &Vec<String>) -> (r: Result<Self, String>)
        ensures
            match r {
                Ok(arguments) => {
                    &&& are_complete(args@)
                    &&& !selects_unknown_check(args@)
                    &&& Some(arguments.check) == if selects_check(args@) {
                        selected_by(args@[1]@)
                    } else {
                        Some(Check::All)
                    }
                    &&& arguments.previous@ == args@[args@.len() - 2]@
                    &&& arguments.current@ == args@[args@.len() - 1]@
                },
                Err(error) => if selects_unknown_check(args@) {
                    error@ == unknown_check_text(args@[1]@)
                } else {
                    !are_complete(args@) && error@ == usage_text()
                },
            },
            r is Ok <==> {
                ||| args@.len() == 2 && args@[0]@ != "--check"@
                ||| args@.len() == 4 && args@[0]@ == "--check"@ && selected_by(args@[1]@) is Some
            },
            r matches Ok(arguments) ==> (if args@.len() == 2 {
                arguments.check == Check::All && arguments.previous@ == args@[0]@
                    && arguments.current@ == args@[1]@
            } else {
                Some(arguments.check) == selected_by(args@[1]@) && arguments.previous@
                    == args@[2]@ && arguments.current@ == args@[3]@
            }),
    {
        if args.len() == 0 {
            return Err(usage());
        }
        let selects = same_text(args[0].as_str(), "--check");
        let check = if selects {
            if args.len() < 3 {
                return Err(usage());
            }
            match Check::parse(args[1].as_str()) {
                Ok(check) => check,
                Err(error) => {
                    return Err(error);
                },
            }
        } else {
            Check::All
        };
        let expected: usize = if selects {
            4
        } else {
            2
        };
        if args.len() != expected {
            return Err(usage());
        }
        Ok(
            Arguments {
                check,
                previous: args[expected - 2].clone(),
                current: args[expected - 1].clone(),
            },
        )
    }
}

} // verus!
