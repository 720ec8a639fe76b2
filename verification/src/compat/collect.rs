//! From an assembled package to what it publishes.
use crate::compat::name_map::{
    ascending, inserted, law_lookup_after_insertion, lemma_inserted, lookup, NameMap,
};
use crate::compat::package::{
    abi_attribute, is_abi_attribute, CommitmentsModel, ExportInfo, ExportModel, Exports,
    FeltLayoutInfo, PackageCommitments, PackageInfo, PackageModel, ProcedureInfo, ProcedureModel,
    TypeInfo,
};
use vstd::prelude::*;

verus! {

/// An assembled package, with its commitments as text. The interface commitment may be missing,
/// for a reason that is given.
#[derive(Debug, PartialEq, Eq)]
pub struct Package {
    pub name: String,
    pub version: String,
    pub exports: Vec<PackageExport>,
    pub interface_commitment: Result<String, String>,
    pub mast_forest_commitment: String,
    pub code_commitment: String,
    pub dependency_commitment: String,
}

#[derive(Debug, PartialEq, Eq)]
pub enum PackageExport {
    Procedure(ProcedureExport),
    Type(TypeExport),
    Constant,
}

#[derive(Debug, PartialEq, Eq)]
pub struct ProcedureExport {
    pub path: String,
    pub digest: String,
    pub signature: Option<Signature>,
    pub attributes: Vec<Attribute>,
}

/// A signature: its text, its calling convention, and the sizes in field elements of what it takes
/// and of what it gives.
#[derive(Debug, PartialEq, Eq)]
pub struct Signature {
    pub text: String,
    pub abi: String,
    pub params: Vec<usize>,
    pub results: Vec<usize>,
}

/// An attribute: its name and its whole text.
#[derive(Debug, PartialEq, Eq)]
pub struct Attribute {
    pub name: String,
    pub text: String,
}

#[derive(Debug, PartialEq, Eq)]
pub struct TypeExport {
    pub path: String,
    pub ty: String,
}

/// The sum of some sizes.
pub open spec fn total(sizes: Seq<usize>) -> int
    decreases sizes.len(),
{
    if sizes.len() == 0 {
        0
    } else {
        total(sizes.drop_last()) + sizes.last()
    }
}

impl Signature {
    /// The sums of the sizes can be held.
    pub open spec fn fits(&self) -> bool {
        total(self.params@) <= usize::MAX && total(self.results@) <= usize::MAX
    }
}

impl PackageExport {
    /// The sizes of what the export takes and gives can be held.
    pub open spec fn fits(&self) -> bool {
        self is Procedure && self->Procedure_0.signature is Some
            ==> self->Procedure_0.signature->Some_0.fits()
    }
}

proof fn lemma_total_of_prefix(sizes: Seq<usize>, n: int)
    requires
        0 <= n <= sizes.len(),
    ensures
        0 <= total(sizes.take(n)) <= total(sizes),
    decreases sizes.len() + n,
{
    if n == sizes.len() {
        assert(sizes.take(n) =~= sizes);
        if n > 0 {
            lemma_total_of_prefix(sizes.drop_last(), n - 1);
            assert(sizes.drop_last().take(n - 1) =~= sizes.drop_last());
        }
    } else {
        lemma_total_of_prefix(sizes.drop_last(), n);
        assert(sizes.drop_last().take(n) =~= sizes.take(n));
    }
}

fn sum(sizes: &Vec<usize>) -> (r: usize)
    requires
        total(sizes@) <= usize::MAX,
    ensures
        r == total(sizes@),
{
    let mut r: usize = 0;
    for i in 0..sizes.len()
        invariant
            total(sizes@) <= usize::MAX,
            r == total(sizes@.take(i as int)),
    {
        proof {
            lemma_total_of_prefix(sizes@, i + 1);
            assert(sizes@.take(i + 1).drop_last() =~= sizes@.take(i as int));
        }
        r = r + sizes[i];
    }
    assert(sizes@.take(sizes@.len() as int) =~= sizes@);
    r
}

/// The attributes that are part of what a procedure publishes, the last of each name.
pub open spec fn abi_attributes(attributes: Seq<Attribute>) -> Seq<(Seq<char>, Seq<char>)>
    decreases attributes.len(),
{
    if attributes.len() == 0 {
        seq![]
    } else {
        let before = abi_attributes(attributes.drop_last());
        let attribute = attributes.last();
        if abi_attribute(attribute.name@) {
            inserted(before, attribute.name@, attribute.text@)
        } else {
            before
        }
    }
}

fn collect_attributes(attributes: &Vec<Attribute>) -> (r: NameMap<String>)
    ensures
        r@ == abi_attributes(attributes@),
{
    let mut r: NameMap<String> = NameMap::new();
    for i in 0..attributes.len()
        invariant
            r@ == abi_attributes(attributes@.take(i as int)),
    {
        assert(attributes@.take(i + 1).drop_last() =~= attributes@.take(i as int));
        let attribute = &attributes[i];
        if is_abi_attribute(attribute.name.as_str()) {
            r.insert(attribute.name.clone(), attribute.text.clone());
        }
    }
    assert(attributes@.take(attributes@.len() as int) =~= attributes@);
    r
}

/// What is published of a procedure.
pub open spec fn published_procedure(procedure: ProcedureExport) -> ProcedureModel {
    ProcedureModel {
        digest: procedure.digest@,
        signature: match procedure.signature {
            Some(signature) => Some(signature.text@),
            None => None,
        },
        calling_convention: match procedure.signature {
            Some(signature) => Some(signature.abi@),
            None => None,
        },
        felt_layout: match procedure.signature {
            Some(signature) => Some(
                FeltLayoutInfo {
                    inputs: total(signature.params@) as usize,
                    outputs: total(signature.results@) as usize,
                },
            ),
            None => None,
        },
        abi_attributes: abi_attributes(procedure.attributes@),
    }
}

/// The exports by their paths, the last under each path; constants are left out.
pub open spec fn published_exports(exports: Seq<PackageExport>) -> Seq<(Seq<char>, ExportModel)>
    decreases exports.len(),
{
    if exports.len() == 0 {
        seq![]
    } else {
        let before = published_exports(exports.drop_last());
        match exports.last() {
            PackageExport::Procedure(procedure) => inserted(
                before,
                procedure.path@,
                ExportModel::Procedure(published_procedure(procedure)),
            ),
            PackageExport::Type(ty) => inserted(before, ty.path@, ExportModel::Type(ty.ty@)),
            PackageExport::Constant => before,
        }
    }
}

fn collect_procedure(procedure: &ProcedureExport) -> (r: ProcedureInfo)
    requires
        procedure.signature is Some ==> procedure.signature->Some_0.fits(),
    ensures
        r@ == published_procedure(*procedure),
{
    let abi_attributes = collect_attributes(&procedure.attributes);
    proof {
        if let Some(signature) = &procedure.signature {
            lemma_total_of_prefix(signature.params@, 0);
            lemma_total_of_prefix(signature.results@, 0);
        }
    }
    match &procedure.signature {
        Some(signature) => ProcedureInfo {
            digest: procedure.digest.clone(),
            signature: Some(signature.text.clone()),
            calling_convention: Some(signature.abi.clone()),
            felt_layout: Some(
                FeltLayoutInfo { inputs: sum(&signature.params), outputs: sum(&signature.results) },
            ),
            abi_attributes,
        },
        None => ProcedureInfo {
            digest: procedure.digest.clone(),
            signature: None,
            calling_convention: None,
            felt_layout: None,
            abi_attributes,
        },
    }
}

/// What a package publishes. It cannot be told of a package without an interface commitment.
pub fn collect_package_info(package: &Package) -> (r: Result<PackageInfo, String>)
    requires
        forall|i: int| 0 <= i < package.exports@.len() ==> (#[trigger] package.exports@[i]).fits(),
    ensures
        match (r, package.interface_commitment) {
            (Ok(info), Ok(interface)) => info@ == (PackageModel {
                name: package.name@,
                version: package.version@,
                exports: published_exports(package.exports@),
                commitments: CommitmentsModel {
                    interface: interface@,
                    mast_forest: package.mast_forest_commitment@,
                    code: package.code_commitment@,
                    dependency: package.dependency_commitment@,
                },
            }),
            (Err(error), Err(reason)) => error@ == reason@,
            _ => false,
        },
{
    let mut exports: Exports = NameMap::new();
    for i in 0..package.exports.len()
        invariant
            forall|i: int|
                0 <= i < package.exports@.len() ==> (#[trigger] package.exports@[i]).fits(),
            exports@ == published_exports(package.exports@.take(i as int)),
    {
        assert(package.exports@.take(i + 1).drop_last() =~= package.exports@.take(i as int));
        match &package.exports[i] {
            PackageExport::Procedure(procedure) => {
                let info = collect_procedure(procedure);
                exports.insert(procedure.path.clone(), ExportInfo::Procedure(info));
            },
            PackageExport::Type(ty) => {
                exports.insert(ty.path.clone(), ExportInfo::Type(TypeInfo { ty: ty.ty.clone() }));
            },
            PackageExport::Constant => {},
        }
    }
    assert(package.exports@.take(package.exports@.len() as int) =~= package.exports@);
    match &package.interface_commitment {
        Ok(interface) => Ok(
            PackageInfo {
                name: package.name.clone(),
                version: package.version.clone(),
                exports,
                commitments: PackageCommitments {
                    interface: interface.clone(),
                    mast_forest: package.mast_forest_commitment.clone(),
                    code: package.code_commitment.clone(),
                    dependency: package.dependency_commitment.clone(),
                },
            },
        ),
        Err(reason) => Err(reason.clone()),
    }
}

/// The path of an export; constants are not published.
pub open spec fn path_of(export: PackageExport) -> Option<Seq<char>> {
    match export {
        PackageExport::Procedure(procedure) => Some(procedure.path@),
        PackageExport::Type(ty) => Some(ty.path@),
        PackageExport::Constant => None,
    }
}

/// What is published of an export that is not a constant.
pub open spec fn published_export(export: PackageExport) -> ExportModel {
    match export {
        PackageExport::Procedure(procedure) => ExportModel::Procedure(
            published_procedure(procedure),
        ),
        PackageExport::Type(ty) => ExportModel::Type(ty.ty@),
        PackageExport::Constant => ExportModel::Type(seq![]),
    }
}

/// What is published stands in the order of the paths, and no path occurs twice.
pub proof fn law_published_exports_ascend(exports: Seq<PackageExport>)
    ensures
        ascending(published_exports(exports)),
    decreases exports.len(),
{
    if exports.len() > 0 {
        law_published_exports_ascend(exports.drop_last());
        if let Some(path) = path_of(exports.last()) {
            lemma_inserted(
                published_exports(exports.drop_last()),
                path,
                published_export(exports.last()),
            );
        }
    }
}

/// Under every path the last export of that path is published.
pub proof fn law_last_export_is_published(exports: Seq<PackageExport>, i: int)
    requires
        0 <= i < exports.len(),
        path_of(exports[i]) is Some,
        forall|j: int| i < j < exports.len() ==> path_of(#[trigger] exports[j]) != path_of(
            exports[i],
        ),
    ensures
        lookup(published_exports(exports), path_of(exports[i])->Some_0) == Some(
            published_export(exports[i]),
        ),
        exports[i] matches PackageExport::Procedure(p) ==> lookup(
            published_exports(exports),
            p.path@,
        ) == Some(ExportModel::Procedure(published_procedure(p))),
        exports[i] matches PackageExport::Type(t) ==> lookup(
            published_exports(exports),
            t.path@,
        ) == Some(ExportModel::Type(t.ty@)),
    decreases exports.len(),
{
    let before = exports.drop_last();
    let last = exports.last();
    let path = path_of(exports[i])->Some_0;
    assert(last == exports[exports.len() - 1]);
    if let Some(last_path) = path_of(last) {
        law_lookup_after_insertion(
            published_exports(before),
            last_path,
            published_export(last),
            path,
        );
    }
    if i < before.len() {
        assert forall|j: int| i < j < before.len() implies path_of(#[trigger] before[j])
            != path_of(before[i]) by {
            assert(before[j] == exports[j]);
        }
        law_last_export_is_published(before, i);
    }
}

/// Nothing is published that the package does not export as a procedure or a type.
pub proof fn law_only_exports_are_published(exports: Seq<PackageExport>, path: Seq<char>)
    requires
        forall|j: int|
            0 <= j < exports.len() ==> match #[trigger] exports[j] {
                PackageExport::Procedure(p) => p.path@ != path,
                PackageExport::Type(t) => t.path@ != path,
                PackageExport::Constant => true,
            },
    ensures
        lookup(published_exports(exports), path) is None,
    decreases exports.len(),
{
    if exports.len() > 0 {
        let before = exports.drop_last();
        let last = exports.last();
        assert(last == exports[exports.len() - 1]);
        assert forall|j: int| 0 <= j < before.len() implies match #[trigger] before[j] {
            PackageExport::Procedure(p) => p.path@ != path,
            PackageExport::Type(t) => t.path@ != path,
            PackageExport::Constant => true,
        } by {
            assert(before[j] == exports[j]);
        }
        law_only_exports_are_published(before, path);
        if let Some(last_path) = path_of(last) {
            law_lookup_after_insertion(
                published_exports(before),
                last_path,
                published_export(last),
                path,
            );
        }
    }
}

} // verus!
