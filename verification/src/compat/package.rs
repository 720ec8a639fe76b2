//! What a package publishes.
use crate::compat::canonical::{canonical, canonicalize_type_string};
use crate::compat::name_map::NameMap;
use crate::compat::text::{decimal, number_text, same_text};
use vstd::prelude::*;
use vstd::string::*;

verus! {

/// The exports of a package, by their paths.
pub type Exports = NameMap<ExportInfo>;

#[derive(Debug, Clone, PartialEq, Eq)]
pub struct PackageInfo {
    pub name: String,
    pub version: String,
    pub exports: Exports,
    pub commitments: PackageCommitments,
}

#[derive(Debug, Clone, PartialEq, Eq)]
pub struct PackageCommitments {
    pub interface: String,
    pub mast_forest: String,
    pub code: String,
    pub dependency: String,
}

#[derive(Debug, Clone, PartialEq, Eq)]
pub enum ExportInfo {
    Procedure(ProcedureInfo),
    Type(TypeInfo),
}

#[derive(Debug, Clone, PartialEq, Eq)]
pub struct ProcedureInfo {
    pub digest: String,
    pub signature: Option<String>,
    pub calling_convention: Option<String>,
    pub felt_layout: Option<FeltLayoutInfo>,
    pub abi_attributes: NameMap<String>,
}

/// How many field elements a procedure takes and gives.
#[derive(Debug, Clone, Copy, PartialEq, Eq, Structural)]
pub struct FeltLayoutInfo {
    pub inputs: usize,
    pub outputs: usize,
}

#[derive(Debug, Clone, Copy, PartialEq, Eq, Structural)]
pub enum ProcedureCompatibility {
    Compatible,
    InterfaceChanged,
    ExecutableChanged { interface_changed: bool },
}

#[derive(Debug, Clone, PartialEq, Eq)]
pub struct TypeInfo {
    pub ty: String,
}

/// What a [`ProcedureInfo`] says.
pub struct ProcedureModel {
    pub digest: Seq<char>,
    pub signature: Option<Seq<char>>,
    pub calling_convention: Option<Seq<char>>,
    pub felt_layout: Option<FeltLayoutInfo>,
    pub abi_attributes: Seq<(Seq<char>, Seq<char>)>,
}

/// What an [`ExportInfo`] says: of a type, its text.
pub enum ExportModel {
    Procedure(ProcedureModel),
    Type(Seq<char>),
}

/// What a [`PackageCommitments`] says.
pub struct CommitmentsModel {
    pub interface: Seq<char>,
    pub mast_forest: Seq<char>,
    pub code: Seq<char>,
    pub dependency: Seq<char>,
}

/// What a [`PackageInfo`] says.
pub struct PackageModel {
    pub name: Seq<char>,
    pub version: Seq<char>,
    pub exports: Seq<(Seq<char>, ExportModel)>,
    pub commitments: CommitmentsModel,
}

impl View for ProcedureInfo {
    type V = ProcedureModel;

    open spec fn view(&self) -> ProcedureModel {
        ProcedureModel {
            digest: self.digest@,
            signature: self.signature.deep_view(),
            calling_convention: self.calling_convention.deep_view(),
            felt_layout: self.felt_layout,
            abi_attributes: self.abi_attributes@,
        }
    }
}

impl View for ExportInfo {
    type V = ExportModel;

    open spec fn view(&self) -> ExportModel {
        match self {
            ExportInfo::Procedure(procedure) => ExportModel::Procedure(procedure@),
            ExportInfo::Type(ty) => ExportModel::Type(ty.ty@),
        }
    }
}

impl View for PackageCommitments {
    type V = CommitmentsModel;

    open spec fn view(&self) -> CommitmentsModel {
        CommitmentsModel {
            interface: self.interface@,
            mast_forest: self.mast_forest@,
            code: self.code@,
            dependency: self.dependency@,
        }
    }
}

impl View for PackageInfo {
    type V = PackageModel;

    open spec fn view(&self) -> PackageModel {
        PackageModel {
            name: self.name@,
            version: self.version@,
            exports: self.exports@,
            commitments: self.commitments@,
        }
    }
}

/// The text that is there, or another one.
pub open spec fn text_or(text: Option<Seq<char>>, other: Seq<char>) -> Seq<char> {
    match text {
        Some(text) => text,
        None => other,
    }
}

/// The text that is there, or another one.
pub fn text_or_else<'a>(text: &'a Option<String>, other: &'a str) -> (r: &'a str)
    ensures
        r@ == text_or(text.deep_view(), other@),
{
    match text {
        Some(text) => text.as_str(),
        None => other,
    }
}

/// Whether two texts that may be missing are the same.
pub fn same_optional_text(a: &Option<String>, b: &Option<String>) -> (r: bool)
    ensures
        r == (a.deep_view() == b.deep_view()),
{
    match (a, b) {
        (Some(a), Some(b)) => *a == *b,
        (None, None) => true,
        (Some(_), None) => false,
        (None, Some(_)) => false,
    }
}

/// A layout in words.
pub open spec fn layout_text(layout: FeltLayoutInfo) -> Seq<char> {
    decimal(layout.inputs as nat) + " input felts, "@ + decimal(layout.outputs as nat)
        + " output felts"@
}

/// A layout in words, or another text where there is none.
pub open spec fn layout_text_or(layout: Option<FeltLayoutInfo>, other: Seq<char>) -> Seq<char> {
    match layout {
        Some(layout) => layout_text(layout),
        None => other,
    }
}

impl FeltLayoutInfo {
    pub fn describe(&self) -> (r: String)
        ensures
            r@ == layout_text(*self),
            r@ == decimal(self.inputs as nat) + " input felts, "@ + decimal(self.outputs as nat)
                + " output felts"@,
    {
        number_text(self.inputs).concat(" input felts, ").concat(
            number_text(self.outputs).as_str(),
        ).concat(" output felts")
    }
}

/// A layout in words, or another text where there is none.
pub fn describe_layout_or(layout: &Option<FeltLayoutInfo>, other: &str) -> (r: String)
    ensures
        r@ == layout_text_or(*layout, other@),
{
    match layout {
        Some(layout) => layout.describe(),
        None => other.to_owned(),
    }
}

/// The attributes as `name=value`, separated by commas.
pub open spec fn attributes_text(attributes: Seq<(Seq<char>, Seq<char>)>) -> Seq<char>
    decreases attributes.len(),
{
    if attributes.len() == 0 {
        "None"@
    } else {
        let (name, value) = attributes.last();
        if attributes.len() == 1 {
            name + "="@ + value
        } else {
            attributes_text(attributes.drop_last()) + ", "@ + name + "="@ + value
        }
    }
}

pub fn format_attributes(attributes: &NameMap<String>) -> (r: String)
    ensures
        r@ == attributes_text(attributes@),
{
    if attributes.is_empty() {
        return "None".to_owned();
    }
    assert(attributes@.take(1).drop_last() =~= seq![]);
    let mut r = attributes.name_at(0).clone().concat("=").concat(attributes.value_at(0).as_str());
    let n: usize = attributes.len();
    for i in 1..n
        invariant
            1 <= n == attributes@.len(),
            r@ == attributes_text(attributes@.take(i as int)),
    {
        assert(attributes@.take(i + 1).drop_last() =~= attributes@.take(i as int));
        r = r.concat(", ").concat(attributes.name_at(i).as_str()).concat("=").concat(
            attributes.value_at(i).as_str(),
        );
    }
    assert(attributes@.take(attributes@.len() as int) =~= attributes@);
    r
}

/// A procedure in words.
pub open spec fn procedure_text(procedure: ProcedureModel) -> Seq<char> {
    "procedure digest="@ + procedure.digest + ", signature="@ + text_or(procedure.signature, "None"@)
        + ", callconv="@ + text_or(procedure.calling_convention, "None"@) + ", felt_layout="@
        + layout_text_or(procedure.felt_layout, "None"@) + ", abi_attributes="@ + attributes_text(
        procedure.abi_attributes,
    )
}

/// The interface of a procedure in words.
pub open spec fn interface_text(procedure: ProcedureModel) -> Seq<char> {
    "signature="@ + text_or(procedure.signature, "None"@) + ", callconv="@ + text_or(
        procedure.calling_convention,
        "None"@,
    ) + ", layout="@ + layout_text_or(procedure.felt_layout, "unknown"@)
}

impl ProcedureInfo {
    pub fn describe(&self) -> (r: String)
        ensures
            r@ == procedure_text(self@),
            r@ == "procedure digest="@ + self.digest@ + ", signature="@ + (match self.signature {
                Some(signature) => signature@,
                None => "None"@,
            }) + ", callconv="@ + (match self.calling_convention {
                Some(convention) => convention@,
                None => "None"@,
            }) + ", felt_layout="@ + (match self.felt_layout {
                Some(layout) => layout_text(layout),
                None => "None"@,
            }) + ", abi_attributes="@ + attributes_text(self.abi_attributes@),
    {
        "procedure digest=".to_owned().concat(self.digest.as_str()).concat(", signature=").concat(
            text_or_else(&self.signature, "None"),
        ).concat(", callconv=").concat(text_or_else(&self.calling_convention, "None")).concat(
            ", felt_layout=",
        ).concat(describe_layout_or(&self.felt_layout, "None").as_str()).concat(
            ", abi_attributes=",
        ).concat(format_attributes(&self.abi_attributes).as_str())
    }

    pub fn interface_description(&self) -> (r: String)
        ensures
            r@ == interface_text(self@),
            r@ == "signature="@ + (match self.signature {
                Some(signature) => signature@,
                None => "None"@,
            }) + ", callconv="@ + (match self.calling_convention {
                Some(convention) => convention@,
                None => "None"@,
            }) + ", layout="@ + (match self.felt_layout {
                Some(layout) => layout_text(layout),
                None => "unknown"@,
            }),
    {
        "signature=".to_owned().concat(text_or_else(&self.signature, "None")).concat(
            ", callconv=",
        ).concat(text_or_else(&self.calling_convention, "None")).concat(", layout=").concat(
            describe_layout_or(&self.felt_layout, "unknown").as_str(),
        )
    }
}

impl TypeInfo {
    pub fn describe(&self) -> (r: String)
        ensures
            r@ == "type="@ + self.ty@,
    {
        "type=".to_owned().concat(self.ty.as_str())
    }
}

/// An export in words.
pub open spec fn export_text(export: ExportModel) -> Seq<char> {
    match export {
        ExportModel::Procedure(procedure) => procedure_text(procedure),
        ExportModel::Type(ty) => "type="@ + ty,
    }
}

impl ExportInfo {
    pub fn describe(&self) -> (r: String)
        ensures
            r@ == export_text(self@),
            self matches ExportInfo::Procedure(p) ==> r@ == procedure_text(p@),
            self matches ExportInfo::Type(t) ==> r@ == "type="@ + t.ty@,
    {
        match self {
            ExportInfo::Procedure(procedure) => procedure.describe(),
            ExportInfo::Type(ty) => ty.describe(),
        }
    }
}

/// Two signatures have the same canonical form, or both are missing.
pub open spec fn same_signature(a: Option<Seq<char>>, b: Option<Seq<char>>) -> bool {
    match (a, b) {
        (Some(a), Some(b)) => canonical(a) == canonical(b),
        (None, None) => true,
        _ => false,
    }
}

/// The interface of a procedure changed: its calling convention or its signature.
pub open spec fn interface_changed(previous: ProcedureModel, current: ProcedureModel) -> bool {
    previous.calling_convention != current.calling_convention || !same_signature(
        previous.signature,
        current.signature,
    )
}

/// How a procedure changed.
pub open spec fn compatibility(
    previous: ProcedureModel,
    current: ProcedureModel,
) -> ProcedureCompatibility {
    if previous.digest != current.digest {
        ProcedureCompatibility::ExecutableChanged {
            interface_changed: interface_changed(previous, current),
        }
    } else if interface_changed(previous, current) {
        ProcedureCompatibility::InterfaceChanged
    } else {
        ProcedureCompatibility::Compatible
    }
}

/// Whether two types or signatures have the same canonical form.
pub fn same_canonical_text(a: &str, b: &str) -> (r: bool)
    ensures
        r == (canonical(a@) == canonical(b@)),
{
    canonicalize_type_string(a) == canonicalize_type_string(b)
}

pub fn classify_procedure_compatibility(
    previous: &ProcedureInfo,
    current: &ProcedureInfo,
) -> (r: ProcedureCompatibility)
    ensures
        r == compatibility(previous@, current@),
{
    let same_signature = match (&previous.signature, &current.signature) {
        (Some(a), Some(b)) => same_canonical_text(a.as_str(), b.as_str()),
        (None, None) => true,
        (Some(_), None) => false,
        (None, Some(_)) => false,
    };
    let interface_changed = !same_optional_text(
        &previous.calling_convention,
        &current.calling_convention,
    ) || !same_signature;
    if previous.digest != current.digest {
        ProcedureCompatibility::ExecutableChanged { interface_changed }
    } else if interface_changed {
        ProcedureCompatibility::InterfaceChanged
    } else {
        ProcedureCompatibility::Compatible
    }
}

/// The attributes that are part of what a procedure publishes.
pub open spec fn abi_attribute(name: Seq<char>) -> bool {
    name == "account_procedure"@ || name == "auth_script"@ || name == "callconv"@ || name
        == "note_script"@ || name == "transaction_script"@
}

pub fn is_abi_attribute(name: &str) -> (r: bool)
    ensures
        r == abi_attribute(name@),
{
    same_text(name, "account_procedure") || same_text(name, "auth_script") || same_text(
        name,
        "callconv",
    ) || same_text(name, "note_script") || same_text(name, "transaction_script")
}

impl PackageInfo {
    /// A package with some exports, for tests.
    pub fn for_test(exports: Exports) -> (r: Self)
        ensures
            r@ == (PackageModel {
                name: "test"@,
                version: "0.1.0"@,
                exports: exports@,
                commitments: CommitmentsModel {
                    interface: "0x01"@,
                    mast_forest: "0x01"@,
                    code: "0x01"@,
                    dependency: "0x01"@,
                },
            }),
    {
        PackageInfo {
            name: "test".to_owned(),
            version: "0.1.0".to_owned(),
            exports,
            commitments: PackageCommitments {
                interface: "0x01".to_owned(),
                mast_forest: "0x01".to_owned(),
                code: "0x01".to_owned(),
                dependency: "0x01".to_owned(),
            },
        }
    }
}

} // verus!
