//! The records that resolution produces and consumes.

use crate::atom::Atom;
use crate::metadata::Metadata;
use crate::text::{opt_text, texts};
use vstd::prelude::*;

verus! {

/// How stable a version is held to be.
#[derive(Debug, Clone, Copy, PartialEq, Eq)]
pub enum VersionType {
    Stable,
    Unstable,
    Masked,
}

/// Whether the user has overridden the masking of a version.
#[derive(Debug, Clone, Copy, PartialEq, Eq)]
pub enum VersionStatus {
    Unchanged,
    MaskedByUser,
    UnmaskedByUser,
}

/// One version of a package, as its metadata file declares it.
#[derive(Debug, Clone, PartialEq, Eq)]
pub struct PackageVersion {
    pub version: String,
    pub version_type: VersionType,
    pub version_status: VersionStatus,
    /// The USE flags that the version declares.
    pub use_list: Vec<String>,
    /// The labels of its USE-conditional groups.
    pub use_set_list: Vec<String>,
    /// The package references of its dependency expression, in source order.
    pub depends_list: Vec<String>,
}

/// All that is known of one package.
#[derive(Debug, Clone, PartialEq, Eq)]
pub struct PackageInfo {
    pub name: String,
    pub slot: String,
    pub subslot: Option<String>,
    pub installed_version: Option<PackageVersion>,
    pub version_list: Vec<PackageVersion>,
    pub version_need_list: Vec<PackageVersion>,
    pub use_need_list: Vec<String>,
}

/// A package atom, taken apart.
#[derive(Debug, Clone, PartialEq, Eq)]
pub struct PackageNameInfo {
    pub category: Option<String>,
    pub name: Option<String>,
    pub slot: Option<String>,
    pub version: Option<String>,
    pub revision: Option<String>,
}

/// The fields of one metadata file.
#[derive(Debug, Clone, PartialEq, Eq)]
pub struct EbuildInfo {
    pub eapi: u8,
    pub slot: Option<String>,
    pub subslot: Option<String>,
    pub keywords: Vec<String>,
    pub depends: Vec<String>,
    pub ises: Vec<String>,
}

/// A grouping bracket of a dependency expression.
#[derive(Debug, Clone, Copy, PartialEq, Eq)]
pub enum Brackets {
    Open,
    Close,
}

/// An operator of a dependency expression.
#[derive(Debug, Clone, Copy, PartialEq, Eq)]
pub enum Conditional {
    /// `!`: the atom that follows must not be installed alongside, if that can be helped.
    WeakBlocker,
    /// `!!`: the atom that follows must not be installed alongside.
    StrongBlocker,
    /// `!<`
    BlockLess,
    /// `!>`
    BlockGreater,
    /// `<`
    Less,
    /// `=`
    Equal,
    /// `>`
    Greater,
    /// `=<`
    LessOrEqual,
    /// `=>`
    GreaterOrEqual,
    /// `||`: at least one of the alternatives that follow.
    Or,
    /// `?`: the USE flag before it gates the group that follows.
    If,
}

/// A candidate metadata file as the repository handed it over: its name, and
/// its text or the reason why it could not be read.
#[derive(Debug, PartialEq, Eq)]
pub struct EbuildFile {
    pub name: String,
    pub content: Result<String, String>,
}

/// A candidate metadata file, as texts.
pub struct EbuildFileView {
    pub name: Seq<char>,
    pub content: Result<Seq<char>, Seq<char>>,
}

impl View for EbuildFile {
    type V = EbuildFileView;

    open spec fn view(&self) -> EbuildFileView {
        EbuildFileView {
            name: self.name@,
            content: match self.content {
                Ok(text) => Ok(text@),
                Err(cause) => Err(cause@),
            },
        }
    }
}

/// The views of a list of files.
pub open spec fn file_views(files: Seq<EbuildFile>) -> Seq<EbuildFileView> {
    Seq::new(files.len(), |i: int| files[i]@)
}

/// What a metadata file says of its version, as texts.
pub struct VersionView {
    pub version: Seq<char>,
    pub use_list: Seq<Seq<char>>,
    pub depends_list: Seq<Seq<char>>,
}

/// What is known of a package after its metadata files were read, as texts.
pub struct PackageView {
    pub name: Seq<char>,
    pub slot: Seq<char>,
    pub versions: Seq<VersionView>,
}

impl PackageVersion {
    /// Whether the record is the version `v` as read from a file: stable,
    /// unchanged, and with no USE-conditional groups.
    pub open spec fn holds(&self, v: VersionView) -> bool {
        &&& self.version@ == v.version
        &&& self.version_type == VersionType::Stable
        &&& self.version_status == VersionStatus::Unchanged
        &&& texts(self.use_list@) == v.use_list
        &&& self.use_set_list@.len() == 0
        &&& texts(self.depends_list@) == v.depends_list
    }
}

impl PackageInfo {
    /// Whether the record is the package `p` as read from its files: nothing
    /// installed, nothing needed yet.
    pub open spec fn holds(&self, p: PackageView) -> bool {
        &&& self.name@ == p.name
        &&& self.slot@ == p.slot
        &&& self.subslot is None
        &&& self.installed_version is None
        &&& self.version_list@.len() == p.versions.len()
        &&& forall|i: int|
            0 <= i < p.versions.len() ==> (#[trigger] self.version_list@[i]).holds(p.versions[i])
        &&& self.version_need_list@.len() == 0
        &&& self.use_need_list@.len() == 0
    }
}

impl PackageNameInfo {
    /// Whether the record holds the atom `a`. Name and slot are always there.
    pub open spec fn holds(&self, a: Atom) -> bool {
        &&& opt_text(self.category) == a.category
        &&& opt_text(self.name) == Some(a.name)
        &&& opt_text(self.slot) == Some(a.slot)
        &&& opt_text(self.version) == a.version
        &&& opt_text(self.revision) == a.revision
    }
}

impl EbuildInfo {
    /// Whether the record holds the fields `m`. The slot is always there.
    pub open spec fn holds(&self, m: Metadata) -> bool {
        &&& self.eapi == m.eapi
        &&& opt_text(self.slot) == Some(m.slot)
        &&& opt_text(self.subslot) == m.subslot
        &&& texts(self.keywords@) == m.keywords
        &&& texts(self.depends@) == m.depends
        &&& texts(self.ises@) == m.iuse
    }
}

} // verus!
