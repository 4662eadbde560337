//! What can go wrong while a build order is resolved.

use vstd::prelude::*;
use vstd::string::StringExecFns;

verus! {

/// The failures of this crate. Each one that concerns a text carries it: the
/// atom, the short name, the package or metadata file, the node.
#[derive(Debug, Clone, PartialEq, Eq)]
pub enum Error {
    /// The text is not a package atom.
    InvalidAtomSyntax(String),
    /// More than one category holds a package of this short name.
    AmbiguousShortName(String),
    /// Nothing in the repository satisfies this package.
    NoMatchingEbuild(String),
    /// The metadata file declares no EAPI.
    MissingEapi(String),
    /// The metadata file declares an EAPI that is no number from 5 to 7.
    UnsupportedEapi(String),
    /// The dependency expression holds, at this position, a character with
    /// which no token begins.
    LexError(usize),
    /// The graph has no node of this name.
    NodeNotFound(String),
    /// The dependency relation is circular.
    CycleDetected,
    /// A file could not be read; the text is the reader's own message.
    Io(String),
}

/// A failure, with its text as a sequence of characters.
pub enum Failure {
    InvalidAtomSyntax(Seq<char>),
    AmbiguousShortName(Seq<char>),
    NoMatchingEbuild(Seq<char>),
    MissingEapi(Seq<char>),
    UnsupportedEapi(Seq<char>),
    LexError(int),
    NodeNotFound(Seq<char>),
    CycleDetected,
    Io(Seq<char>),
}

impl View for Error {
    type V = Failure;

    open spec fn view(&self) -> Failure {
        match self {
            Error::InvalidAtomSyntax(t) => Failure::InvalidAtomSyntax(t@),
            Error::AmbiguousShortName(t) => Failure::AmbiguousShortName(t@),
            Error::NoMatchingEbuild(t) => Failure::NoMatchingEbuild(t@),
            Error::MissingEapi(t) => Failure::MissingEapi(t@),
            Error::UnsupportedEapi(t) => Failure::UnsupportedEapi(t@),
            Error::LexError(at) => Failure::LexError(*at as int),
            Error::NodeNotFound(t) => Failure::NodeNotFound(t@),
            Error::CycleDetected => Failure::CycleDetected,
            Error::Io(t) => Failure::Io(t@),
        }
    }
}

impl Error {
    /// The one-line message shown to the user.
    pub fn message(&self) -> (r: String)
        ensures
            r@ == self.message_text(),
    {
        match self {
            Error::InvalidAtomSyntax(atom) => String::from_str("'").concat(atom.as_str()).concat(
                "' is not a valid package atom.",
            ),
            Error::AmbiguousShortName(name) => String::from_str(
                "The short ebuild name '",
            ).concat(name.as_str()).concat("' is ambiguous."),
            Error::NoMatchingEbuild(name) => String::from_str(
                "there are no ebuilds to satisfy '",
            ).concat(name.as_str()).concat("'."),
            Error::MissingEapi(file) => String::from_str("EAPI must be defined. '").concat(
                file.as_str(),
            ).concat("'"),
            Error::UnsupportedEapi(file) => String::from_str("unsupported EAPI. '").concat(
                file.as_str(),
            ).concat("'"),
            Error::LexError(_) => String::from_str(
                "unexpected character in dependency expression",
            ),
            Error::NodeNotFound(name) => String::from_str("'").concat(name.as_str()).concat(
                "' node don't exists",
            ),
            Error::CycleDetected => String::from_str("directed graph contains a cycle"),
            Error::Io(cause) => cause.clone(),
        }
    }

    /// What `message` returns.
    pub open spec fn message_text(&self) -> Seq<char> {
        match self {
            Error::InvalidAtomSyntax(atom) => "'"@ + atom@ + "' is not a valid package atom."@,
            Error::AmbiguousShortName(name) => "The short ebuild name '"@ + name@
                + "' is ambiguous."@,
            Error::NoMatchingEbuild(name) => "there are no ebuilds to satisfy '"@ + name@ + "'."@,
            Error::MissingEapi(file) => "EAPI must be defined. '"@ + file@ + "'"@,
            Error::UnsupportedEapi(file) => "unsupported EAPI. '"@ + file@ + "'"@,
            Error::LexError(_) => "unexpected character in dependency expression"@,
            Error::NodeNotFound(name) => "'"@ + name@ + "' node don't exists"@,
            Error::CycleDetected => "directed graph contains a cycle"@,
            Error::Io(cause) => cause@,
        }
    }
}

} // verus!
