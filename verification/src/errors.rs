//! Error kinds raised by lockfile parsing and graph reporting.

use vstd::prelude::*;

verus! {

/// Abstract form of an analysis error, over character sequences.
pub enum ErrView {
    /// A global-section line that is neither blank, comment, space-led, nor
    /// colon-terminated, or a header whose token list is empty.
    MalformedHeaderLine(Seq<char>),
    /// A header token that fails package-name validation.
    InvalidPackageToken(Seq<char>),
    /// A dependencies-section line that fails the name/version pattern.
    MalformedDependencyLine(Seq<char>),
    /// The search ancestor chain exceeded the depth bound.
    TooDeep,
}

/// An analysis error, carrying the offending line or token.
#[derive(Debug)]
pub enum YarnError {
    MalformedHeaderLine(String),
    InvalidPackageToken(String),
    MalformedDependencyLine(String),
    TooDeep,
}

impl View for YarnError {
    type V = ErrView;

    open spec fn view(&self) -> ErrView {
        match self {
            YarnError::MalformedHeaderLine(l) => ErrView::MalformedHeaderLine(l@),
            YarnError::InvalidPackageToken(t) => ErrView::InvalidPackageToken(t@),
            YarnError::MalformedDependencyLine(l) => ErrView::MalformedDependencyLine(l@),
            YarnError::TooDeep => ErrView::TooDeep,
        }
    }
}

impl YarnError {
    /// True on the depth-bound error; lets callers outside the library test
    /// the kind without matching.
    pub fn is_too_deep(&self) -> (r: bool)
        ensures
            r == (self@ == ErrView::TooDeep),
    {
        match self {
            YarnError::TooDeep => true,
            _ => false,
        }
    }

    /// The offending line or token, where the kind carries one.
    pub fn offending(&self) -> (r: Option<&String>)
        ensures
            match self@ {
                ErrView::MalformedHeaderLine(l) => r is Some && r->0@ == l,
                ErrView::InvalidPackageToken(t) => r is Some && r->0@ == t,
                ErrView::MalformedDependencyLine(l) => r is Some && r->0@ == l,
                ErrView::TooDeep => r is None,
            },
    {
        match self {
            YarnError::MalformedHeaderLine(l) => Some(l),
            YarnError::InvalidPackageToken(t) => Some(t),
            YarnError::MalformedDependencyLine(l) => Some(l),
            YarnError::TooDeep => None,
        }
    }
}

} // verus!
