//! The usage violations the validator reports, each carrying the
//! offending token or a copy of the offending descriptor.

use vstd::prelude::*;

use crate::arg::{Arg, ArgView};

verus! {

/// Mathematical image of a usage error.
pub ghost enum ErrorView {
    Custom(Seq<char>),
    CustomArg(ArgView, Seq<char>),
    NoArgs,
    Invalid(Seq<char>),
    RequiresPositional(ArgView),
    RequiresValue(ArgView),
    RequiresValueIf(ArgView, ArgView),
}

/// A usage violation: the first failing check of the validator, or a
/// collaborator-supplied message passed through unmodified.
#[derive(Debug, PartialEq)]
pub enum Error {
    /// Collaborator-supplied free text.
    Custom(String),
    /// Collaborator-supplied text about one descriptor.
    CustomArg(Arg, String),
    /// No tokens given and an empty invocation is disallowed.
    NoArgs,
    /// A token that no descriptor and no positional slot claims.
    Invalid(String),
    /// A declared positional argument never received a value.
    RequiresPositional(Arg),
    /// An option was invoked but produced no bound value.
    RequiresValue(Arg),
    /// A conditionally required option is missing although its
    /// trigger fired: the trigger first, the dependent second.
    RequiresValueIf(Arg, Arg),
}

impl View for Error {
    type V = ErrorView;

    open spec fn view(&self) -> ErrorView {
        match self {
            Error::Custom(s) => ErrorView::Custom(s@),
            Error::CustomArg(a, s) => ErrorView::CustomArg(a@, s@),
            Error::NoArgs => ErrorView::NoArgs,
            Error::Invalid(s) => ErrorView::Invalid(s@),
            Error::RequiresPositional(a) => ErrorView::RequiresPositional(a@),
            Error::RequiresValue(a) => ErrorView::RequiresValue(a@),
            Error::RequiresValueIf(a, b) => ErrorView::RequiresValueIf(a@, b@),
        }
    }
}

/// View of the validator's whole result.
pub open spec fn opt_error_view(r: Option<Error>) -> Option<ErrorView> {
    match r {
        Some(e) => Some(e@),
        None => None,
    }
}

} // verus!
