//! Error values for template processing. Every error is fatal to a run:
//! the engine has no partial-success mode.

use vstd::prelude::*;

verus! {

/// What went wrong while processing one host language's templates.
#[derive(Clone, Copy, PartialEq, Eq, Structural, Debug)]
pub enum TemplateErrorKind {
    /// A sentinel (`@_`) occurrence was followed by none of the six
    /// recognized marker keywords.
    MalformedTemplate,
    /// A dry fragment, reached while expanding the content fragment,
    /// itself contained a dry marker; recursion is limited to one level.
    IllegalNestedDry,
}

/// A template error together with the display name of the host language
/// whose templates caused it.
#[derive(Debug)]
pub struct TemplateError {
    pub kind: TemplateErrorKind,
    pub lang: Vec<u8>,
}

} // verus!
