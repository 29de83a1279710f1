use vstd::prelude::*;

use crate::span::SimpleSpan;

verus! {

/// The input ended where something more was required.
///
/// A *terminal* end of input is one caused by a latched resource-limit trip rather than
/// by the source running out: recovery must re-raise it instead of resuming.
#[derive(Debug, Clone, Copy, PartialEq, Eq, Structural)]
pub struct UnexpectedEot {
    offset: usize,
    terminal: bool,
}

impl UnexpectedEot {
    /// An end-of-input error at `offset`, not marked terminal.
    pub fn eot_of(offset: usize) -> (r: UnexpectedEot)
        ensures
            r == UnexpectedEot::spec_new(offset, false),
            r.spec_offset() == offset,
            !r.spec_terminal(),
    {
        UnexpectedEot { offset, terminal: false }
    }

    /// The same error, marked terminal.
    pub fn into_terminal(self) -> (r: UnexpectedEot)
        ensures
            r == UnexpectedEot::spec_new(self.spec_offset(), true),
            r.spec_offset() == self.spec_offset(),
            r.spec_terminal(),
    {
        UnexpectedEot { offset: self.offset, terminal: true }
    }

    /// Whether the error is marked terminal.
    pub fn is_terminal(&self) -> (r: bool)
        ensures
            r == self.spec_terminal(),
    {
        self.terminal
    }

    /// The offset at which the input ended.
    pub fn offset(&self) -> (r: usize)
        ensures
            r == self.spec_offset(),
    {
        self.offset
    }

    /// The end-of-input error at `offset`, marked terminal or not.
    pub closed spec fn spec_new(offset: usize, terminal: bool) -> UnexpectedEot {
        UnexpectedEot { offset, terminal }
    }

    /// The offset at which the input ended.
    pub closed spec fn spec_offset(self) -> usize {
        self.offset
    }

    /// Whether the error is marked terminal.
    pub closed spec fn spec_terminal(self) -> bool {
        self.terminal
    }
}

/// A token was found where it does not belong, optionally with what was expected there.
#[derive(Debug, Clone, PartialEq, Eq)]
pub struct UnexpectedToken<T, K> {
    span: SimpleSpan,
    found: Option<T>,
    expected: Option<K>,
}

impl<T, K> UnexpectedToken<T, K> {
    /// An unexpected-token error at `span`, with neither a found token nor an expectation
    /// attached yet.
    pub fn of(span: SimpleSpan) -> (r: UnexpectedToken<T, K>)
        ensures
            r.spec_span() == span,
            r.spec_found() is None,
            r.spec_expected() is None,
    {
        UnexpectedToken { span, found: None, expected: None }
    }

    /// The same error, carrying the token that was found.
    pub fn with_found(self, found: T) -> (r: UnexpectedToken<T, K>)
        ensures
            r.spec_span() == self.spec_span(),
            r.spec_found() == Some(found),
            r.spec_expected() == self.spec_expected(),
    {
        UnexpectedToken { span: self.span, found: Some(found), expected: self.expected }
    }

    /// The same error, carrying what was expected (or nothing).
    pub fn with_expected(self, expected: Option<K>) -> (r: UnexpectedToken<T, K>)
        ensures
            r.spec_span() == self.spec_span(),
            r.spec_found() == self.spec_found(),
            r.spec_expected() == expected,
    {
        UnexpectedToken { span: self.span, found: self.found, expected }
    }

    /// Where the unexpected token sits.
    pub fn span(&self) -> (r: SimpleSpan)
        ensures
            r == self.spec_span(),
    {
        self.span
    }

    /// The token that was found, if one is attached.
    pub fn found(&self) -> (r: &Option<T>)
        ensures
            *r == self.spec_found(),
    {
        &self.found
    }

    /// What was expected, if anything is attached.
    pub fn expected(&self) -> (r: &Option<K>)
        ensures
            *r == self.spec_expected(),
    {
        &self.expected
    }

    /// Where the unexpected token sits.
    pub closed spec fn spec_span(self) -> SimpleSpan {
        self.span
    }

    /// The token that was found, if one is attached.
    pub closed spec fn spec_found(self) -> Option<T> {
        self.found
    }

    /// What was expected, if anything is attached.
    pub closed spec fn spec_expected(self) -> Option<K> {
        self.expected
    }
}

} // verus!
