use vstd::prelude::*;

verus! {

/// A token vocabulary: what a lexer produces and what parsers consume.
pub trait Token: Clone {
    /// The kind of a token, the tag parsers dispatch on.
    type Kind;
    /// The error a lexer of this vocabulary reports.
    type Error: Clone;

    /// The kind of this token.
    spec fn spec_kind(&self) -> Self::Kind;

    /// The kind of this token.
    fn kind(&self) -> (r: Self::Kind)
        ensures
            r == self.spec_kind(),
    ;

    /// Whether this token is trivia (whitespace, comments) that parsers may skip.
    fn is_trivia(&self) -> bool;
}

} // verus!
