use vstd::prelude::*;

use crate::span::{SimpleSpan, Spanned};
use crate::state::State;
use crate::token::Token;

verus! {

/// The result of lexing one item: a token, or the lexer error reported at that position.
///
/// Keeping errors in the stream lets lexing continue past a malformed region, so that
/// several problems can be reported in one pass.
#[derive(Debug, Clone)]
pub enum Lexed<T: Token> {
    /// A recognized token.
    Token(T),
    /// A lexing error.
    Error(T::Error),
}

/// The item a lexer yields: a token or a lexer error.
pub type LexItem<L> = Result<<L as Lexer>::Token, <<L as Lexer>::Token as Token>::Error>;

/// The `Lexed` value that stands for a lexer's `Result` item.
pub open spec fn lexed_of<T: Token>(r: Result<T, T::Error>) -> Lexed<T> {
    match r {
        Ok(t) => Lexed::Token(t),
        Err(e) => Lexed::Error(e),
    }
}

/// The `Result` value that stands for a `Lexed` item.
pub open spec fn result_of<T: Token>(l: Lexed<T>) -> Result<T, T::Error> {
    match l {
        Lexed::Token(t) => Ok(t),
        Lexed::Error(e) => Err(e),
    }
}

/// `after` is `before` once it lexed its next item, as [`Lexer::lex`] states: the span, the
/// position and the state are those of the item, or, at the end of the input, the state is
/// kept and nothing is left to lex from the new position.
pub open spec fn lexed_one<L: Lexer>(before: L, after: L) -> bool {
    &&& after.spec_len() == before.spec_len()
    &&& after.spec_source() == before.spec_source()
    &&& match L::spec_item_at(before.spec_source(), before.spec_state(), before.spec_offset()) {
        None => after.spec_state() == before.spec_state() && before.spec_offset() <= after.spec_offset()
            <= after.spec_len() && L::spec_item_at(before.spec_source(), before.spec_state(), after.spec_offset()) is None,
        Some(x) => after.spec_span() == x.0 && after.spec_offset() == x.0.end && after.spec_state() == x.2,
    }
}

impl<T: Token> Lexed<T> {
    /// Lexes the next item from `lexer`; `None` once the input is exhausted.
    pub fn lex<L: Lexer<Token = T>>(lexer: &mut L) -> (r: Option<Self>)
        requires
            old(lexer).spec_offset() <= old(lexer).spec_len(),
        ensures
            r == (match L::spec_item_at(old(lexer).spec_source(), old(lexer).spec_state(), old(lexer).spec_offset()) {
                Some(x) => Some(lexed_of(x.1)),
                None => None,
            }),
            final(lexer).spec_len() == old(lexer).spec_len(),
            old(lexer).spec_offset() <= final(lexer).spec_offset() <= final(lexer).spec_len(),
            lexed_one(*old(lexer), *final(lexer)),
    {
        match lexer.lex() {
            Some(item) => Some(Self::from_result(item)),
            None => None,
        }
    }

    /// Lexes the next item from `lexer` together with its span; `None` once the input is
    /// exhausted.
    pub fn lex_spanned<L: Lexer<Token = T>>(lexer: &mut L) -> (r: Option<Spanned<Self>>)
        requires
            old(lexer).spec_offset() <= old(lexer).spec_len(),
        ensures
            r == (match L::spec_item_at(old(lexer).spec_source(), old(lexer).spec_state(), old(lexer).spec_offset()) {
                Some(x) => Some(Spanned { span: x.0, data: lexed_of(x.1) }),
                None => None,
            }),
            final(lexer).spec_len() == old(lexer).spec_len(),
            old(lexer).spec_offset() <= final(lexer).spec_offset() <= final(lexer).spec_len(),
            r is Some ==> old(lexer).spec_offset() <= final(lexer).spec_span().start
                < final(lexer).spec_span().end == final(lexer).spec_offset(),
            lexed_one(*old(lexer), *final(lexer)),
    {
        match lexer.lex() {
            Some(item) => {
                let span = lexer.span();
                Some(Spanned::new(span, Self::from_result(item)))
            },
            None => None,
        }
    }

    fn from_result(item: Result<T, T::Error>) -> (r: Self)
        ensures
            r == lexed_of(item),
    {
        match item {
            Ok(t) => Lexed::Token(t),
            Err(e) => Lexed::Error(e),
        }
    }

    /// Whether this is a token.
    pub fn is_token(&self) -> (r: bool)
        ensures
            r == (*self is Token),
    {
        match self {
            Lexed::Token(_) => true,
            Lexed::Error(_) => false,
        }
    }

    /// Whether this is a lexer error.
    pub fn is_error(&self) -> (r: bool)
        ensures
            r == (*self is Error),
    {
        match self {
            Lexed::Token(_) => false,
            Lexed::Error(_) => true,
        }
    }

    /// The token, if this is one.
    pub fn try_unwrap_token(self) -> (r: Option<T>)
        ensures
            r == (match self {
                Lexed::Token(t) => Some(t),
                Lexed::Error(_) => None,
            }),
    {
        match self {
            Lexed::Token(t) => Some(t),
            Lexed::Error(_) => None,
        }
    }

    /// The lexer error, if this is one.
    pub fn try_unwrap_error(self) -> (r: Option<T::Error>)
        ensures
            r == (match self {
                Lexed::Token(_) => None,
                Lexed::Error(e) => Some(e),
            }),
    {
        match self {
            Lexed::Token(_) => None,
            Lexed::Error(e) => Some(e),
        }
    }

    /// The token; only for a value known to be a token (the message names the
    /// expectation at the call site).
    pub fn expect_token(self, msg: &str) -> (r: T)
        requires
            self is Token,
        ensures
            r == self->Token_0,
    {
        match self {
            Lexed::Token(tok) => tok,
            Lexed::Error(_) => vstd::pervasive::unreached(),
        }
    }

    /// The lexer error; only for a value known to be an error.
    pub fn expect_error(self, msg: &str) -> (r: T::Error)
        requires
            self is Error,
        ensures
            r == self->Error_0,
    {
        match self {
            Lexed::Error(err) => err,
            Lexed::Token(_) => vstd::pervasive::unreached(),
        }
    }

    /// A reference to the token; only for a value known to be a token.
    pub fn expect_token_ref(&self, msg: &str) -> (r: &T)
        requires
            *self is Token,
        ensures
            *r == self->Token_0,
    {
        match self {
            Lexed::Token(tok) => tok,
            Lexed::Error(_) => vstd::pervasive::unreached(),
        }
    }

    /// A reference to the lexer error; only for a value known to be an error.
    pub fn expect_error_ref(&self, msg: &str) -> (r: &T::Error)
        requires
            *self is Error,
        ensures
            *r == self->Error_0,
    {
        match self {
            Lexed::Error(err) => err,
            Lexed::Token(_) => vstd::pervasive::unreached(),
        }
    }

    /// A mutable reference to the token; only for a value known to be a token.
    pub fn expect_token_mut(&mut self, msg: &str) -> (r: &mut T)
        requires
            *old(self) is Token,
        ensures
            *r == old(self)->Token_0,
            *final(self) == Lexed::<T>::Token(*final(r)),
    {
        match self {
            Lexed::Token(tok) => tok,
            Lexed::Error(_) => vstd::pervasive::unreached(),
        }
    }

    /// A mutable reference to the lexer error; only for a value known to be an error.
    pub fn expect_error_mut(&mut self, msg: &str) -> (r: &mut T::Error)
        requires
            *old(self) is Error,
        ensures
            *r == old(self)->Error_0,
            *final(self) == Lexed::<T>::Error(*final(r)),
    {
        match self {
            Lexed::Error(err) => err,
            Lexed::Token(_) => vstd::pervasive::unreached(),
        }
    }
}

impl<T: Token> From<Result<T, T::Error>> for Lexed<T> {
    fn from(value: Result<T, T::Error>) -> (r: Self) {
        match value {
            Ok(tok) => Lexed::Token(tok),
            Err(err) => Lexed::Error(err),
        }
    }
}

impl<T: Token> vstd::std_specs::convert::FromSpecImpl<Result<T, T::Error>> for Lexed<T> {
    open spec fn obeys_from_spec() -> bool {
        true
    }

    open spec fn from_spec(v: Result<T, T::Error>) -> Self {
        lexed_of(v)
    }
}

impl<T: Token> From<Lexed<T>> for Result<T, T::Error> {
    fn from(value: Lexed<T>) -> (r: Self) {
        match value {
            Lexed::Token(tok) => Ok(tok),
            Lexed::Error(err) => Err(err),
        }
    }
}

impl<T: Token> vstd::std_specs::convert::FromSpecImpl<Lexed<T>> for Result<T, T::Error> {
    open spec fn obeys_from_spec() -> bool {
        true
    }

    open spec fn from_spec(v: Lexed<T>) -> Self {
        result_of(v)
    }
}

/// Converting a lexer's `Result` item into `Lexed` and back gives the item back, and
/// converting `Lexed` into a `Result` and back gives the `Lexed` value back.
pub proof fn lemma_lexed_result_roundtrip<T: Token>(r: Result<T, T::Error>, l: Lexed<T>)
    ensures
        result_of(lexed_of(r)) == r,
        lexed_of(result_of(l)) == l,
{
}

/// Converts a value into a lexer.
pub trait IntoLexer<T: ?Sized> {
    /// The lexer type.
    type Lexer;

    /// Converts `self` into a lexer.
    fn into_lexer(self) -> Self::Lexer
        where T: Token;
}

impl<T, L> IntoLexer<T> for L where T: Token, L: Lexer<Token = T> {
    type Lexer = L;

    fn into_lexer(self) -> (r: L)
        ensures
            r == self,
    {
        self
    }
}

/// A lexer: turns a source into a stream of tokens and lexer errors.
///
/// # The lexer contract
///
/// The input layer rebuilds a fresh lexer per operation, with [`with_state`](Lexer::with_state)
/// followed by [`bump`](Lexer::bump) to the resume offset, and re-lexes any region that a
/// restore or a cache truncation gave up. That is correct only for a lexer that keeps the
/// clauses below, which the `ensures` of the methods state:
///
/// - **Determinism**: what [`lex`](Lexer::lex) yields from a position, and the state after
///   it, are a function of the source, the position and the state
///   ([`spec_item_at`](Lexer::spec_item_at)); what [`check`](Lexer::check) reports is a
///   function of the state ([`spec_check_state`](Lexer::spec_check_state)).
/// - **Sticky exhaustion**: once `lex` returns `None` it keeps returning `None`.
/// - **Monotone progress**: every yielded item has a nonempty span that starts at or after
///   the position the scan started from, and the position moves to its end.
/// - **Bounds**: positions never pass the end of the source.
/// - **Span / slice coherence**: [`slice`](Lexer::slice) is the source's content over
///   [`span`](Lexer::span) ([`spec_slice_of`](Lexer::spec_slice_of)).
///
/// The contract is a promise of each implementation; nothing checks a hand-written one.
pub trait Lexer: Sized {
    /// The source the lexer reads, usually a shared reference to the text.
    type Source: Copy;
    /// The tokens the lexer produces.
    type Token: Token;
    /// The mode the lexer carries between tokens.
    type State: State + Clone;
    /// A piece of the source, as [`slice`](Lexer::slice) hands it out.
    type Slice;

    /// The source being lexed.
    spec fn spec_source(&self) -> Self::Source;

    /// The position the next scan starts from: the end of the last item, or the position
    /// a bump moved to.
    spec fn spec_offset(&self) -> usize;

    /// The length of the source.
    spec fn spec_len(&self) -> usize;

    /// The span of the last item lexed.
    spec fn spec_span(&self) -> SimpleSpan;

    /// The current state.
    spec fn spec_state(&self) -> Self::State;

    /// The length of a source.
    spec fn spec_source_len(src: Self::Source) -> usize;

    /// The item a lexer over `src` in `state` lexes from the position `at`: its span, the
    /// item, and the state after it; `None` when nothing is left.
    spec fn spec_item_at(src: Self::Source, state: Self::State, at: usize) -> Option<
        (SimpleSpan, LexItem<Self>, Self::State),
    >;

    /// What `check` reports in `state`.
    spec fn spec_check_state(state: Self::State) -> Result<(), <Self::Token as Token>::Error>;

    /// A lexer at the start of `src`, in the default state.
    fn new(src: Self::Source) -> (r: Self)
        ensures
            r.spec_source() == src,
            r.spec_offset() == 0,
            r.spec_len() == Self::spec_source_len(src),
    ;

    /// A lexer at the start of `src`, in the given state: the resume constructor.
    fn with_state(src: Self::Source, state: Self::State) -> (r: Self)
        ensures
            r.spec_source() == src,
            r.spec_offset() == 0,
            r.spec_len() == Self::spec_source_len(src),
            r.spec_state() == state,
    ;

    /// Whether the current state is still valid; a resource limiter reports its trip here.
    fn check(&self) -> (r: Result<(), <Self::Token as Token>::Error>)
        ensures
            r == Self::spec_check_state(self.spec_state()),
    ;

    /// The current state.
    fn state(&self) -> (r: &Self::State)
        ensures
            *r == self.spec_state(),
    ;

    /// The current state, mutably.
    fn state_mut(&mut self) -> &mut Self::State;

    /// Consumes the lexer and hands back its state.
    fn into_state(self) -> (r: Self::State)
        ensures
            r == self.spec_state(),
    ;

    /// The source being lexed.
    fn source(&self) -> (r: Self::Source)
        ensures
            r == self.spec_source(),
    ;

    /// The length of the source being lexed.
    fn source_len(&self) -> (r: usize)
        ensures
            r == self.spec_len(),
    ;

    /// The span of the last item lexed.
    fn span(&self) -> (r: SimpleSpan)
        ensures
            r == self.spec_span(),
    ;

    /// The piece of `src` under `span`.
    spec fn spec_slice_of(src: Self::Source, span: SimpleSpan) -> Self::Slice;

    /// The piece of the source under the last item lexed: the source's content over
    /// [`span`](Lexer::span), so a slice taken from the span agrees with it.
    fn slice(&self) -> (r: Self::Slice)
        ensures
            r == Self::spec_slice_of(self.spec_source(), self.spec_span()),
    ;

    /// Lexes the next item; `None` at the end of the input, and for ever after.
    fn lex(&mut self) -> (r: Option<Result<Self::Token, <Self::Token as Token>::Error>>)
        requires
            old(self).spec_offset() <= old(self).spec_len(),
        ensures
            final(self).spec_len() == old(self).spec_len(),
            final(self).spec_source() == old(self).spec_source(),
            match Self::spec_item_at(old(self).spec_source(), old(self).spec_state(), old(self).spec_offset()) {
                None => r is None && final(self).spec_state() == old(self).spec_state()
                    && old(self).spec_offset() <= final(self).spec_offset() <= final(self).spec_len()
                    && Self::spec_item_at(old(self).spec_source(), old(self).spec_state(), final(self).spec_offset()) is None,
                Some(x) => r == Some(x.1) && final(self).spec_span() == x.0 && final(self).spec_offset() == x.0.end
                    && final(self).spec_state() == x.2 && old(self).spec_offset() <= x.0.start && x.0.start < x.0.end
                    && x.0.end <= old(self).spec_len(),
            },
    ;

    /// Moves the position `n` offsets forward without lexing.
    fn bump(&mut self, n: usize)
        requires
            old(self).spec_offset() + n <= old(self).spec_len(),
        ensures
            final(self).spec_offset() == old(self).spec_offset() + n,
            final(self).spec_len() == old(self).spec_len(),
            final(self).spec_state() == old(self).spec_state(),
            final(self).spec_source() == old(self).spec_source(),
    ;
}

/// A type that can be lexed whole from an input.
pub trait Lexable<I, Error> {
    /// Lexes `Self` from `input`.
    fn lex(input: I) -> Result<Self, Error>
        where Self: Sized;
}

} // verus!
