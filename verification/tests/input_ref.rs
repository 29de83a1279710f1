use std::cell::Cell;
use std::marker::PhantomData;
use std::rc::Rc;

use tokora::cache::{reconcile_cache_geometry, CachedToken, TokenCache};
use tokora::emitter::{Emission, Emitter};
use tokora::error::{UnexpectedEot, UnexpectedToken};
use tokora::input::{CloseStatus, ClosePayload, Input, InputContext};
use tokora::lexer::{Lexed, Lexer};
use tokora::recovery::Balance;
use tokora::span::{SimpleSpan, Spanned};
use tokora::state::{State, TokenLimiter};
use tokora::token::Token;
use tokora::transaction::DropPolicy;

// ── A shared scanner for the hand-written test lexers ───────────────────────────

/// Skips whitespace from `from`, then classifies the next item: `Some((start, end, tok))`,
/// with `tok == None` for a one-byte lexer error; `None` at the end of the source.
fn scan_item<T>(
    src: &str,
    from: usize,
    classify: impl Fn(&[u8], usize) -> Option<(usize, T)>,
) -> Option<(usize, usize, Option<T>)> {
    let b = src.as_bytes();
    let mut i = from;
    while i < b.len() && matches!(b[i], b' ' | b'\t' | b'\r' | b'\n') {
        i += 1;
    }
    if i >= b.len() {
        return None;
    }
    match classify(b, i) {
        Some((len, t)) => Some((i, i + len, Some(t))),
        None => Some((i, i + 1, None)),
    }
}

fn digits(b: &[u8], i: usize) -> usize {
    let mut j = i;
    while j < b.len() && b[j].is_ascii_digit() {
        j += 1;
    }
    j - i
}

// ── A limiter whose scan counter is shared across every cloned lexer ─────────────

#[derive(Debug, Clone, Default)]
struct ProbeLimiter {
    scanned: Rc<Cell<usize>>,
    limit: usize,
}

impl ProbeLimiter {
    fn with_limit(limit: usize) -> Self {
        Self { scanned: Rc::new(Cell::new(0)), limit }
    }

    fn counter(&self) -> Rc<Cell<usize>> {
        self.scanned.clone()
    }

    fn increase(&self) {
        self.scanned.set(self.scanned.get() + 1);
    }
}

impl State for ProbeLimiter {
    type Error = ();

    fn check(&self) -> Result<(), ()> {
        if self.scanned.get() > self.limit {
            Err(())
        } else {
            Ok(())
        }
    }
}

#[derive(Debug, Clone, PartialEq)]
enum ProbeErr {
    Lex,
    Limit,
    Eot,
}

/// The errors a probe lexer can report.
trait ProbeError: Clone {
    fn lex() -> Self;
    fn limit() -> Self;
}

impl ProbeError for ProbeErr {
    fn lex() -> Self {
        ProbeErr::Lex
    }
    fn limit() -> Self {
        ProbeErr::Limit
    }
}

impl From<UnexpectedEot> for ProbeErr {
    fn from(_: UnexpectedEot) -> Self {
        ProbeErr::Eot
    }
}

impl<T, K> From<UnexpectedToken<T, K>> for ProbeErr {
    fn from(_: UnexpectedToken<T, K>) -> Self {
        ProbeErr::Lex
    }
}

/// A probe error that keeps the terminal flag an end-of-input error carries.
#[derive(Debug, Clone, PartialEq)]
enum TermErr {
    Lex,
    Limit,
    Eot { terminal: bool },
}

impl ProbeError for TermErr {
    fn lex() -> Self {
        TermErr::Lex
    }
    fn limit() -> Self {
        TermErr::Limit
    }
}

impl From<UnexpectedEot> for TermErr {
    fn from(e: UnexpectedEot) -> Self {
        TermErr::Eot { terminal: e.is_terminal() }
    }
}

impl<T, K> From<UnexpectedToken<T, K>> for TermErr {
    fn from(_: UnexpectedToken<T, K>) -> Self {
        TermErr::Lex
    }
}

#[derive(Debug, PartialEq)]
struct ProbeTok<E>(PhantomData<E>);

impl<E> Clone for ProbeTok<E> {
    fn clone(&self) -> Self {
        ProbeTok(PhantomData)
    }
}

#[derive(Debug, Clone, Copy, PartialEq, Eq, Hash)]
enum ProbeKind {
    Num,
}

impl<E: ProbeError> Token for ProbeTok<E> {
    type Kind = ProbeKind;
    type Error = E;

    fn spec_kind(&self) -> ProbeKind {
        ProbeKind::Num
    }

    fn kind(&self) -> ProbeKind {
        ProbeKind::Num
    }

    fn is_trivia(&self) -> bool {
        false
    }
}

/// Numbers are tokens, whitespace is skipped, anything else is a one-byte lexer error.
/// Every number scanned counts on the shared limiter.
struct ProbeLexer<E> {
    src: &'static str,
    offset: usize,
    span: SimpleSpan,
    state: ProbeLimiter,
    _err: PhantomData<E>,
}

impl<E: ProbeError> Lexer for ProbeLexer<E> {
    type Source = &'static str;
    type Slice = &'static str;
    type Token = ProbeTok<E>;
    type State = ProbeLimiter;

    fn spec_offset(&self) -> usize {
        self.offset
    }

    fn spec_len(&self) -> usize {
        self.src.len()
    }

    fn spec_span(&self) -> SimpleSpan {
        self.span
    }

    fn spec_state(&self) -> ProbeLimiter {
        self.state.clone()
    }

    fn spec_source_len(src: &'static str) -> usize {
        src.len()
    }

    fn spec_source(&self) -> &'static str {
        self.src
    }

    fn spec_item_at(src: &'static str, state: ProbeLimiter, at: usize) -> Option<(SimpleSpan, Result<ProbeTok<E>, E>, ProbeLimiter)> {
        probe_item(src, at).map(|(s, e, t)| {
            let item = match t {
                Some(()) => Ok(ProbeTok(PhantomData)),
                None => Err(E::lex()),
            };
            (SimpleSpan::new(s, e), item, state.clone())
        })
    }

    fn spec_slice_of(src: &'static str, span: SimpleSpan) -> &'static str {
        &src[span.start..span.end]
    }

    fn spec_check_state(state: ProbeLimiter) -> Result<(), E> {
        if state.scanned.get() > state.limit {
            Err(E::limit())
        } else {
            Ok(())
        }
    }

    fn new(src: &'static str) -> Self {
        Self::with_state(src, ProbeLimiter::default())
    }

    fn with_state(src: &'static str, state: ProbeLimiter) -> Self {
        ProbeLexer { src, offset: 0, span: SimpleSpan::new(0, 0), state, _err: PhantomData }
    }

    fn check(&self) -> Result<(), E> {
        if self.state.scanned.get() > self.state.limit {
            Err(E::limit())
        } else {
            Ok(())
        }
    }

    fn state(&self) -> &ProbeLimiter {
        &self.state
    }

    fn state_mut(&mut self) -> &mut ProbeLimiter {
        &mut self.state
    }

    fn into_state(self) -> ProbeLimiter {
        self.state
    }

    fn source(&self) -> &'static str {
        self.src
    }

    fn source_len(&self) -> usize {
        self.src.len()
    }

    fn span(&self) -> SimpleSpan {
        self.span
    }

    fn slice(&self) -> &'static str {
        &self.src[self.span.start..self.span.end]
    }

    fn lex(&mut self) -> Option<Result<ProbeTok<E>, E>> {
        match probe_item(self.src, self.offset) {
            None => {
                self.offset = self.src.len();
                None
            }
            Some((s, e, t)) => {
                self.span = SimpleSpan::new(s, e);
                self.offset = e;
                match t {
                    Some(()) => {
                        self.state.increase();
                        Some(Ok(ProbeTok(PhantomData)))
                    }
                    None => Some(Err(E::lex())),
                }
            }
        }
    }

    fn bump(&mut self, n: usize) {
        self.offset += n;
    }
}

/// The next item of a probe lexer's source from `from`: only numbers are tokens.
fn probe_item(src: &str, from: usize) -> Option<(usize, usize, Option<()>)> {
    scan_item(src, from, |b, i| {
        let n = digits(b, i);
        if n > 0 {
            Some((n, ()))
        } else {
            None
        }
    })
}

type PLexer = ProbeLexer<ProbeErr>;
type TLexer = ProbeLexer<TermErr>;

fn probe_ctx(emitter: Emitter<ProbeErr>) -> InputContext<Emitter<ProbeErr>, TokenCache<ProbeTok<ProbeErr>, ProbeLimiter>> {
    InputContext::new(emitter, TokenCache::default())
}

/// An input over `src` behind a limit-2 shared limiter, with a recovering emitter, and a
/// handle on the shared scan counter. The third scanned token trips the limiter.
fn probe_input(src: &'static str) -> (Input<PLexer>, Rc<Cell<usize>>) {
    let limiter = ProbeLimiter::with_limit(2);
    let scanned = limiter.counter();
    let input = Input::<PLexer>::with_state_and_context(src, limiter, probe_ctx(Emitter::silent()));
    (input, scanned)
}

fn term_input(src: &'static str) -> Input<TLexer> {
    let context = InputContext::new(Emitter::<TermErr>::silent(), TokenCache::default());
    Input::<TLexer>::with_state_and_context(src, ProbeLimiter::with_limit(2), context)
}

// ── A by-value limited lexer with delimiters ───────────────────────────────────

#[derive(Debug, Clone, PartialEq)]
enum ByValErr {
    Lex,
    Limit,
}

impl From<UnexpectedEot> for ByValErr {
    fn from(_: UnexpectedEot) -> Self {
        ByValErr::Lex
    }
}

impl<T, K> From<UnexpectedToken<T, K>> for ByValErr {
    fn from(_: UnexpectedToken<T, K>) -> Self {
        ByValErr::Lex
    }
}

#[derive(Debug, Clone, PartialEq)]
enum BalTok {
    Num,
    LParen,
    RParen,
    Semi,
    Trivia,
}

#[derive(Debug, Clone, Copy, PartialEq, Eq, Hash)]
enum BalKind {
    Num,
    LParen,
    RParen,
    Semi,
    Trivia,
}

impl Token for BalTok {
    type Kind = BalKind;
    type Error = ByValErr;

    fn spec_kind(&self) -> BalKind {
        self.kind()
    }

    fn kind(&self) -> BalKind {
        match self {
            BalTok::Num => BalKind::Num,
            BalTok::LParen => BalKind::LParen,
            BalTok::RParen => BalKind::RParen,
            BalTok::Semi => BalKind::Semi,
            BalTok::Trivia => BalKind::Trivia,
        }
    }

    fn is_trivia(&self) -> bool {
        matches!(self, BalTok::Trivia)
    }
}

/// Numbers, `(`, `)`, `;` and `~` are tokens, whitespace is skipped, anything else is a
/// one-byte lexer error. Every token scanned counts on the by-value limiter.
struct BalLexer {
    src: &'static str,
    offset: usize,
    span: SimpleSpan,
    state: TokenLimiter,
}

impl Lexer for BalLexer {
    type Source = &'static str;
    type Slice = &'static str;
    type Token = BalTok;
    type State = TokenLimiter;

    fn spec_offset(&self) -> usize {
        self.offset
    }

    fn spec_len(&self) -> usize {
        self.src.len()
    }

    fn spec_span(&self) -> SimpleSpan {
        self.span
    }

    fn spec_state(&self) -> TokenLimiter {
        self.state
    }

    fn spec_source_len(src: &'static str) -> usize {
        src.len()
    }

    fn spec_source(&self) -> &'static str {
        self.src
    }

    fn spec_item_at(src: &'static str, state: TokenLimiter, at: usize) -> Option<(SimpleSpan, Result<BalTok, ByValErr>, TokenLimiter)> {
        bal_item(src, at).map(|(s, e, t)| {
            let mut after = state;
            if t.is_some() {
                after.increase();
            }
            (SimpleSpan::new(s, e), t.ok_or(ByValErr::Lex), after)
        })
    }

    fn spec_slice_of(src: &'static str, span: SimpleSpan) -> &'static str {
        &src[span.start..span.end]
    }

    fn spec_check_state(state: TokenLimiter) -> Result<(), ByValErr> {
        match state.check() {
            Ok(()) => Ok(()),
            Err(_) => Err(ByValErr::Limit),
        }
    }

    fn new(src: &'static str) -> Self {
        Self::with_state(src, TokenLimiter::new())
    }

    fn with_state(src: &'static str, state: TokenLimiter) -> Self {
        BalLexer { src, offset: 0, span: SimpleSpan::new(0, 0), state }
    }

    fn check(&self) -> Result<(), ByValErr> {
        match self.state.check() {
            Ok(()) => Ok(()),
            Err(_) => Err(ByValErr::Limit),
        }
    }

    fn state(&self) -> &TokenLimiter {
        &self.state
    }

    fn state_mut(&mut self) -> &mut TokenLimiter {
        &mut self.state
    }

    fn into_state(self) -> TokenLimiter {
        self.state
    }

    fn source(&self) -> &'static str {
        self.src
    }

    fn source_len(&self) -> usize {
        self.src.len()
    }

    fn span(&self) -> SimpleSpan {
        self.span
    }

    fn slice(&self) -> &'static str {
        &self.src[self.span.start..self.span.end]
    }

    fn lex(&mut self) -> Option<Result<BalTok, ByValErr>> {
        match bal_item(self.src, self.offset) {
            None => {
                self.offset = self.src.len();
                None
            }
            Some((s, e, t)) => {
                self.span = SimpleSpan::new(s, e);
                self.offset = e;
                match t {
                    Some(tok) => {
                        self.state.increase();
                        Some(Ok(tok))
                    }
                    None => Some(Err(ByValErr::Lex)),
                }
            }
        }
    }

    fn bump(&mut self, n: usize) {
        self.offset += n;
    }
}

/// The next item of a delimiter lexer's source from `from`.
fn bal_item(src: &str, from: usize) -> Option<(usize, usize, Option<BalTok>)> {
    scan_item(src, from, |b, i| {
        let n = digits(b, i);
        if n > 0 {
            return Some((n, BalTok::Num));
        }
        match b[i] {
            b'(' => Some((1, BalTok::LParen)),
            b')' => Some((1, BalTok::RParen)),
            b';' => Some((1, BalTok::Semi)),
            b'~' => Some((1, BalTok::Trivia)),
            _ => None,
        }
    })
}

fn bal_ctx(emitter: Emitter<ByValErr>) -> InputContext<Emitter<ByValErr>, TokenCache<BalTok, TokenLimiter>> {
    InputContext::new(emitter, TokenCache::default())
}

/// An input over `src` with a by-value limiter of `limit` and a recording emitter.
fn bal_input(src: &'static str, limit: usize) -> Input<BalLexer> {
    Input::<BalLexer>::with_state_and_context(src, TokenLimiter::with_limitation(limit), bal_ctx(Emitter::verbose()))
}

/// The parenthesis pair table: `(` opens, `)` closes, everything else is neutral.
fn parens(kind: &BalKind) -> Balance<char> {
    match kind {
        BalKind::LParen => Balance::Open('('),
        BalKind::RParen => Balance::Close('('),
        _ => Balance::Neutral,
    }
}

/// How many recorded errors equal `e`.
fn count_err<E: PartialEq>(emitter: &Emitter<E>, e: &E) -> usize {
    emitter
        .log()
        .iter()
        .filter(|x| matches!(x, Emission::Error { error, .. } if error == e))
        .count()
}

fn drain_spans<L: Lexer>(inp: &mut tokora::input::InputRef<'_, L>) -> Vec<SimpleSpan>
where
    <L::Token as Token>::Error: std::fmt::Debug,
{
    let mut out = Vec::new();
    while let Some(t) = inp.next().unwrap() {
        out.push(*t.span_ref());
    }
    out
}

// ── Latching: a trip stops every read without rescanning ─────────────────────────

#[test]
fn poisoned_input_latches_no_rescan_across_next_and_peek() {
    let limiter = ProbeLimiter::with_limit(2);
    let scanned = limiter.counter();
    let mut input = Input::<PLexer>::with_state_and_context("1 2 3 4 5 6", limiter, probe_ctx(Emitter::silent()));
    let mut inp = input.as_ref();

    assert!(inp.next().unwrap().is_some(), "first token");
    assert!(inp.next().unwrap().is_some(), "second token");
    assert!(inp.next().unwrap().is_none(), "trip latches to None");

    let frozen = scanned.get();
    assert_eq!(frozen, 3, "scanned exactly 1, 2, 3 before latching");

    for _ in 0..5 {
        assert!(inp.next().unwrap().is_none(), "poisoned next() stays None");
    }
    for _ in 0..5 {
        assert!(inp.peek_one().unwrap().is_none(), "poisoned peek() stays empty");
    }
    assert_eq!(scanned.get(), frozen, "no lexer was rebuilt after the latch");
}

#[test]
fn poisoned_input_latches_no_rescan_across_try_expect() {
    let (mut input, scanned) = probe_input("1 2 3 4 5 6");
    let mut inp = input.as_ref();

    assert!(inp.try_expect(|_| true).unwrap().is_some(), "first token");
    assert!(inp.try_expect(|_| true).unwrap().is_some(), "second token");
    assert!(inp.try_expect(|_| true).unwrap().is_none(), "trip latches to None");

    let frozen = scanned.get();
    assert_eq!(frozen, 3, "scanned exactly 1, 2, 3 before latching");

    for _ in 0..5 {
        assert!(inp.try_expect(|_| true).unwrap().is_none(), "poisoned try_expect stays None");
    }
    assert_eq!(scanned.get(), frozen, "no lexer was rebuilt after the latch");
}

#[test]
fn try_expect_or_stop_errs_on_fresh_trip() {
    let (mut input, scanned) = probe_input("1 2 3 4 5 6");
    let mut inp = input.as_ref();

    assert!(inp.try_expect_or_stop(|_| true).unwrap().is_some(), "first token");
    assert!(inp.try_expect_or_stop(|_| true).unwrap().is_some(), "second token");
    assert!(
        matches!(inp.try_expect_or_stop(|_| true), Err(ProbeErr::Eot)),
        "a fresh trip surfaces the end-of-input error, never a decline"
    );
    assert_eq!(scanned.get(), 3, "scanned exactly 1, 2, and the tripping 3");
}

#[test]
fn try_expect_or_stop_errs_on_latched_boundary_without_rescan() {
    let (mut input, scanned) = probe_input("1 2 3 4 5 6");
    let mut inp = input.as_ref();

    assert!(inp.next().unwrap().is_some(), "first token");
    assert!(inp.next().unwrap().is_some(), "second token");
    assert!(inp.next().unwrap().is_none(), "trip latches to None");

    let frozen = scanned.get();
    assert_eq!(frozen, 3, "scanned exactly 1, 2, 3 before latching");

    for _ in 0..5 {
        assert!(
            matches!(inp.try_expect_or_stop(|_| true), Err(ProbeErr::Eot)),
            "a latched boundary surfaces the end-of-input error on every attempt"
        );
    }
    assert_eq!(scanned.get(), frozen, "no lexer was rebuilt after the latch");
}

#[test]
fn at_latched_boundary_witnesses_a_trip_at_the_cursor() {
    let (mut input, _scanned) = probe_input("1 2 3 4 5 6");
    let mut inp = input.as_ref();

    assert!(!inp.at_latched_boundary(), "no trip before any scan");
    assert!(inp.next().unwrap().is_some(), "first token under the limit");
    assert!(inp.next().unwrap().is_some(), "second token under the limit");
    assert!(!inp.at_latched_boundary(), "still no trip while under the limit");
    assert!(inp.next().unwrap().is_none(), "the third scan trips and latches");
    assert!(inp.at_latched_boundary(), "the trip is witnessed at the cursor");
}

#[test]
fn try_expect_or_stop_declines_on_non_matching_token() {
    let (mut input, scanned) = probe_input("1 2");
    let mut inp = input.as_ref();

    assert!(inp.try_expect_or_stop(|_| false).unwrap().is_none(), "a non-matching token declines");
    assert_eq!(scanned.get(), 1, "one scan staged the declined token");

    let tok = inp.next().unwrap().expect("the declined token is still next");
    assert_eq!(*tok.span_ref(), SimpleSpan::new(0, 1), "the cache-front put-back is intact");
    assert_eq!(scanned.get(), 1, "the follow-up consume is served from cache, not rescanned");
}

#[test]
fn try_expect_or_stop_declines_on_genuine_eoi() {
    let mut input = Input::<PLexer>::with_state_and_context("", ProbeLimiter::with_limit(usize::MAX), probe_ctx(Emitter::silent()));
    let mut inp = input.as_ref();
    assert!(inp.try_expect_or_stop(|_| true).unwrap().is_none(), "empty input declines");

    let mut input = Input::<PLexer>::with_state_and_context("1", ProbeLimiter::with_limit(usize::MAX), probe_ctx(Emitter::silent()));
    let mut inp = input.as_ref();
    assert!(inp.next().unwrap().is_some(), "consume the only token");
    assert!(inp.try_expect_or_stop(|_| true).unwrap().is_none(), "a fully-consumed input declines");
}

#[test]
fn try_expect_or_stop_consumes_match() {
    let (mut input, scanned) = probe_input("1 2");
    let mut inp = input.as_ref();

    let tok = inp.try_expect_or_stop(|_| true).unwrap().expect("the matching token is consumed");
    assert_eq!(*tok.span_ref(), SimpleSpan::new(0, 1));
    assert_eq!(scanned.get(), 1, "one scan for the consumed token");

    let tok = inp.next().unwrap().expect("cursor advanced past the match");
    assert_eq!(*tok.span_ref(), SimpleSpan::new(2, 3));
}

#[test]
fn next_or_stop_errs_on_fresh_trip() {
    let (mut input, scanned) = probe_input("1 2 3 4 5 6");
    let mut inp = input.as_ref();

    assert!(inp.next_or_stop().unwrap().is_some(), "first token");
    assert!(inp.next_or_stop().unwrap().is_some(), "second token");
    assert!(matches!(inp.next_or_stop(), Err(ProbeErr::Eot)), "a fresh trip surfaces the end-of-input error");
    assert_eq!(scanned.get(), 3, "scanned exactly 1, 2, and the tripping 3");
}

#[test]
fn next_or_stop_errs_on_latched_boundary_without_rescan() {
    let (mut input, scanned) = probe_input("1 2 3 4 5 6");
    let mut inp = input.as_ref();

    assert!(inp.next().unwrap().is_some(), "first token");
    assert!(inp.next().unwrap().is_some(), "second token");
    assert!(inp.next().unwrap().is_none(), "trip latches to None");

    let frozen = scanned.get();
    assert_eq!(frozen, 3, "scanned exactly 1, 2, 3 before latching");

    for _ in 0..5 {
        assert!(matches!(inp.next_or_stop(), Err(ProbeErr::Eot)), "a latched boundary errs on every consume");
    }
    assert_eq!(scanned.get(), frozen, "no lexer was rebuilt after the latch");
}

#[test]
fn next_or_stop_returns_none_at_genuine_eoi() {
    let mut input = Input::<PLexer>::with_state_and_context("", ProbeLimiter::with_limit(usize::MAX), probe_ctx(Emitter::silent()));
    let mut inp = input.as_ref();
    assert!(inp.next_or_stop().unwrap().is_none(), "empty input is a genuine end of input");

    let mut input = Input::<PLexer>::with_state_and_context("1", ProbeLimiter::with_limit(usize::MAX), probe_ctx(Emitter::silent()));
    let mut inp = input.as_ref();
    assert!(inp.next_or_stop().unwrap().is_some(), "consume the only token");
    assert!(inp.next_or_stop().unwrap().is_none(), "a fully-consumed input is a genuine end of input");
}

#[test]
fn try_expect_map_or_stop_errs_on_fresh_trip() {
    let (mut input, scanned) = probe_input("1 2 3 4 5 6");
    let mut inp = input.as_ref();

    assert!(inp.try_expect_map_or_stop(|_| Some(())).unwrap().is_some(), "first token maps");
    assert!(inp.try_expect_map_or_stop(|_| Some(())).unwrap().is_some(), "second token maps");
    assert!(
        matches!(inp.try_expect_map_or_stop(|_| Some(())), Err(ProbeErr::Eot)),
        "a fresh trip surfaces the end-of-input error, never a decline"
    );
    assert_eq!(scanned.get(), 3, "scanned exactly 1, 2, and the tripping 3");
}

#[test]
fn try_expect_map_or_stop_declines_on_non_matching_and_genuine_eoi() {
    let (mut input, scanned) = probe_input("1 2");
    let mut inp = input.as_ref();
    assert!(inp.try_expect_map_or_stop(|_| None::<()>).unwrap().is_none(), "a non-matching token declines");
    assert_eq!(scanned.get(), 1, "one scan staged the declined token");
    let tok = inp.next().unwrap().expect("the declined token is still next");
    assert_eq!(*tok.span_ref(), SimpleSpan::new(0, 1), "the cache-front put-back is intact");

    let mut input = Input::<PLexer>::with_state_and_context("", ProbeLimiter::with_limit(usize::MAX), probe_ctx(Emitter::silent()));
    let mut inp = input.as_ref();
    assert!(inp.try_expect_map_or_stop(|_| Some(())).unwrap().is_none(), "empty input declines");
}

#[test]
fn poisoned_input_latches_no_rescan_across_skip_while() {
    let (mut input, scanned) = probe_input("1 2 3 4 5 6");
    let mut inp = input.as_ref();

    inp.skip_while(|_| true).unwrap();

    let frozen = scanned.get();
    assert_eq!(frozen, 3, "scanned exactly 1, 2, 3 before latching");

    for _ in 0..5 {
        inp.skip_while(|_| true).unwrap();
    }
    assert_eq!(scanned.get(), frozen, "no lexer was rebuilt after the latch");
}

#[test]
fn poisoned_input_latches_no_rescan_across_sync_to() {
    let (mut input, scanned) = probe_input("1 2 3 4 5 6");
    let mut inp = input.as_ref();

    assert!(inp.sync_to(|_| false, || None).unwrap().is_none(), "no matching token before the trip");

    let frozen = scanned.get();
    assert_eq!(frozen, 3, "scanned exactly 1, 2, 3 before latching");

    for _ in 0..5 {
        assert!(inp.sync_to(|_| false, || None).unwrap().is_none(), "poisoned sync_to stays None");
    }
    assert_eq!(scanned.get(), frozen, "no lexer was rebuilt after the latch");
}

#[test]
fn poisoned_input_latches_no_rescan_across_sync_through() {
    let (mut input, scanned) = probe_input("1 2 3 4 5 6");
    let mut inp = input.as_ref();

    assert!(inp.sync_through(|_| false, || None).unwrap().is_none(), "no matching token before the trip");

    let frozen = scanned.get();
    assert_eq!(frozen, 3, "scanned exactly 1, 2, 3 before latching");

    for _ in 0..5 {
        assert!(inp.sync_through(|_| false, || None).unwrap().is_none(), "poisoned sync_through stays None");
    }
    assert_eq!(scanned.get(), frozen, "no lexer was rebuilt after the latch");
}

// ── Synchronization: progress and diagnostics travel together ────────────────────

#[test]
fn sync_through_trip_after_skips_commits_the_diagnosed_prefix() {
    let mut input = Input::<BalLexer>::with_state_and_context("1 2 3 4 5 6", TokenLimiter::with_limitation(2), bal_ctx(Emitter::verbose()));
    {
        let mut inp = input.as_ref();

        assert_eq!(inp.span(), &SimpleSpan::new(0, 0), "pre-call span anchor");
        assert_eq!(inp.state().tokens(), 0, "pre-call token count");

        assert!(inp.sync_through(|_| false, || None).unwrap().is_none(), "the trip yields the poisoned outcome");

        assert!(inp.is_poisoned(), "the trip latches the poison boundary");
        assert_eq!(inp.span(), &SimpleSpan::new(2, 3), "committed span sits at the end of the last diagnosed token");
        assert_eq!(inp.state().tokens(), 2, "committed state counts exactly the diagnosed prefix");

        assert!(inp.next().unwrap().is_none(), "next() stops at the committed boundary");
        assert_eq!(inp.state().tokens(), 2, "the committed lineage's scan counter is frozen");
    }

    let unexpected = count_err(input.emitter(), &ByValErr::Lex);
    let limit = count_err(input.emitter(), &ByValErr::Limit);
    assert_eq!(unexpected, 2, "each skipped token is diagnosed exactly once");
    assert_eq!(limit, 1, "the limit trip is diagnosed exactly once");
}

#[test]
fn failed_sync_through_leaves_no_diagnostics() {
    let mut input = Input::<BalLexer>::with_state_and_context("1 2 3", TokenLimiter::with_limitation(usize::MAX), bal_ctx(Emitter::verbose()));

    let drained: Vec<SimpleSpan> = {
        let mut inp = input.as_ref();

        assert_eq!(inp.span(), &SimpleSpan::new(0, 0), "pre-call span anchor");
        assert_eq!(inp.state().tokens(), 0, "pre-call token count");

        assert!(inp.sync_through(|_| false, || None).unwrap().is_none(), "the no-match scan to EOF yields None");

        assert_eq!(inp.span(), &SimpleSpan::new(0, 0), "span stays at the pre-call anchor");
        assert_eq!(inp.state().tokens(), 0, "state stays at the pre-call count");

        drain_spans(&mut inp)
    };

    assert_eq!(
        drained,
        vec![SimpleSpan::new(0, 1), SimpleSpan::new(2, 3), SimpleSpan::new(4, 5)],
        "the drain consumes the full token sequence normally"
    );
    assert_eq!(input.emitter().error_count(), 0, "a failed sync_through leaves no diagnostics behind");
}

#[test]
fn successful_sync_through_retains_skipped_token_diagnostics() {
    let mut input = Input::<BalLexer>::with_state_and_context("1 2 3", TokenLimiter::with_limitation(usize::MAX), bal_ctx(Emitter::verbose()));
    {
        let mut inp = input.as_ref();

        let seen = Cell::new(0);
        let matched = inp
            .sync_through(
                |_| {
                    seen.set(seen.get() + 1);
                    seen.get() == 3
                },
                || None,
            )
            .unwrap();
        assert_eq!(matched.map(|t| *t.span_ref()), Some(SimpleSpan::new(4, 5)), "the matching token is consumed and returned");
        assert_eq!(inp.span(), &SimpleSpan::new(4, 5), "committed at the match");
    }
    assert_eq!(input.emitter().error_count(), 2, "the skipped `1` and `2` stay diagnosed");
}

#[test]
fn failed_sync_through_reemits_scanned_lexer_error_once() {
    let mut input = Input::<PLexer>::with_state_and_context("1 @ 2", ProbeLimiter::with_limit(usize::MAX), probe_ctx(Emitter::verbose()));
    {
        let mut inp = input.as_ref();
        assert!(inp.sync_through(|_| false, || None).unwrap().is_none(), "the no-match scan to EOF yields None");
        while inp.next().unwrap().is_some() {}
    }
    let at = SimpleSpan::new(2, 3);
    assert_eq!(input.emitter().errors_at(at), 1, "the scanned-past lexer error re-emits exactly once");
    assert_eq!(input.emitter().error_count(), 1, "only the re-emitted lexer error is retained");
}

#[test]
fn sync_balanced_staging_a_lexed_match_is_a_cache_push() {
    let mut input = bal_input("; 1 2", usize::MAX);

    let drained: Vec<SimpleSpan> = {
        let mut inp = input.as_ref();
        assert!(inp.cache().is_empty(), "nothing is prefetched");

        let ckp = inp.save();
        let hole = inp.sync_balanced(parens, |t| matches!(t.data(), BalTok::Semi)).unwrap().expect("the `;` is the sync point");
        assert_eq!(hole.skipped(), 0, "the sync point was the very next token");
        assert_eq!(hole.span(), SimpleSpan::new(0, 0), "the zero-skip hole sits at the match's own start");
        assert_eq!(inp.cache().len(), 1, "the lexed match is left unconsumed at the cache front");

        inp.restore(ckp);
        assert!(inp.cache().is_empty(), "a rollback drops the match the abandoned scan lexed into the cache");
        assert_eq!(inp.offset(), 0, "the lex frontier returns to the save");

        drain_spans(&mut inp)
    };

    assert_eq!(
        drained,
        vec![SimpleSpan::new(0, 1), SimpleSpan::new(2, 3), SimpleSpan::new(4, 5)],
        "the full faithful stream drains after the rollback"
    );
}

// ── Checkpoints ──────────────────────────────────────────────────────────────────

#[test]
fn twin_checkpoint_restore_after_partial_drain_replays_identically() {
    let mut input = Input::<PLexer>::with_state_and_context("1 2 3 4", ProbeLimiter::with_limit(usize::MAX), probe_ctx(Emitter::silent()));
    let mut inp = input.as_ref();

    let elder = inp.save();
    let younger = inp.save();

    let _ = inp.next().unwrap().expect("first token");
    inp.restore(younger);
    let seq_young = drain_spans(&mut inp);

    inp.restore(elder);
    let seq_old = drain_spans(&mut inp);

    assert_eq!(seq_young, seq_old, "both restores replay the same lineage identically");
    assert_eq!(
        seq_young,
        vec![SimpleSpan::new(0, 1), SimpleSpan::new(2, 3), SimpleSpan::new(4, 5), SimpleSpan::new(6, 7)]
    );
}

#[test]
fn save_exactly_at_boundary_restores_empty_stream() {
    let limiter = ProbeLimiter::with_limit(2);
    let scanned = limiter.counter();
    let mut input = Input::<PLexer>::with_state_and_context("1 2 3 4 5 6", limiter, probe_ctx(Emitter::verbose()));
    {
        let mut inp = input.as_ref();

        assert!(inp.next().unwrap().is_some(), "first token");
        assert!(inp.next().unwrap().is_some(), "second token");
        assert!(inp.next().unwrap().is_none(), "trip latches to None");
        assert!(inp.is_poisoned(), "the trip latches the boundary");
        let frozen = scanned.get();

        let ckp = inp.save();
        inp.restore(ckp);

        assert!(inp.next().unwrap().is_none(), "next() stays None");
        assert!(inp.peek_one().unwrap().is_none(), "peek stays empty");
        assert!(inp.try_expect(|_| true).unwrap().is_none(), "try_expect stays None");
        assert!(inp.sync_to(|_| false, || None).unwrap().is_none(), "sync_to stays None");
        assert!(inp.sync_through(|_| false, || None).unwrap().is_none(), "sync_through stays None");
        inp.skip_while(|_| true).unwrap();

        assert_eq!(scanned.get(), frozen, "nothing past the boundary is re-scanned");
    }
    assert_eq!(input.emitter().error_count(), 1, "the limit diagnostic is retained exactly once");
}

#[test]
fn sink_emitter_trip_bounds_work_and_survives_restore() {
    let (mut input, scanned) = probe_input("1 2 3 4 5 6");
    let mut inp = input.as_ref();

    assert!(inp.next().unwrap().is_some(), "first token");
    assert!(inp.next().unwrap().is_some(), "second token");
    assert!(inp.next().unwrap().is_none(), "trip latches to None");
    assert!(inp.is_poisoned(), "the trip latches the boundary");
    let frozen = scanned.get();

    let outcome = inp.attempt(|inp| {
        for _ in 0..5 {
            let _ = inp.next().unwrap();
        }
        None::<()>
    });
    assert!(outcome.is_none(), "the attempt declines and rolls back");
    assert!(inp.is_poisoned(), "the boundary survives the attempt rollback (input-owned)");
    assert_eq!(scanned.get(), frozen, "no unbounded rescan");
}

#[test]
fn restore_after_interleaved_emissions_keeps_rewound_lexer_error_reemittable() {
    let mut input = Input::<PLexer>::with_state_and_context("1 @ 2", ProbeLimiter::with_limit(usize::MAX), probe_ctx(Emitter::verbose()));
    {
        let mut inp = input.as_ref();
        let a = inp.save();
        assert!(inp.sync_to(|_| false, || None).unwrap().is_none());
        inp.restore(a);
        while inp.next().unwrap().is_some() {}
    }
    let at = SimpleSpan::new(2, 3);
    assert_eq!(input.emitter().errors_at(at), 1, "the rewound lexer error re-emits exactly once when re-reached");
    assert_eq!(input.emitter().error_count(), 1, "only the re-emitted lexer error is retained");
}

#[test]
fn try_attempt_ok_keeps_progress() {
    let mut input = Input::<PLexer>::with_state_and_context("1 2 3 4", ProbeLimiter::with_limit(usize::MAX), probe_ctx(Emitter::silent()));
    let mut inp = input.as_ref();

    let start = *inp.cursor().as_inner();
    let out: Result<i64, ()> = inp.try_attempt(|inp| {
        let _ = inp.next().unwrap().expect("first token");
        let _ = inp.next().unwrap().expect("second token");
        Ok(7)
    });
    assert_eq!(out, Ok(7), "the Ok value is returned");
    assert!(*inp.cursor().as_inner() > start, "progress is kept");
    assert_eq!(*inp.next().unwrap().expect("third token").span_ref(), SimpleSpan::new(4, 5));
}

#[test]
fn try_attempt_nested_lifo() {
    {
        let mut input = Input::<PLexer>::with_state_and_context("1 2 3 4", ProbeLimiter::with_limit(usize::MAX), probe_ctx(Emitter::silent()));
        let mut inp = input.as_ref();

        let out = inp.attempt(|inp| {
            let _ = inp.next().unwrap().expect("outer consumes 1");
            let inner: Result<(), ()> = inp.try_attempt(|inp| {
                let _ = inp.next().unwrap().expect("inner consumes 2");
                Err(())
            });
            assert!(inner.is_err(), "the inner try_attempt returned Err");
            Some(())
        });
        assert!(out.is_some(), "the outer attempt kept progress");
        assert_eq!(*inp.next().unwrap().expect("token 2").span_ref(), SimpleSpan::new(2, 3));
    }
    {
        let mut input = Input::<PLexer>::with_state_and_context("1 2 3 4", ProbeLimiter::with_limit(usize::MAX), probe_ctx(Emitter::silent()));
        let mut inp = input.as_ref();

        let out: Result<(), ()> = inp.try_attempt(|inp| {
            let _ = inp.next().unwrap().expect("outer consumes 1");
            let inner = inp.attempt(|inp| {
                let _ = inp.next().unwrap().expect("inner consumes 2");
                None::<()>
            });
            assert!(inner.is_none(), "the inner attempt returned None");
            Ok(())
        });
        assert!(out.is_ok(), "the outer try_attempt kept progress");
        assert_eq!(*inp.next().unwrap().expect("token 2").span_ref(), SimpleSpan::new(2, 3));
    }
}

#[test]
fn attempt_inner_lifo_clean_raw_pair_is_legal() {
    let mut input = Input::<PLexer>::with_state_and_context("1 2 3 4 5", ProbeLimiter::with_limit(usize::MAX), probe_ctx(Emitter::silent()));
    let mut inp = input.as_ref();

    let _ = inp.next().unwrap().expect("consume 1");
    let out: Option<u32> = inp.attempt(|inp| {
        let c = inp.save();
        let _ = inp.next().unwrap().expect("consume 2");
        assert!(inp.can_restore(&c), "a raw pair above the attempt's begin point is restorable");
        inp.restore(c);
        Some(7)
    });
    assert_eq!(out, Some(7), "the attempt kept its progress after the legal inner raw pair");
}

// ── State surgery ────────────────────────────────────────────────────────────────

#[test]
fn set_state_after_limit_trip_resumes_scanning() {
    let mut input = Input::<BalLexer>::with_state_and_context("1 2 3 4 5 6", TokenLimiter::with_limitation(2), bal_ctx(Emitter::verbose()));
    {
        let mut inp = input.as_ref();

        assert!(inp.next().unwrap().is_some(), "first token");
        assert!(inp.next().unwrap().is_some(), "second token");
        assert!(inp.next().unwrap().is_none(), "the limit trip latches to None");
        assert!(inp.is_poisoned(), "the limit trip latched the poison boundary");

        inp.set_state(TokenLimiter::with_limitation(usize::MAX));
        assert!(!inp.is_poisoned(), "state replacement re-keys the poison boundary away");

        let mut resumed = 0usize;
        while inp.next().unwrap().is_some() {
            resumed += 1;
        }
        assert_eq!(resumed, 4, "scans past the old boundary: 3, 4, 5, 6 all lex under the fresh state");
    }
    assert_eq!(count_err(input.emitter(), &ByValErr::Limit), 1, "the pre-replacement limit diagnostic stays exactly once");
}

#[test]
fn state_mut_applies_the_same_rekey() {
    let mut input = Input::<BalLexer>::with_state_and_context("1 2 3 4 5 6", TokenLimiter::with_limitation(2), bal_ctx(Emitter::verbose()));
    {
        let mut inp = input.as_ref();

        assert!(inp.next().unwrap().is_some(), "first token");
        assert!(inp.next().unwrap().is_some(), "second token");
        assert!(inp.next().unwrap().is_none(), "the limit trip latches to None");
        assert!(inp.is_poisoned(), "the limit trip latched the poison boundary");

        let _ = inp.state_mut();
        assert!(!inp.is_poisoned(), "state_mut eagerly re-keys the poison boundary away");

        *inp.state_mut() = TokenLimiter::with_limitation(usize::MAX);

        let mut resumed = 0usize;
        while inp.next().unwrap().is_some() {
            resumed += 1;
        }
        assert_eq!(resumed, 4, "the state_mut re-key lets scanning resume past the old boundary");
    }
    assert_eq!(count_err(input.emitter(), &ByValErr::Limit), 1, "the pre-replacement limit diagnostic stays exactly once");
}

// ── The checkpoint lineage ───────────────────────────────────────────────────────

#[test]
fn raw_checkpoint_drop_leaks_lineage_without_commit() {
    let (mut input, _scanned) = probe_input("1 2 3 4");
    let mut inp = input.as_ref();

    let baseline = inp.live_checkpoints_len();
    for _ in 0..100 {
        let _ckp = inp.save();
    }
    assert_eq!(inp.live_checkpoints_len(), baseline + 100, "100 dropped checkpoints grow the stack by 100");
}

#[test]
fn raw_checkpoint_commit_releases_lineage() {
    let (mut input, _scanned) = probe_input("1 2 3 4");
    let mut inp = input.as_ref();

    let baseline = inp.live_checkpoints_len();
    for _ in 0..100 {
        let ckp = inp.save();
        inp.commit(ckp);
        assert_eq!(inp.live_checkpoints_len(), baseline, "each commit forgets its id");
    }
}

#[test]
fn raw_retry_loop_with_commit_stays_flat() {
    let mut input = Input::<PLexer>::with_state_and_context("1 2 3 4", ProbeLimiter::with_limit(usize::MAX), probe_ctx(Emitter::silent()));
    let mut inp = input.as_ref();

    let baseline = inp.live_checkpoints_len();
    let mut consumed = Vec::new();

    loop {
        for _ in 0..2 {
            let probe = inp.save();
            let _ = inp.next().unwrap();
            inp.restore(probe);
        }
        let ckp = inp.save();
        match inp.next().unwrap() {
            Some(tok) => {
                consumed.push(*tok.span_ref());
                inp.commit(ckp);
            }
            None => {
                inp.commit(ckp);
                break;
            }
        }
        assert_eq!(inp.live_checkpoints_len(), baseline, "retry round leaves the stack flat");
    }

    assert_eq!(consumed.len(), 4, "the retry loop consumed all four tokens");
    assert!(consumed.windows(2).all(|w| w[0].start < w[1].start), "the committed token stream is in order");
}

#[test]
fn commit_of_invalidated_checkpoint_is_noop() {
    let (mut input, _scanned) = probe_input("1 2 3 4");
    let mut inp = input.as_ref();

    let a = inp.save();
    let _ = inp.next().unwrap();
    let b = inp.save();

    inp.restore(a);
    let len_after_restore = inp.live_checkpoints_len();
    let cursor_after_restore = *inp.cursor().as_inner();

    inp.commit(b);

    assert_eq!(inp.live_checkpoints_len(), len_after_restore, "committing a dead checkpoint removes nothing");
    assert_eq!(*inp.cursor().as_inner(), cursor_after_restore, "committing a dead checkpoint changes nothing");
}

// ── Balanced synchronization ─────────────────────────────────────────────────────

#[test]
fn sync_balanced_skips_enclosed_sync_tokens() {
    let mut input = bal_input("( ; ) ;", usize::MAX);
    {
        let mut inp = input.as_ref();

        let hole = inp.sync_balanced(parens, |t| matches!(t.data(), BalTok::Semi)).unwrap().expect("the depth-0 `;` is a sync point");
        assert_eq!(hole.span(), SimpleSpan::new(0, 5), "the hole covers the skipped region `( ; )`");
        assert_eq!(hole.skipped(), 3, "three tokens skipped into the hole");

        assert_eq!(inp.span(), &SimpleSpan::new(4, 5), "committed at `)`");
        let next = inp.next().unwrap().expect("the sync token is next");
        assert_eq!(*next.span_ref(), SimpleSpan::new(6, 7), "the depth-0 `;`");
        assert!(matches!(next.data(), BalTok::Semi));
    }

    assert_eq!(input.emitter().skipped_at(SimpleSpan::new(0, 5)), vec![3usize], "exactly one skipped-region record");
    assert_eq!(input.emitter().skipped_count(), 1, "exactly one skipped region");
    assert_eq!(input.emitter().error_count(), 0, "the skipped tokens are not reported individually");
}

#[test]
fn sync_balanced_stray_closer_is_garbage_and_depth_saturates() {
    let mut input = bal_input(") 1 ;", usize::MAX);
    {
        let mut inp = input.as_ref();

        let hole = inp.sync_balanced(parens, |t| matches!(t.data(), BalTok::Semi)).unwrap().expect("the `;` is a sync point");
        assert_eq!(hole.span(), SimpleSpan::new(0, 3), "the hole covers `) 1`");
        assert_eq!(hole.skipped(), 2);

        let next = inp.next().unwrap().expect("the sync token is next");
        assert!(matches!(next.data(), BalTok::Semi));
        assert_eq!(*next.span_ref(), SimpleSpan::new(4, 5));
    }
}

#[test]
fn sync_balanced_stray_closer_in_sync_set_syncs_at_depth_zero() {
    let mut input = bal_input("1 )", usize::MAX);
    {
        let mut inp = input.as_ref();

        let hole = inp.sync_balanced(parens, |t| matches!(t.data(), BalTok::RParen)).unwrap().expect("the depth-0 `)` is the sync point");
        assert_eq!(hole.span(), SimpleSpan::new(0, 1), "the hole covers `1`");
        assert_eq!(hole.skipped(), 1);

        let next = inp.next().unwrap().expect("the sync token is next");
        assert!(matches!(next.data(), BalTok::RParen));
        assert_eq!(*next.span_ref(), SimpleSpan::new(2, 3));
    }
}

#[test]
fn sync_balanced_opener_in_sync_set_syncs_before_counting() {
    let mut input = bal_input("1 (", usize::MAX);
    {
        let mut inp = input.as_ref();

        let hole = inp.sync_balanced(parens, |t| matches!(t.data(), BalTok::LParen)).unwrap().expect("the depth-0 `(` is the sync point");
        assert_eq!(hole.skipped(), 1);

        let next = inp.next().unwrap().expect("the sync token is next");
        assert!(matches!(next.data(), BalTok::LParen));
        assert_eq!(*next.span_ref(), SimpleSpan::new(2, 3));
    }
}

#[test]
fn sync_balanced_zero_skip_success_emits_no_diagnostic() {
    let mut input = bal_input("; 1", usize::MAX);
    {
        let mut inp = input.as_ref();

        let hole = inp.sync_balanced(parens, |t| matches!(t.data(), BalTok::Semi)).unwrap().expect("the `;` is immediately at hand");
        assert_eq!(hole.skipped(), 0, "nothing was skipped");
        assert_eq!(hole.span(), SimpleSpan::new(0, 0), "a zero-skip hole is zero-width at the resume position");

        assert_eq!(inp.span(), &SimpleSpan::new(0, 0), "no progress committed");
        let next = inp.next().unwrap().expect("the sync token is next");
        assert!(matches!(next.data(), BalTok::Semi));
    }
    assert_eq!(input.emitter().skipped_count(), 0, "an empty hole is not reported");
}

#[test]
fn failed_sync_balanced_leaves_no_trace() {
    let mut input = bal_input("1 2 3", usize::MAX);
    {
        let mut inp = input.as_ref();

        assert!(inp.sync_balanced(parens, |t| matches!(t.data(), BalTok::Semi)).unwrap().is_none(), "no sync point: the balanced sync fails");

        assert_eq!(inp.span(), &SimpleSpan::new(0, 0), "span stays at the pre-call anchor");
        assert_eq!(inp.state().tokens(), 0, "state stays at the pre-call count");

        let spans = drain_spans(&mut inp);
        assert_eq!(
            spans,
            vec![SimpleSpan::new(0, 1), SimpleSpan::new(2, 3), SimpleSpan::new(4, 5)],
            "the drain consumes the full token sequence normally"
        );
    }
    assert_eq!(input.emitter().skipped_count(), 0, "a failed hole is never reported");
    assert_eq!(input.emitter().error_count(), 0, "a failed balanced sync leaves no diagnostics");
}

#[test]
fn failed_sync_balanced_reemits_crossed_lexer_error_once() {
    let mut input = bal_input("1 @ 2", usize::MAX);
    {
        let mut inp = input.as_ref();
        assert!(inp.sync_balanced(parens, |t| matches!(t.data(), BalTok::Semi)).unwrap().is_none(), "no sync point: the balanced sync fails");
        while inp.next().unwrap().is_some() {}
    }
    let at = SimpleSpan::new(2, 3);
    assert_eq!(input.emitter().errors_at(at), 1, "the crossed lexer error re-emits exactly once on the genuine consume");
    assert_eq!(input.emitter().error_count(), 1, "no other diagnostics survive the failed sync");
}

#[test]
fn sync_balanced_trip_commits_prefix_without_hole_diagnostic() {
    let mut input = bal_input("1 2 3 4", 2);
    {
        let mut inp = input.as_ref();

        assert!(inp.sync_balanced(parens, |t| matches!(t.data(), BalTok::Semi)).unwrap().is_none(), "the trip yields the poisoned outcome");

        assert!(inp.is_poisoned(), "the trip latches the poison boundary");
        assert_eq!(inp.span(), &SimpleSpan::new(2, 3), "committed at the end of the last skipped token");
        assert_eq!(inp.state().tokens(), 2, "committed state counts exactly the skipped prefix");
    }
    assert_eq!(input.emitter().skipped_count(), 0, "a tripped (failed) sync reports no hole");
    assert_eq!(count_err(input.emitter(), &ByValErr::Limit), 1, "the limit trip is diagnosed exactly once");
    assert_eq!(count_err(input.emitter(), &ByValErr::Lex), 0, "no per-token unexpected diagnostics from the skip");
}

#[test]
fn sync_balanced_fatal_emitter_mid_skip_commits_the_error_token() {
    let mut input = Input::<BalLexer>::with_state_and_context("1 @ ;", TokenLimiter::with_limitation(usize::MAX), bal_ctx(Emitter::fatal()));
    let mut inp = input.as_ref();

    let r = inp.sync_balanced(parens, |t| matches!(t.data(), BalTok::Semi));
    assert_eq!(r, Err(ByValErr::Lex), "the fatal emitter's rejection propagates");
    assert_eq!(inp.span(), &SimpleSpan::new(2, 3), "the item that tripped the fatal emitter is committed");
}

#[test]
fn sync_balanced_hole_emission_unwinds_on_rollback() {
    let mut input = bal_input("1 2 ;", usize::MAX);
    {
        let mut inp = input.as_ref();

        let declined: Option<()> = inp.attempt(|inp| {
            let hole = inp.sync_balanced(parens, |t| matches!(t.data(), BalTok::Semi)).unwrap().expect("the `;` is a sync point");
            assert_eq!(hole.skipped(), 2);
            None
        });
        assert!(declined.is_none(), "the attempt declines and rolls back");

        assert_eq!(inp.span(), &SimpleSpan::new(0, 0), "the rollback restores the pre-skip position");
        let hole = inp.sync_balanced(parens, |t| matches!(t.data(), BalTok::Semi)).unwrap().expect("the `;` is still the sync point");
        assert_eq!(hole.span(), SimpleSpan::new(0, 3));
        assert_eq!(hole.skipped(), 2);
    }
    assert_eq!(input.emitter().skipped_at(SimpleSpan::new(0, 3)), vec![2usize], "exactly one hole record survives");
    assert_eq!(input.emitter().skipped_count(), 1);
}

// ── Cache geometry ───────────────────────────────────────────────────────────────

fn geometry_cache(spans: &[(usize, usize)]) -> TokenCache<BalTok, TokenLimiter> {
    let mut cache = TokenCache::<BalTok, TokenLimiter>::default();
    for (start, end) in spans {
        let tok = Spanned::new(SimpleSpan::new(*start, *end), BalTok::Num);
        let _ = cache.push_back(CachedToken::new(tok, TokenLimiter::new()));
    }
    cache
}

fn resident(cache: &TokenCache<BalTok, TokenLimiter>) -> Vec<(usize, usize)> {
    let mut out = Vec::new();
    let mut i = 0;
    while let Some(tok) = cache.get(i) {
        let spanned = tok.token();
        out.push((spanned.span_ref().start, spanned.span_ref().end));
        i += 1;
    }
    out
}

#[test]
fn cache_geometry_parity_matrix() {
    let window: &[(usize, usize)] = &[(4, 6), (8, 10), (12, 14)];
    let cases: &[(usize, &[(usize, usize)], &str)] = &[
        (2, &[], "below the window: cleared"),
        (4, window, "exactly at the front: the whole window is kept"),
        (8, &[(8, 10), (12, 14)], "mid-window at a token start: the suffix is kept"),
        (12, &[(12, 14)], "at the last token's start: that token alone"),
        (9, &[], "between two token starts: cleared"),
        (14, &[], "at the back's end: cleared"),
        (20, &[], "past the back: cleared"),
    ];
    for (cursor, want, why) in cases {
        let mut cache = geometry_cache(window);
        reconcile_cache_geometry(&mut cache, cursor);
        assert_eq!(resident(&cache), want.to_vec(), "geometry drift at cursor {cursor} — {why}");
    }

    let mut empty = geometry_cache(&[]);
    reconcile_cache_geometry(&mut empty, &7);
    assert!(resident(&empty).is_empty(), "an empty cache stays empty");

    for (cursor, want) in [(2usize, false), (4, true), (5, false), (6, false)] {
        let mut one = geometry_cache(&[(4, 6)]);
        reconcile_cache_geometry(&mut one, &cursor);
        assert_eq!(!resident(&one).is_empty(), want, "capacity-1 geometry drift at cursor {cursor}");
    }
}

// ── Take and peek families at a latched boundary ─────────────────────────────────

#[test]
fn wapi_b_try_expect_take_or_stop_errs_at_a_latched_boundary() {
    let (mut input, _scanned) = probe_input("1 2 3");
    let mut inp = input.as_ref();
    assert!(inp.next().unwrap().is_some());
    assert!(inp.next().unwrap().is_some());
    assert!(inp.next().unwrap().is_none(), "the third scan trips and latches");
    assert!(
        matches!(inp.try_expect_take_or_stop(|_| true, |sp| Ok(sp.span.start())), Err(ProbeErr::Eot)),
        "or_stop take treats the trip as terminal, never as absence"
    );
    assert!(
        matches!(inp.try_expect_take(|_| true, |sp| Ok(sp.span.start())), Ok(None)),
        "the non-stop take folds the latch into Ok(None), as try_expect does"
    );
}

#[test]
fn wapi_b_try_expect_take_classifies_before_it_takes() {
    let (mut input, _scanned) = probe_input("1 2");
    let mut inp = input.as_ref();
    assert!(
        matches!(inp.try_expect_take(|_| false, |sp| Ok(sp.span.start())), Ok(None)),
        "a declined classification takes nothing"
    );
    assert_eq!(
        inp.try_expect_take(|_| true, |sp| Ok((sp.span.start(), sp.span.end()))),
        Ok(Some((0, 1))),
        "the declined head is still at the front"
    );
}

#[test]
fn wapi_b_try_expect_take_project_error_is_a_real_error_post_commit() {
    let (mut input, _scanned) = probe_input("1 2");
    let mut inp = input.as_ref();
    let out: Result<Option<usize>, ProbeErr> = inp.try_expect_take(|_| true, |_sp| Err(ProbeErr::Lex));
    assert_eq!(out, Err(ProbeErr::Lex), "a project error propagates as an error");
    assert_eq!(
        inp.try_expect_take(|_| true, |sp| Ok((sp.span.start(), sp.span.end()))),
        Ok(Some((2, 3))),
        "the projected-over token was committed before `project` ran"
    );
}

#[test]
fn wapi_b_peek_kind_is_terminal_aware_at_a_latched_boundary() {
    let (mut input, _scanned) = probe_input("1 2 3");
    let mut inp = input.as_ref();
    assert!(inp.next().unwrap().is_some());
    assert!(inp.next().unwrap().is_some());
    assert!(inp.next().unwrap().is_none(), "the third scan trips and latches");
    assert!(matches!(inp.peek_kind(), Err(ProbeErr::Eot)), "a latched boundary is an error from peek_kind");
    assert!(matches!(inp.head_satisfies(|_| true), Err(ProbeErr::Eot)), "head_satisfies raises at the latch");
    assert!(matches!(inp.peek_head_map(|sp| sp.span.start()), Err(ProbeErr::Eot)), "peek_head_map raises at the latch");
    assert!(matches!(inp.peek_one(), Ok(None)), "peek_one still folds a latch into Ok(None)");
}

#[test]
fn wapi_b_peek_kind_reads_genuine_eof_as_none() {
    let (mut input, _scanned) = probe_input("1");
    let mut inp = input.as_ref();
    assert!(inp.next().unwrap().is_some());
    assert!(matches!(inp.peek_kind(), Ok(None)), "genuine end of input peeks as None");
    assert!(matches!(inp.head_satisfies(|_| true), Ok(false)), "and head_satisfies answers false there");
}

#[test]
fn wapi_b_peek_head_map_does_not_consume_the_head() {
    let (mut input, _scanned) = probe_input("1 2");
    let mut inp = input.as_ref();
    assert_eq!(inp.peek_head_map(|sp| (sp.span.start(), sp.span.end())), Ok(Some((0, 1))));
    assert_eq!(
        inp.peek_head_map(|sp| (sp.span.start(), sp.span.end())),
        Ok(Some((0, 1))),
        "a peek is not a take — the second read sees the same head"
    );
    let taken = inp.next().unwrap().expect("the head is still there to consume");
    assert_eq!(taken.span_ref().start(), 0);
}

#[test]
fn wapi_b_peek_kind_marks_the_eot_terminal_at_a_latched_boundary() {
    let mut input = term_input("1 2 3");
    let mut inp = input.as_ref();
    assert!(inp.next().unwrap().is_some());
    assert!(inp.next().unwrap().is_some());
    assert!(inp.next().unwrap().is_none(), "the third scan trips and latches");
    assert_eq!(inp.peek_kind(), Err(TermErr::Eot { terminal: true }), "the latched end of input is marked terminal");
}

#[test]
fn wapi_b_peek_kind_leaves_a_genuine_eof_unmarked() {
    let mut input = term_input("1");
    let mut inp = input.as_ref();
    assert!(inp.next().unwrap().is_some());
    assert_eq!(inp.peek_kind(), Ok(None), "genuine end of input is not an error at all here");
}

// ── Own tests: the laws on concrete values ───────────────────────────────────────

#[test]
fn restore_returns_to_the_save_after_diagnostics_and_progress() {
    // Save, cross a lexer error and consume, then restore: position, diagnostics and
    // watermark are those at the save, and the stream replays identically.
    let mut input = Input::<BalLexer>::with_state_and_context("1 @ 2 3", TokenLimiter::with_limitation(usize::MAX), bal_ctx(Emitter::verbose()));
    {
        let mut inp = input.as_ref();
        let c = inp.save();
        assert_eq!(inp.live_checkpoints_len(), 1);
        let _ = inp.next().unwrap();
        let _ = inp.next().unwrap();
        assert_eq!(inp.emitter().error_count(), 1, "the crossed `@` was reported");
        assert_eq!(inp.span(), &SimpleSpan::new(4, 5));
        inp.restore(c);
        assert_eq!(inp.live_checkpoints_len(), 0, "the restore cut the lineage back");
        assert_eq!(inp.span(), &SimpleSpan::new(0, 0), "back at the save");
        assert_eq!(inp.state().tokens(), 0, "the snapshot's state");
        assert_eq!(inp.emitter().error_count(), 0, "diagnostics since the save are taken back");
        let spans = drain_spans(&mut inp);
        assert_eq!(spans, vec![SimpleSpan::new(0, 1), SimpleSpan::new(4, 5), SimpleSpan::new(6, 7)]);
    }
    assert_eq!(input.emitter().errors_at(SimpleSpan::new(2, 3)), 1, "the error is reported once on the kept path");
}

#[test]
fn save_then_restore_keeps_the_prefetched_cache() {
    let mut input = bal_input("1 2 3 4", usize::MAX);
    let mut inp = input.as_ref();
    let peeked = inp.peek(2).unwrap();
    assert_eq!(peeked.len(), 2);
    assert_eq!(inp.cache().len(), 2);
    let c = inp.save();
    inp.restore(c);
    assert_eq!(inp.cache().len(), 2, "nothing was consumed or cached since the save");
    assert_eq!(inp.offset(), 3, "the lex frontier is still the end of the second token");
    assert_eq!(drain_spans(&mut inp), vec![SimpleSpan::new(0, 1), SimpleSpan::new(2, 3), SimpleSpan::new(4, 5), SimpleSpan::new(6, 7)]);
}

#[test]
fn restore_drops_tokens_cached_after_the_save() {
    let mut input = bal_input("1 2 3 4", usize::MAX);
    let mut inp = input.as_ref();
    let _ = inp.peek(1).unwrap();
    let c = inp.save();
    let _ = inp.peek(3).unwrap();
    assert_eq!(inp.cache().len(), 3);
    inp.restore(c);
    assert_eq!(inp.cache().len(), 1, "the two tokens cached after the save are dropped");
    assert_eq!(inp.offset(), 1);
}

#[test]
fn restore_after_a_consume_empties_the_cache() {
    let mut input = bal_input("1 2 3 4", usize::MAX);
    let mut inp = input.as_ref();
    let c = inp.save();
    let _ = inp.peek(3).unwrap();
    let _ = inp.next().unwrap();
    inp.restore(c);
    assert_eq!(inp.cache().len(), 0, "a consume since the save empties the cache");
    assert_eq!(inp.offset(), 0);
    assert_eq!(drain_spans(&mut inp).len(), 4);
}

#[test]
fn declined_attempt_leaves_no_trace() {
    let mut input = Input::<BalLexer>::with_state_and_context("1 @ 2", TokenLimiter::with_limitation(usize::MAX), bal_ctx(Emitter::verbose()));
    let mut inp = input.as_ref();
    let out: Option<()> = inp.attempt(|inp| {
        while inp.next().unwrap().is_some() {}
        None
    });
    assert!(out.is_none());
    assert_eq!(inp.span(), &SimpleSpan::new(0, 0));
    assert_eq!(inp.state().tokens(), 0);
    assert_eq!(inp.emitter().error_count(), 0, "the crossed error was taken back");
    assert_eq!(inp.live_checkpoints_len(), 0, "the attempt's begin point was released");
}

#[test]
fn kept_attempt_keeps_progress_and_releases_its_checkpoint() {
    let mut input = bal_input("1 2", usize::MAX);
    let mut inp = input.as_ref();
    let out = inp.attempt(|inp| inp.next().unwrap().map(|t| *t.span_ref()));
    assert_eq!(out, Some(SimpleSpan::new(0, 1)));
    assert_eq!(inp.span(), &SimpleSpan::new(0, 1));
    assert_eq!(inp.live_checkpoints_len(), 0);
}

#[test]
fn can_restore_refuses_a_target_below_a_running_attempt() {
    let mut input = bal_input("1 2 3", usize::MAX);
    let mut inp = input.as_ref();
    let a = inp.save();
    let _ = inp.next().unwrap();
    let out = inp.attempt(|inp| {
        let refused = !inp.can_restore(&a);
        Some(refused)
    });
    assert_eq!(out, Some(true), "the attempt's held begin point sits above `a`");
    assert!(inp.can_restore(&a), "once the attempt settled, `a` can be restored");
    inp.restore(a);
    assert_eq!(inp.span(), &SimpleSpan::new(0, 0));
}

#[test]
fn transaction_commit_keeps_progress() {
    let mut input = bal_input("1 2 3", usize::MAX);
    let mut inp = input.as_ref();
    {
        let mut txn = inp.begin();
        let _ = txn.input().next().unwrap();
        txn.commit();
    }
    assert_eq!(inp.span(), &SimpleSpan::new(0, 1));
    assert_eq!(inp.live_checkpoints_len(), 0);
}

#[test]
fn transaction_rollback_returns_to_the_begin_point() {
    let mut input = Input::<BalLexer>::with_state_and_context("1 @ 2", TokenLimiter::with_limitation(usize::MAX), bal_ctx(Emitter::verbose()));
    let mut inp = input.as_ref();
    {
        let mut txn = inp.begin();
        while txn.input().next().unwrap().is_some() {}
        assert_eq!(txn.input().emitter().error_count(), 1);
        txn.rollback();
    }
    assert_eq!(inp.span(), &SimpleSpan::new(0, 0));
    assert_eq!(inp.emitter().error_count(), 0);
    assert_eq!(inp.live_checkpoints_len(), 0);
}

#[test]
fn nested_transactions_roll_back_inner_work_only() {
    let mut input = bal_input("1 2 3", usize::MAX);
    let mut inp = input.as_ref();
    {
        let mut outer = inp.begin();
        let _ = outer.input().next().unwrap();
        {
            let mut inner = outer.input().begin();
            let _ = inner.input().next().unwrap();
            inner.rollback();
        }
        assert_eq!(outer.input().span(), &SimpleSpan::new(0, 1));
        outer.commit();
    }
    assert_eq!(*inp.next().unwrap().unwrap().span_ref(), SimpleSpan::new(2, 3));
}

#[test]
fn settling_an_undecided_default_transaction_rolls_back() {
    let mut input = bal_input("1 2 3", usize::MAX);
    let mut inp = input.as_ref();
    {
        let mut txn = inp.begin();
        assert_eq!(txn.policy(), DropPolicy::Rollback);
        let _ = txn.input().next().unwrap();
        let _ = txn.input().next().unwrap();
        txn.settle_undecided();
    }
    assert_eq!(inp.span(), &SimpleSpan::new(0, 0));
    assert_eq!(inp.live_checkpoints_len(), 0);
}

#[test]
fn settling_an_undecided_commit_by_default_transaction_keeps_progress() {
    let mut input = bal_input("1 2 3", usize::MAX);
    let mut inp = input.as_ref();
    {
        let mut txn = inp.begin_with(DropPolicy::Commit);
        assert_eq!(txn.policy(), DropPolicy::Commit);
        let _ = txn.input().next().unwrap();
        let _ = txn.input().next().unwrap();
        txn.settle_undecided();
    }
    assert_eq!(inp.span(), &SimpleSpan::new(2, 3));
    assert_eq!(inp.live_checkpoints_len(), 0);
    assert_eq!(*inp.next().unwrap().unwrap().span_ref(), SimpleSpan::new(4, 5));
}

#[test]
fn a_commit_by_default_transaction_can_still_roll_back() {
    let mut input = bal_input("1 2 3", usize::MAX);
    let mut inp = input.as_ref();
    {
        let mut txn = inp.begin_with(DropPolicy::Commit);
        let _ = txn.input().next().unwrap();
        txn.rollback();
    }
    assert_eq!(inp.span(), &SimpleSpan::new(0, 0));
    assert_eq!(*inp.next().unwrap().unwrap().span_ref(), SimpleSpan::new(0, 1));
}

// ── Own tests: reading and peeking ───────────────────────────────────────────────

#[test]
fn fatal_emitter_rejects_a_lexer_error_without_progress() {
    let mut input = Input::<BalLexer>::with_state_and_context("@ 1", TokenLimiter::with_limitation(usize::MAX), bal_ctx(Emitter::fatal()));
    let mut inp = input.as_ref();
    assert_eq!(inp.next(), Err(ByValErr::Lex));
    assert_eq!(inp.span(), &SimpleSpan::new(0, 0), "nothing committed");
    assert_eq!(inp.emitter().error_count(), 0, "a fail-fast emitter records nothing");
}

#[test]
fn silent_emitter_skips_lexer_errors_and_records_nothing() {
    let mut input = Input::<BalLexer>::with_state_and_context("@ 1 @", TokenLimiter::with_limitation(usize::MAX), bal_ctx(Emitter::silent()));
    let mut inp = input.as_ref();
    assert_eq!(drain_spans(&mut inp), vec![SimpleSpan::new(2, 3)]);
    assert_eq!(inp.emitter().error_count(), 0);
}

#[test]
fn a_lexer_error_is_reported_once_across_peek_and_next() {
    let mut input = Input::<BalLexer>::with_state_and_context("@ 1", TokenLimiter::with_limitation(usize::MAX), bal_ctx(Emitter::verbose()));
    {
        let mut inp = input.as_ref();
        let t = inp.peek_one().unwrap().unwrap();
        assert_eq!(*t.span_ref(), SimpleSpan::new(2, 3));
        assert_eq!(inp.cache().len(), 1);
        let n = inp.next().unwrap().unwrap();
        assert_eq!(*n.span_ref(), SimpleSpan::new(2, 3));
    }
    assert_eq!(input.emitter().errors_at(SimpleSpan::new(0, 1)), 1);
    assert_eq!(input.emitter().error_count(), 1);
}

#[test]
fn peek_retains_no_more_than_the_cache_capacity() {
    let cache = TokenCache::<BalTok, TokenLimiter>::with_capacity(2);
    let mut input = Input::<BalLexer>::with_state_and_context("1 2 3 4", TokenLimiter::new(), InputContext::new(Emitter::verbose(), cache));
    let mut inp = input.as_ref();
    let v = inp.peek(4).unwrap();
    assert_eq!(v.len(), 4, "the window past the cache overflows");
    assert_eq!(inp.cache().len(), 2, "only the cache's capacity is retained");
    assert_eq!(inp.cache().back().unwrap().state().tokens(), 2);
    assert_eq!(inp.span(), &SimpleSpan::new(0, 0), "a peek consumes nothing");
    assert_eq!(inp.state().tokens(), 0);
}

#[test]
fn peek_stops_at_the_end_of_input() {
    let mut input = bal_input("1 2", usize::MAX);
    let mut inp = input.as_ref();
    let v = inp.peek(3).unwrap();
    assert_eq!(v.len(), 2);
    assert_eq!(inp.offset(), 3);
}

#[test]
fn skip_while_counts_and_leaves_the_refused_token() {
    let mut input = bal_input("1 2 ; 3", usize::MAX);
    let mut inp = input.as_ref();
    let n = inp.skip_while(|t| matches!(t.data(), BalTok::Num)).unwrap();
    assert_eq!(n, 2);
    assert_eq!(inp.span(), &SimpleSpan::new(2, 3));
    assert!(matches!(inp.next().unwrap().unwrap().data(), BalTok::Semi));
}

#[test]
fn skip_while_walks_the_cache_before_lexing_more() {
    let mut input = bal_input("1 2 ; 3", usize::MAX);
    let mut inp = input.as_ref();
    assert_eq!(inp.peek(3).unwrap().len(), 3);
    let n = inp.skip_while(|t| matches!(t.data(), BalTok::Num)).unwrap();
    assert_eq!(n, 2);
    assert_eq!(inp.span(), &SimpleSpan::new(2, 3));
    assert_eq!(inp.cache().len(), 1, "the refused `;` stays cached");
    assert!(matches!(inp.next().unwrap().unwrap().data(), BalTok::Semi));

    let mut input = bal_input("1 2 3 ;", usize::MAX);
    let mut inp = input.as_ref();
    assert_eq!(inp.peek(2).unwrap().len(), 2);
    let n = inp.skip_while(|t| matches!(t.data(), BalTok::Num)).unwrap();
    assert_eq!(n, 3, "the whole cache, then one more lexed token");
    assert_eq!(inp.span(), &SimpleSpan::new(4, 5));
    assert_eq!(inp.cache().len(), 1, "the refused `;` is staged");
    assert!(matches!(inp.next().unwrap().unwrap().data(), BalTok::Semi));
}

#[test]
fn try_expect_map_and_and_then_consume_or_leave() {
    let mut input = bal_input("1 ( 2", usize::MAX);
    let mut inp = input.as_ref();
    let m = inp.try_expect_map(|t| if matches!(t.data(), BalTok::Num) { Some(7) } else { None }).unwrap();
    assert_eq!(m.map(|(o, t)| (o, *t.span_ref())), Some((7, SimpleSpan::new(0, 1))));
    let n = inp.try_expect_map(|t| if matches!(t.data(), BalTok::Num) { Some(7) } else { None }).unwrap();
    assert!(n.is_none(), "`(` is left in place");
    let e = inp.try_expect_and_then(|_t| Some(Err::<u8, ByValErr>(ByValErr::Limit)));
    assert_eq!(e.map(|o| o.map(|(v, _)| v)), Err(ByValErr::Limit));
    assert_eq!(inp.span(), &SimpleSpan::new(2, 3), "the token the closure errored on was consumed");
    let k = inp.try_expect_and_then(|t| Some(Ok::<usize, ByValErr>(t.span_ref().start))).unwrap();
    assert_eq!(k.map(|(v, _)| v), Some(4));
}

#[test]
fn peek_kind_and_head_satisfies_read_without_consuming() {
    let mut input = bal_input("( 1", usize::MAX);
    let mut inp = input.as_ref();
    assert_eq!(inp.peek_kind(), Ok(Some(BalKind::LParen)));
    assert_eq!(inp.head_satisfies(|t| matches!(t.data(), BalTok::LParen)), Ok(true));
    assert_eq!(inp.span(), &SimpleSpan::new(0, 0));
    assert_eq!(inp.cache().len(), 1);
}

#[test]
fn probe_close_classifies_and_commit_probed_commits() {
    let mut input = bal_input("1 )", usize::MAX);
    let mut inp = input.as_ref();
    match inp.probe_close(|t| matches!(t.data(), BalTok::RParen)).unwrap() {
        CloseStatus::WrongToken(w) => assert_eq!(*w.span_ref(), SimpleSpan::new(0, 1)),
        _ => panic!("`1` is not the closer"),
    }
    assert_eq!(inp.span(), &SimpleSpan::new(0, 0), "the probe is cursor-neutral");
    match inp.probe_close(|t| matches!(t.data(), BalTok::Num)).unwrap() {
        CloseStatus::Close(p) => {
            assert!(matches!(p, ClosePayload::CacheFront), "the staged `1` is judged at the cache front");
            let t = inp.commit_probed(p);
            assert_eq!(*t.span_ref(), SimpleSpan::new(0, 1));
        }
        _ => panic!("`1` is accepted here"),
    }
    match inp.probe_close(|t| matches!(t.data(), BalTok::RParen)).unwrap() {
        CloseStatus::Close(p) => {
            assert!(matches!(p, ClosePayload::Scanned(_)), "a lexed closer is carried out");
            let t = inp.commit_probed(p);
            assert_eq!(*t.span_ref(), SimpleSpan::new(2, 3));
        }
        _ => panic!("`)` is the closer"),
    }
    assert!(matches!(inp.probe_close(|_| true), Ok(CloseStatus::Eof)));
}

#[test]
fn probe_close_reports_a_trip() {
    let mut input = bal_input("1 2", 1);
    let mut inp = input.as_ref();
    assert!(inp.next().unwrap().is_some());
    assert!(matches!(inp.probe_close(|_| true), Ok(CloseStatus::Tripped)));
    assert!(inp.at_latched_boundary());
}

#[test]
fn sync_to_leaves_the_match_in_place_and_reports_skips() {
    let mut input = bal_input("1 2 ; 3", usize::MAX);
    {
        let mut inp = input.as_ref();
        let m = inp.sync_to(|t| matches!(t.data(), BalTok::Semi), || Some(BalKind::Semi)).unwrap();
        assert_eq!(m.map(|t| *t.span_ref()), Some(SimpleSpan::new(4, 5)));
        assert_eq!(inp.span(), &SimpleSpan::new(2, 3), "committed through the skipped prefix");
        assert_eq!(inp.cache().len(), 1, "the match waits at the cache front");
        assert!(matches!(inp.next().unwrap().unwrap().data(), BalTok::Semi));
    }
    assert_eq!(count_err(input.emitter(), &ByValErr::Lex), 2, "one unexpected-token report per skipped token");
}

#[test]
fn sync_through_under_a_fatal_emitter_commits_the_refused_token() {
    let mut input = Input::<BalLexer>::with_state_and_context("1 2 ;", TokenLimiter::with_limitation(usize::MAX), bal_ctx(Emitter::fatal()));
    let mut inp = input.as_ref();
    assert_eq!(inp.sync_through(|t| matches!(t.data(), BalTok::Semi), || None), Err(ByValErr::Lex));
    assert_eq!(inp.span(), &SimpleSpan::new(0, 1), "the first skipped token, whose report was refused, is committed");
}

#[test]
fn sync_balanced_depth_counts_nested_pairs() {
    let mut input = bal_input("( ( ; ) ; ) ;", usize::MAX);
    let mut inp = input.as_ref();
    let hole = inp.sync_balanced(parens, |t| matches!(t.data(), BalTok::Semi)).unwrap().unwrap();
    assert_eq!(hole.skipped(), 6);
    assert_eq!(hole.span(), SimpleSpan::new(0, 11));
    assert_eq!(*inp.next().unwrap().unwrap().span_ref(), SimpleSpan::new(12, 13));
}

// ── Own tests: the smaller types ─────────────────────────────────────────────────

#[test]
fn simple_span_and_spanned_accessors() {
    let s = SimpleSpan::new(3, 7);
    assert_eq!((s.start(), s.end(), s.len(), s.is_empty()), (3, 7, 4, false));
    assert!(SimpleSpan::new(5, 5).is_empty());
    let sp = Spanned::new(s, 'x');
    assert_eq!(*sp.span(), s);
    assert_eq!(*sp.data(), 'x');
    assert_eq!(sp.clone().into_components(), (s, 'x'));
    assert_eq!(sp.clone().into_span(), s);
    assert_eq!(sp.into_data(), 'x');
}

#[test]
fn unexpected_eot_and_token_carry_their_parts() {
    let e = UnexpectedEot::eot_of(9);
    assert_eq!((e.offset(), e.is_terminal()), (9, false));
    let t = e.into_terminal();
    assert_eq!((t.offset(), t.is_terminal()), (9, true));

    let u = UnexpectedToken::<char, u8>::of(SimpleSpan::new(1, 2));
    assert_eq!(u.span(), SimpleSpan::new(1, 2));
    assert_eq!(u.found(), &None);
    let u = u.with_found('q').with_expected(Some(4));
    assert_eq!(u.found(), &Some('q'));
    assert_eq!(u.expected(), &Some(4));
    assert_eq!(u.span(), SimpleSpan::new(1, 2));
}

#[test]
fn token_limiter_trips_past_its_limit() {
    let mut l = TokenLimiter::with_limitation(1);
    assert!(l.check().is_ok());
    l.increase();
    assert!(l.check().is_ok());
    assert!(!l.is_exceeded());
    l.increase();
    assert!(l.is_exceeded());
    let err = l.check().unwrap_err();
    assert_eq!((err.tokens, err.limitation), (2, 1));
    assert_eq!((l.tokens(), l.limitation()), (2, 1));
    assert_eq!(TokenLimiter::new().limitation(), usize::MAX);
}

#[test]
fn emitter_policies_and_rewind() {
    let mut f = Emitter::<u8>::fatal();
    assert_eq!(f.emit_error(SimpleSpan::new(0, 1), 5), Err(5));
    assert_eq!(f.error_count(), 0);

    let mut s = Emitter::<u8>::silent();
    assert_eq!(s.emit_error(SimpleSpan::new(0, 1), 5), Ok(()));
    s.emit_skipped_region(SimpleSpan::new(0, 3), 2);
    assert_eq!((s.error_count(), s.skipped_count()), (0, 0));

    let mut v = Emitter::<u8>::verbose();
    let mark = v.checkpoint();
    assert_eq!(v.emit_error(SimpleSpan::new(0, 1), 5), Ok(()));
    v.emit_skipped_region(SimpleSpan::new(0, 3), 2);
    assert_eq!(v.emit_error(SimpleSpan::new(0, 1), 6), Ok(()));
    assert_eq!(v.error_count(), 2);
    assert_eq!(v.errors_at(SimpleSpan::new(0, 1)), 2);
    assert_eq!(v.skipped_at(SimpleSpan::new(0, 3)), vec![2]);
    assert_eq!(v.log().len(), 3);
    v.rewind(mark);
    assert_eq!(v.log().len(), 0, "rewinding to a mark takes back everything after it");
    assert_eq!(v.policy(), tokora::emitter::Policy::Verbose);
}

#[test]
fn token_cache_is_a_bounded_queue() {
    let mut c = TokenCache::<BalTok, TokenLimiter>::with_capacity(2);
    let tok = |s: usize| CachedToken::new(Spanned::new(SimpleSpan::new(s, s + 1), BalTok::Num), TokenLimiter::new());
    assert!(c.push_back(tok(0)).is_ok());
    assert!(c.push_back(tok(2)).is_ok());
    assert!(c.push_back(tok(4)).is_err(), "a full cache hands the entry back");
    assert_eq!((c.len(), c.capacity(), c.remaining()), (2, 2, 0));
    assert_eq!(c.front().unwrap().token().span_ref().start, 0);
    assert_eq!(c.back().unwrap().token().span_ref().start, 2);
    let popped = c.pop_front().unwrap();
    assert_eq!(popped.into_components().0.span_ref().start, 0);
    assert_eq!(c.len(), 1);
    c.clear();
    assert!(c.is_empty());
    for s in [0, 2] {
        let _ = c.push_back(tok(s));
    }
    c.drop_back(1);
    assert_eq!(c.len(), 1);
    c.drop_front(5);
    assert!(c.is_empty());
}

#[test]
fn hole_and_depth_steps() {
    let h = tokora::recovery::Hole::new(SimpleSpan::new(2, 9), 3);
    assert_eq!((h.span(), h.skipped()), (SimpleSpan::new(2, 9), 3));
    assert_eq!(tokora::recovery::step_depth(0, &Balance::Open('(')), 1);
    assert_eq!(tokora::recovery::step_depth(0, &Balance::Close('(')), 0, "depth saturates at zero");
    assert_eq!(tokora::recovery::step_depth(2, &Balance::Close('(')), 1);
    assert_eq!(tokora::recovery::step_depth(usize::MAX, &Balance::Open('(')), usize::MAX);
    assert_eq!(tokora::recovery::step_depth(4, &Balance::<char>::Neutral), 4);
}

#[test]
fn branch_zero_has_id_zero() {
    assert_eq!(tokora::parse_choice::Branch::<3>::b0().id(), 0);
}

#[test]
fn lexed_items_convert_both_ways() {
    let mut lx = BalLexer::new("1 @");
    let first = Lexed::lex_spanned(&mut lx).unwrap();
    assert_eq!(*first.span_ref(), SimpleSpan::new(0, 1));
    assert!(first.data().is_token());
    assert_eq!(first.data().expect_token_ref("a number"), &BalTok::Num);
    let second = Lexed::lex(&mut lx).unwrap();
    assert!(second.is_error());
    assert_eq!(second.clone().try_unwrap_error(), Some(ByValErr::Lex));
    assert_eq!(second.clone().try_unwrap_token(), None);
    let r: Result<BalTok, ByValErr> = second.into();
    assert_eq!(r, Err(ByValErr::Lex));
    let back: Lexed<BalTok> = Lexed::from(r);
    assert_eq!(back.expect_error("an error"), ByValErr::Lex);
    assert!(Lexed::lex(&mut lx).is_none(), "exhausted");
    assert!(Lexed::lex(&mut lx).is_none(), "and stays exhausted");
}

#[test]
fn set_state_clears_the_cache() {
    let mut input = bal_input("1 2 3", usize::MAX);
    let mut inp = input.as_ref();
    let _ = inp.peek(2).unwrap();
    inp.set_state(TokenLimiter::with_limitation(7));
    assert_eq!(inp.cache().len(), 0);
    assert_eq!(inp.state().limitation(), 7);
    assert_eq!(drain_spans(&mut inp).len(), 3);
}

#[test]
fn a_lexer_hands_out_the_slice_under_its_last_item() {
    let mut lx = BalLexer::new("12 (");
    assert!(matches!(lx.lex(), Some(Ok(BalTok::Num))));
    assert_eq!(lx.slice(), "12");
    assert!(matches!(lx.lex(), Some(Ok(BalTok::LParen))));
    assert_eq!(lx.slice(), "(");
    assert_eq!(lx.span(), SimpleSpan::new(3, 4));
    assert!(lx.lex().is_none());
    assert_eq!(lx.state().tokens(), 2);
}

#[test]
fn a_unit_state_is_always_valid() {
    assert_eq!(State::check(&()), Ok(()));
}

#[test]
fn restore_after_peek_across_lexer_error_reemits_error_exactly_once() {
    let mut input = Input::<PLexer>::with_state_and_context("1 @ 2 3", ProbeLimiter::with_limit(usize::MAX), probe_ctx(Emitter::verbose()));
    {
        let mut inp = input.as_ref();
        let _ = inp.peek(2).unwrap();
        let ckp = inp.save();
        while inp.next().unwrap().is_some() {}
        inp.restore(ckp);
        while inp.next().unwrap().is_some() {}
    }
    assert_eq!(input.emitter().error_count(), 1, "the lexer error appears exactly once");
}

#[test]
fn restore_drops_cache_entries_from_abandoned_lineage() {
    let mut input = Input::<PLexer>::with_state_and_context("1 @ 2 3", ProbeLimiter::with_limit(usize::MAX), probe_ctx(Emitter::verbose()));
    let drained: Vec<SimpleSpan> = {
        let mut inp = input.as_ref();
        let _ = inp.peek(1).unwrap();
        let ckp = inp.save();
        let _ = inp.peek(3).unwrap();
        inp.restore(ckp);
        drain_spans(&mut inp)
    };
    assert_eq!(drained, vec![SimpleSpan::new(0, 1), SimpleSpan::new(4, 5), SimpleSpan::new(6, 7)]);
    assert_eq!(input.emitter().error_count(), 1, "the rolled-back lexer error is re-emitted exactly once");
}

// ── Replay after a restore, overflow peeks, and synchronization over a prefilled cache ──

/// A probe input over `src` with a shared limiter of `limit`, a recording emitter and a
/// cache of `capacity`.
fn probe_verbose(src: &'static str, limiter: ProbeLimiter, capacity: usize) -> Input<PLexer> {
    Input::<PLexer>::with_state_and_context(
        src,
        limiter,
        InputContext::new(Emitter::verbose(), TokenCache::with_capacity(capacity)),
    )
}

/// The spans of the recorded lexer-class errors, in log order.
fn error_spans<E>(emitter: &Emitter<E>) -> Vec<SimpleSpan> {
    emitter
        .log()
        .iter()
        .filter_map(|x| match x {
            Emission::Error { span, .. } => Some(*span),
            _ => None,
        })
        .collect()
}

#[test]
fn restore_option_cache_capacity_one_reemits_error_once() {
    let mut input = probe_verbose("1 @ 2 3", ProbeLimiter::with_limit(usize::MAX), 1);
    let drained = {
        let mut inp = input.as_ref();
        let _ = inp.peek(1).unwrap();
        let ckp = inp.save();
        let _ = inp.peek(2).unwrap();
        inp.restore(ckp);
        drain_spans(&mut inp)
    };
    assert_eq!(drained, vec![SimpleSpan::new(0, 1), SimpleSpan::new(4, 5), SimpleSpan::new(6, 7)]);
    assert_eq!(input.emitter().error_count(), 1, "the error re-lexes and is emitted exactly once");
}

#[test]
fn nested_restore_retains_pre_save_cache_entries() {
    let limiter = ProbeLimiter::with_limit(usize::MAX);
    let scanned = limiter.counter();
    let mut input = probe_verbose("1 2 3 4 5", limiter, 3);
    let drained = {
        let mut inp = input.as_ref();
        let _ = inp.peek(1).unwrap();
        let outer = inp.save();
        let inner = inp.save();
        let _ = inp.peek(3).unwrap();
        inp.restore(inner);
        inp.restore(outer);
        let before = scanned.get();
        let first = inp.next().unwrap().expect("first drained token");
        assert_eq!(*first.span_ref(), SimpleSpan::new(0, 1));
        assert_eq!(scanned.get(), before, "the pre-save cache entry is served from cache, never re-lexed");
        let mut toks = vec![*first.span_ref()];
        toks.extend(drain_spans(&mut inp));
        toks
    };
    assert_eq!(
        drained,
        vec![SimpleSpan::new(0, 1), SimpleSpan::new(2, 3), SimpleSpan::new(4, 5), SimpleSpan::new(6, 7), SimpleSpan::new(8, 9)]
    );
    assert_eq!(input.emitter().error_count(), 0, "a clean nested restore emits no diagnostic");
}

#[test]
fn nested_restore_with_shared_limiter_no_spurious_poison() {
    let mut input = probe_verbose("1 2 3 4 5", ProbeLimiter::with_limit(7), 3);
    let drained = {
        let mut inp = input.as_ref();
        let _ = inp.peek(1).unwrap();
        let outer = inp.save();
        let inner = inp.save();
        let _ = inp.peek(3).unwrap();
        inp.restore(inner);
        inp.restore(outer);
        let toks = drain_spans(&mut inp);
        assert!(!inp.is_poisoned(), "serving the pre-save entry from cache spends no extra scan");
        toks
    };
    assert_eq!(
        drained,
        vec![SimpleSpan::new(0, 1), SimpleSpan::new(2, 3), SimpleSpan::new(4, 5), SimpleSpan::new(6, 7), SimpleSpan::new(8, 9)]
    );
    assert_eq!(count_err(input.emitter(), &ProbeErr::Limit), 0, "no spurious limit diagnostic");
}

#[test]
fn consumed_pre_save_cache_entry_relexes_identically_on_restore() {
    const SRC: &str = "1 @ 2 3";
    let (oracle_spans, oracle_scans, oracle_diags) = {
        let limiter = ProbeLimiter::with_limit(usize::MAX);
        let scanned = limiter.counter();
        let mut input = probe_verbose(SRC, limiter, 3);
        let spans = {
            let mut inp = input.as_ref();
            drain_spans(&mut inp)
        };
        (spans, scanned.get(), input.emitter().error_count())
    };
    assert_eq!(oracle_spans, vec![SimpleSpan::new(0, 1), SimpleSpan::new(4, 5), SimpleSpan::new(6, 7)]);
    assert_eq!(oracle_scans, 3);
    assert_eq!(oracle_diags, 1);

    let limiter = ProbeLimiter::with_limit(usize::MAX);
    let scanned = limiter.counter();
    let mut input = probe_verbose(SRC, limiter, 3);
    let drained = {
        let mut inp = input.as_ref();
        let _ = inp.peek(1).unwrap();
        assert_eq!(scanned.get(), 1, "peek(1) scans `T` exactly once");
        let ckp = inp.save();
        let before_consume = scanned.get();
        let consumed = inp.next().unwrap().expect("consume `T` from cache");
        assert_eq!(*consumed.span_ref(), SimpleSpan::new(0, 1));
        assert_eq!(scanned.get(), before_consume, "consuming `T` from cache re-scans nothing");
        inp.restore(ckp);
        let before_replay = scanned.get();
        let replayed = inp.next().unwrap().expect("re-lex `T`");
        assert_eq!(*replayed.span_ref(), SimpleSpan::new(0, 1));
        assert_eq!(scanned.get(), before_replay + 1, "re-lexing `T` is exactly one additional scan");
        let mut toks = vec![*replayed.span_ref()];
        toks.extend(drain_spans(&mut inp));
        toks
    };
    assert_eq!(drained, oracle_spans);
    assert_eq!(scanned.get(), oracle_scans + 1);
    assert_eq!(input.emitter().error_count(), oracle_diags);

    let mut input = Input::<BalLexer>::with_state_and_context(SRC, TokenLimiter::with_limitation(3), bal_ctx(Emitter::verbose()));
    let drained = {
        let mut inp = input.as_ref();
        let _ = inp.peek(1).unwrap();
        let ckp = inp.save();
        let _ = inp.next().unwrap().expect("consume `T` from cache");
        inp.restore(ckp);
        let toks = drain_spans(&mut inp);
        assert!(!inp.is_poisoned(), "the restored by-value limiter recounts the replay identically");
        assert_eq!(inp.state().tokens(), 3, "the replay counts exactly the single-pass token total");
        toks
    };
    assert_eq!(drained, vec![SimpleSpan::new(0, 1), SimpleSpan::new(4, 5), SimpleSpan::new(6, 7)]);
    assert_eq!(input.emitter().error_count(), 1);
}

#[test]
fn consume_all_cached_then_restore_replays_faithfully() {
    let mut input = Input::<BalLexer>::with_state_and_context("1 @ 2 3 4 5", TokenLimiter::with_limitation(5), bal_ctx(Emitter::verbose()));
    let drained = {
        let mut inp = input.as_ref();
        let _ = inp.peek(3).unwrap();
        let ckp = inp.save();
        let last = inp.consume_all_cached().expect("consume the cached run");
        assert_eq!(*last.span_ref(), SimpleSpan::new(6, 7), "the last cached token (`3`) comes back");
        inp.restore(ckp);
        let toks = drain_spans(&mut inp);
        assert!(!inp.is_poisoned());
        assert_eq!(inp.state().tokens(), 5);
        toks
    };
    assert_eq!(
        drained,
        vec![SimpleSpan::new(0, 1), SimpleSpan::new(4, 5), SimpleSpan::new(6, 7), SimpleSpan::new(8, 9), SimpleSpan::new(10, 11)]
    );
    assert_eq!(input.emitter().error_count(), 1, "the `@` error is emitted exactly once");
}

#[test]
fn restore_before_overflow_trip_reemits_limit_diagnostic_exactly_once() {
    let mut input = probe_verbose("1 2 3 4 5 6", ProbeLimiter::with_limit(5), 3);
    {
        let mut inp = input.as_ref();
        let ckp = inp.save();
        let _ = inp.peek(6).unwrap();
        assert!(inp.is_poisoned(), "the overflow trip must latch poison");
        inp.restore(ckp);
        assert!(!inp.is_poisoned(), "restoring a clean checkpoint un-latches the speculative poison");
        while inp.next().unwrap().is_some() {}
        assert!(inp.is_poisoned(), "the committed re-lex re-latches poison");
    }
    assert_eq!(input.emitter().error_count(), 1, "the limit diagnostic is reported exactly once");
}

#[test]
fn overflow_trip_peek_save_drain_restore_replays_prefix_and_stops_at_boundary() {
    let mut input = Input::<BalLexer>::with_state_and_context("1 2 3 4 5 6", TokenLimiter::with_limitation(5), bal_ctx(Emitter::verbose()));
    {
        let mut inp = input.as_ref();
        assert_eq!(inp.peek(6).unwrap().len(), 3, "the overflow trip truncates the peek to the cache-resident prefix");
        assert!(inp.is_poisoned(), "the overflow trip latches the poison boundary");
        let ckp = inp.save();
        assert_eq!(*inp.next().unwrap().expect("drain 1").span_ref(), SimpleSpan::new(0, 1));
        assert_eq!(*inp.next().unwrap().expect("drain 2").span_ref(), SimpleSpan::new(2, 3));
        assert_eq!(*inp.next().unwrap().expect("drain 3").span_ref(), SimpleSpan::new(4, 5));
        assert!(inp.next().unwrap().is_none(), "the drain stops at the boundary");
        inp.restore(ckp);
        assert!(inp.is_poisoned(), "the boundary survives the restore");
        assert_eq!(*inp.next().unwrap().expect("replay 1").span_ref(), SimpleSpan::new(0, 1));
        assert_eq!(*inp.next().unwrap().expect("replay 2").span_ref(), SimpleSpan::new(2, 3));
        assert_eq!(*inp.next().unwrap().expect("replay 3").span_ref(), SimpleSpan::new(4, 5));
        assert!(inp.next().unwrap().is_none(), "the replay stops at the boundary");
        assert_eq!(inp.state().tokens(), 3, "the replay scanned exactly the prefix");
    }
    assert_eq!(input.emitter().error_count(), 1, "the limit diagnostic is reported exactly once");
}

#[test]
fn sync_through_then_peek_trip_after_skips_commits_the_diagnosed_prefix() {
    let mut input = Input::<BalLexer>::with_state_and_context("1 2 3 4 5 6", TokenLimiter::with_limitation(2), bal_ctx(Emitter::verbose()));
    {
        let mut inp = input.as_ref();
        let (matched, peeked) = inp.sync_through_then_peek(|_| false, || None, 1).unwrap();
        assert!(matched.is_none(), "the trip yields no matched token");
        assert!(peeked.is_empty(), "the trip yields an empty peek");
        assert!(inp.is_poisoned());
        assert_eq!(inp.span(), &SimpleSpan::new(2, 3), "committed at the end of the last diagnosed token");
        assert_eq!(inp.state().tokens(), 2);
        assert!(inp.next().unwrap().is_none(), "next() stops at the committed boundary");
        assert_eq!(inp.state().tokens(), 2);
    }
    assert_eq!(count_err(input.emitter(), &ByValErr::Lex), 2, "each skipped token is diagnosed once");
    assert_eq!(count_err(input.emitter(), &ByValErr::Limit), 1, "the trip is diagnosed once");
}

#[test]
fn widen_then_drain_holds_the_by_value_limit() {
    let mut input = Input::<BalLexer>::with_state_and_context("1 2 3 4 5 6 7", TokenLimiter::with_limitation(2), bal_ctx(Emitter::verbose()));
    let mut consumed = 0usize;
    {
        let mut inp = input.as_ref();
        assert_eq!(inp.peek(1).map(|w| w.len()), Ok(1), "U1 fill");
        assert_eq!(inp.peek(2).map(|w| w.len()), Ok(2), "U2 fill");
        assert_eq!(inp.peek(3).map(|w| w.len()), Ok(2), "the third token trips the limit");
        while inp.next().unwrap().is_some() {
            consumed += 1;
        }
        assert_eq!(inp.peek(1).map(|w| w.len()), Ok(0), "the latched boundary empties every later fill");
        assert!(inp.next().unwrap().is_none());
    }
    assert_eq!(consumed, 2);
    assert_eq!(count_err(input.emitter(), &ByValErr::Limit), 1);
}

#[test]
fn failed_sync_through_then_peek_leaves_no_diagnostics_and_position() {
    let mut input = bal_input("1 2 3", usize::MAX);
    let drained = {
        let mut inp = input.as_ref();
        assert_eq!(inp.span(), &SimpleSpan::new(0, 0));
        assert_eq!(inp.state().tokens(), 0);
        let (matched, peeked) = inp.sync_through_then_peek(|_| false, || None, 1).unwrap();
        assert!(matched.is_none());
        assert!(peeked.is_empty());
        assert_eq!(inp.span(), &SimpleSpan::new(0, 0), "the failed peek-sync commits no progress");
        assert_eq!(inp.state().tokens(), 0);
        drain_spans(&mut inp)
    };
    assert_eq!(drained, vec![SimpleSpan::new(0, 1), SimpleSpan::new(2, 3), SimpleSpan::new(4, 5)]);
    assert_eq!(input.emitter().error_count(), 0, "a failed sync_through_then_peek leaves no diagnostics");
}

#[test]
fn failed_sync_through_then_peek_reemits_crossed_lexer_error_once() {
    let mut input = probe_verbose("1 @ 2", ProbeLimiter::with_limit(usize::MAX), 3);
    {
        let mut inp = input.as_ref();
        let (matched, peeked) = inp.sync_through_then_peek(|_| false, || None, 1).unwrap();
        assert!(matched.is_none());
        assert!(peeked.is_empty());
        while inp.next().unwrap().is_some() {}
    }
    assert_eq!(input.emitter().errors_at(SimpleSpan::new(2, 3)), 1);
    assert_eq!(input.emitter().error_count(), 1);
}

#[test]
fn successful_sync_through_then_peek_retains_skipped_token_diagnostics() {
    let mut input = bal_input("1 2 3", usize::MAX);
    {
        let mut inp = input.as_ref();
        let mut seen = 0;
        let (matched, peeked) = inp
            .sync_through_then_peek(
                |_| {
                    seen += 1;
                    seen == 3
                },
                || None,
                1,
            )
            .unwrap();
        assert_eq!(matched.map(|t| *t.span_ref()), Some(SimpleSpan::new(4, 5)));
        assert!(peeked.is_empty(), "`3` is the last token");
        assert_eq!(inp.span(), &SimpleSpan::new(4, 5));
    }
    assert_eq!(input.emitter().error_count(), 2);
}

#[test]
fn failed_sync_through_with_prefilled_cache_leaves_no_trace() {
    let mut input = bal_input("1 2 3", usize::MAX);
    let drained = {
        let mut inp = input.as_ref();
        let _ = inp.peek(3).unwrap();
        let pre_span = *inp.span();
        let pre_tokens = inp.state().tokens();
        let pre_cursor = *inp.cursor().as_inner();
        assert_eq!(pre_span, SimpleSpan::new(0, 0));
        assert_eq!(pre_tokens, 0);
        assert_eq!(pre_cursor, 0, "pre-call cursor sits at the cache front");
        assert!(inp.sync_through(|_| false, || None).unwrap().is_none());
        assert_eq!(*inp.span(), pre_span);
        assert_eq!(inp.state().tokens(), pre_tokens);
        assert_eq!(*inp.cursor().as_inner(), pre_cursor);
        drain_spans(&mut inp)
    };
    assert_eq!(drained, vec![SimpleSpan::new(0, 1), SimpleSpan::new(2, 3), SimpleSpan::new(4, 5)]);
    assert_eq!(input.emitter().error_count(), 0);
}

#[test]
fn failed_sync_through_then_peek_with_prefilled_cache_leaves_no_trace() {
    let mut input = bal_input("1 2 3", usize::MAX);
    let drained = {
        let mut inp = input.as_ref();
        let _ = inp.peek(3).unwrap();
        let pre_span = *inp.span();
        let pre_tokens = inp.state().tokens();
        let pre_cursor = *inp.cursor().as_inner();
        assert_eq!(pre_cursor, 0);
        let (matched, peeked) = inp.sync_through_then_peek(|_| false, || None, 1).unwrap();
        assert!(matched.is_none());
        assert!(peeked.is_empty());
        assert_eq!(*inp.span(), pre_span);
        assert_eq!(inp.state().tokens(), pre_tokens);
        assert_eq!(*inp.cursor().as_inner(), pre_cursor);
        drain_spans(&mut inp)
    };
    assert_eq!(drained, vec![SimpleSpan::new(0, 1), SimpleSpan::new(2, 3), SimpleSpan::new(4, 5)]);
    assert_eq!(input.emitter().error_count(), 0);
}

#[test]
fn successful_sync_through_after_cache_drain_commits_and_persists() {
    let mut input = bal_input("1 2 3", usize::MAX);
    {
        let mut inp = input.as_ref();
        let _ = inp.peek(1).unwrap();
        let mut seen = 0;
        let matched = inp
            .sync_through(
                |_| {
                    seen += 1;
                    seen == 3
                },
                || None,
            )
            .unwrap();
        assert_eq!(matched.map(|t| *t.span_ref()), Some(SimpleSpan::new(4, 5)));
        assert_eq!(inp.span(), &SimpleSpan::new(4, 5));
        assert_eq!(inp.state().tokens(), 3);
    }
    assert_eq!(input.emitter().error_count(), 2);
}

#[test]
fn sync_through_over_a_prefilled_cache_evaluates_the_predicate_once() {
    let mut input = bal_input("1 2 3 4 5", usize::MAX);
    let rest = {
        let mut inp = input.as_ref();
        let _ = inp.peek(3).unwrap();
        let mut calls = 0usize;
        let matched = inp
            .sync_through(
                |_| {
                    calls += 1;
                    calls == 2
                },
                || None,
            )
            .unwrap();
        assert_eq!(matched.map(|t| *t.span_ref()), Some(SimpleSpan::new(2, 3)));
        assert_eq!(calls, 2, "each examined token is tested once");
        assert_eq!(inp.span(), &SimpleSpan::new(2, 3));
        assert_eq!(*inp.cursor().as_inner(), 4, "the cursor sits at the token after the match");
        drain_spans(&mut inp)
    };
    assert_eq!(rest, vec![SimpleSpan::new(4, 5), SimpleSpan::new(6, 7), SimpleSpan::new(8, 9)]);
    assert_eq!(input.emitter().error_count(), 1);
}

#[test]
fn sync_through_then_peek_over_a_prefilled_cache_evaluates_the_predicate_once() {
    let mut input = bal_input("1 2 3 4 5", usize::MAX);
    {
        let mut inp = input.as_ref();
        let _ = inp.peek(3).unwrap();
        let mut calls = 0usize;
        let (matched, peeked) = inp
            .sync_through_then_peek(
                |_| {
                    calls += 1;
                    calls == 2
                },
                || None,
                2,
            )
            .unwrap();
        assert_eq!(matched.map(|t| *t.span_ref()), Some(SimpleSpan::new(2, 3)));
        assert_eq!(calls, 2);
        assert_eq!(peeked.len(), 2, "the window is filled from after the match");
        assert_eq!(*peeked[0].span_ref(), SimpleSpan::new(4, 5));
        assert_eq!(*peeked[1].span_ref(), SimpleSpan::new(6, 7));
        assert_eq!(inp.span(), &SimpleSpan::new(2, 3));
    }
    assert_eq!(input.emitter().error_count(), 1);
}

#[test]
fn sync_through_never_scans_past_a_cached_match() {
    let mut input = bal_input("1 2 3 4 5", usize::MAX);
    let rest = {
        let mut inp = input.as_ref();
        let _ = inp.peek(3).unwrap();
        let mut calls = 0usize;
        let matched = inp
            .sync_through(
                |_| {
                    calls += 1;
                    calls == 2 || calls == 4
                },
                || None,
            )
            .unwrap();
        assert_eq!(matched.map(|t| *t.span_ref()), Some(SimpleSpan::new(2, 3)));
        assert_eq!(calls, 2, "the scan stopped at the cached match");
        assert_eq!(inp.span(), &SimpleSpan::new(2, 3));
        drain_spans(&mut inp)
    };
    assert_eq!(rest, vec![SimpleSpan::new(4, 5), SimpleSpan::new(6, 7), SimpleSpan::new(8, 9)]);
    assert_eq!(input.emitter().error_count(), 1);
}

#[test]
fn sync_to_returning_a_cached_match_is_not_a_cache_push() {
    let mut input = bal_input("; 1 2 3", usize::MAX);
    let drained = {
        let mut inp = input.as_ref();
        let _ = inp.peek(3).unwrap();
        assert_eq!(inp.cache().len(), 3);
        let ckp = inp.save();
        let matched = inp.sync_to(|t| matches!(t.data(), BalTok::Semi), || None).unwrap().map(|t| *t.span_ref());
        assert_eq!(matched, Some(SimpleSpan::new(0, 1)));
        inp.restore(ckp);
        assert_eq!(inp.cache().len(), 3, "a rollback over a put-back match keeps the whole prefetch");
        assert_eq!(inp.offset(), 5, "the lex frontier still ends at the last prefetched token");
        drain_spans(&mut inp)
    };
    assert_eq!(drained, vec![SimpleSpan::new(0, 1), SimpleSpan::new(2, 3), SimpleSpan::new(4, 5), SimpleSpan::new(6, 7)]);
}

#[test]
fn failed_sync_through_with_prefilled_cache_reemits_crossed_error_once() {
    let mut input = probe_verbose("1 @ 2 3", ProbeLimiter::with_limit(usize::MAX), 3);
    let drained = {
        let mut inp = input.as_ref();
        let _ = inp.peek(1).unwrap();
        assert!(inp.sync_through(|_| false, || None).unwrap().is_none());
        drain_spans(&mut inp)
    };
    assert_eq!(drained, vec![SimpleSpan::new(0, 1), SimpleSpan::new(4, 5), SimpleSpan::new(6, 7)]);
    assert_eq!(input.emitter().errors_at(SimpleSpan::new(2, 3)), 1);
    assert_eq!(input.emitter().error_count(), 1);
}

#[test]
fn attempt_backtrack_over_trip_reemits_diagnostic_exactly_once() {
    let mut input = Input::<BalLexer>::with_state_and_context("1 2 3 4 5 6", TokenLimiter::with_limitation(5), bal_ctx(Emitter::verbose()));
    {
        let mut inp = input.as_ref();
        let outcome = inp.attempt(|inp| {
            let _ = inp.peek(6);
            None::<()>
        });
        assert!(outcome.is_none());
        assert!(!inp.is_poisoned(), "the rollback un-poisons");
        while inp.next().unwrap().is_some() {}
        assert!(inp.is_poisoned(), "the committed re-lex re-latches poison");
    }
    assert_eq!(input.emitter().error_count(), 1, "the limit diagnostic is emitted exactly once in total");
    assert_eq!(count_err(input.emitter(), &ByValErr::Limit), 1, "and it is the limit diagnostic");
}

#[test]
fn property_random_lifo_scripts_stay_faithful_and_bounded() {
    const SRC: &str = "1 @ 2 3 @ 4";
    let oracle_tokens: Vec<SimpleSpan> = {
        let mut input = probe_verbose(SRC, ProbeLimiter::with_limit(usize::MAX), 3);
        let mut inp = input.as_ref();
        drain_spans(&mut inp)
    };
    let oracle_next = |off: usize| -> Option<SimpleSpan> { oracle_tokens.iter().copied().find(|s| s.start >= off) };
    let oracle_diags: Vec<SimpleSpan> = vec![SimpleSpan::new(2, 3), SimpleSpan::new(8, 9)];

    let mut rng: u64 = 0x0123_4567_89ab_cdef;
    let roll = |rng: &mut u64| -> u64 {
        *rng = rng.wrapping_mul(6364136223846793005).wrapping_add(1442695040888963407);
        *rng >> 33
    };

    for _script in 0..200u32 {
        let limiter = ProbeLimiter::with_limit(usize::MAX);
        let scanned = limiter.counter();
        let mut input = probe_verbose(SRC, limiter, 3);
        let num_ops = 8 + (roll(&mut rng) % 12) as usize;
        {
            let mut inp = input.as_ref();
            let mut live: Vec<(tokora::input::Checkpoint<ProbeLimiter>, usize)> = Vec::new();
            for _ in 0..num_ops {
                match roll(&mut rng) % 6 {
                    0 => {
                        let off = *inp.cursor().as_inner();
                        live.push((inp.save(), off));
                    }
                    1 => {
                        let k = 1 + (roll(&mut rng) % 3) as usize;
                        for _ in 0..k {
                            if inp.next().unwrap().is_none() {
                                break;
                            }
                        }
                    }
                    2 => {
                        let w = 1 + (roll(&mut rng) % 3) as usize;
                        let _ = inp.peek(w).unwrap();
                    }
                    3 => {
                        if let Some((ckp, off)) = live.pop() {
                            inp.restore(ckp);
                            let got = inp.next().unwrap().map(|t| *t.span_ref());
                            assert_eq!(got, oracle_next(off), "after a restore to offset {off}, the next token matches a fresh parse");
                        }
                    }
                    4 => {
                        let _ = inp.peek(1).unwrap();
                        let off = *inp.cursor().as_inner();
                        live.push((inp.save(), off));
                        let _ = inp.peek(3).unwrap();
                    }
                    _ => {
                        let _ = inp.peek(1).unwrap();
                        let off = *inp.cursor().as_inner();
                        let outer = inp.save();
                        let inner = inp.save();
                        let _ = inp.peek(3).unwrap();
                        inp.restore(inner);
                        inp.restore(outer);
                        assert_eq!(
                            inp.next().unwrap().map(|t| *t.span_ref()),
                            oracle_next(off),
                            "a nested restore retains the pre-save cache entry"
                        );
                    }
                }
            }
            drop(live);
            while inp.next().unwrap().is_some() {}
        }

        let budget = (num_ops + 1) * (oracle_tokens.len() + oracle_diags.len()) * 8;
        assert!(scanned.get() <= budget, "scans {} exceeded the linear budget {budget}", scanned.get());

        let spans = error_spans(input.emitter());
        for span in &spans {
            assert_eq!(spans.iter().filter(|s| *s == span).count(), 1, "diagnostic span {span:?} retained more than once");
            assert!(oracle_diags.contains(span), "retained an unexpected diagnostic span {span:?}");
        }
        for diag in &oracle_diags {
            assert_eq!(input.emitter().errors_at(*diag), 1, "the error at {diag:?} is retained exactly once");
        }
    }
}

#[test]
fn try_attempt_err_rolls_back_everything() {
    {
        let mut input = bal_input("1 @ 2", usize::MAX);
        {
            let mut inp = input.as_ref();
            let cur0 = *inp.cursor().as_inner();
            let span0 = *inp.span();
            let tokens0 = inp.state().tokens();
            let out: Result<(), ()> = inp.try_attempt(|inp| {
                while inp.next().unwrap().is_some() {}
                Err(())
            });
            assert_eq!(out, Err(()));
            assert_eq!(*inp.cursor().as_inner(), cur0, "position rolled back");
            assert_eq!(*inp.span(), span0, "last-consumed span rolled back");
            assert_eq!(inp.state().tokens(), tokens0, "lexer state rolled back");
        }
        assert_eq!(input.emitter().error_count(), 0, "diagnostics emitted inside the attempt are rolled back");
        {
            let mut inp = input.as_ref();
            while inp.next().unwrap().is_some() {}
        }
        assert_eq!(input.emitter().errors_at(SimpleSpan::new(2, 3)), 1);
        assert_eq!(input.emitter().error_count(), 1);
    }
    {
        let mut input = Input::<BalLexer>::with_state_and_context("1 2 3 4 5 6", TokenLimiter::with_limitation(5), bal_ctx(Emitter::verbose()));
        {
            let mut inp = input.as_ref();
            let out: Result<(), ()> = inp.try_attempt(|inp| {
                let _ = inp.peek(6).unwrap();
                Err(())
            });
            assert_eq!(out, Err(()));
            assert!(!inp.is_poisoned(), "the Err rollback un-latches the speculative poison boundary");
            while inp.next().unwrap().is_some() {}
            assert!(inp.is_poisoned(), "the committed re-lex re-latches poison");
        }
        assert_eq!(input.emitter().error_count(), 1);
    }
}

#[test]
fn set_state_clears_stale_cache() {
    let limiter = ProbeLimiter::with_limit(usize::MAX);
    let scanned = limiter.counter();
    let mut input = Input::<PLexer>::with_state_and_context("1 2 3 4", limiter, probe_ctx(Emitter::silent()));
    let mut inp = input.as_ref();
    let _ = inp.peek(3).unwrap();
    assert_eq!(scanned.get(), 3);
    inp.set_state(ProbeLimiter { scanned: scanned.clone(), limit: usize::MAX });
    assert!(inp.cache().is_empty(), "state replacement clears the token cache");
    let before = scanned.get();
    let tok = inp.next().unwrap().expect("re-lexed token");
    assert_eq!(*tok.span_ref(), SimpleSpan::new(0, 1));
    assert_eq!(scanned.get(), before + 1, "the token was re-scanned under the new state");
}

#[test]
fn dedup_watermark_survives_a_reborrow_of_one_input() {
    let mut input = probe_verbose("1 @ 2 3", ProbeLimiter::with_limit(usize::MAX), 1);
    {
        let mut inp = input.as_ref();
        let _ = inp.peek(2).unwrap();
    }
    let at = SimpleSpan::new(2, 3);
    assert_eq!(input.emitter().errors_at(at), 1, "the peek's scan crossed `@` and reported it once");
    {
        let mut inp = input.as_ref();
        while inp.next().unwrap().is_some() {}
    }
    assert_eq!(input.emitter().errors_at(at), 1, "the `@` lexer error is reported exactly once across the re-borrow");
    assert_eq!(input.emitter().error_count(), 1);
}

#[test]
fn set_state_resets_watermark_to_cursor() {
    let mut input = probe_verbose("1 @ 2 3", ProbeLimiter::with_limit(usize::MAX), 3);
    {
        let mut inp = input.as_ref();
        let _ = inp.peek(2).unwrap();
        inp.set_state(ProbeLimiter::with_limit(usize::MAX));
        while inp.next().unwrap().is_some() {}
    }
    assert_eq!(input.emitter().error_count(), 2, "the `@` lexer error reports once per regime");
}

#[test]
fn sync_balanced_finds_sync_point_in_prefilled_cache() {
    let mut input = bal_input("1 ;", usize::MAX);
    {
        let mut inp = input.as_ref();
        drop(inp.peek(2).unwrap());
        let hole = inp
            .sync_balanced(parens, |t| matches!(t.data(), BalTok::Semi))
            .unwrap()
            .expect("the cached `;` is the sync point");
        assert_eq!(hole.span(), SimpleSpan::new(0, 1), "the hole covers `1`");
        assert_eq!(hole.skipped(), 1);
        assert_eq!(inp.span(), &SimpleSpan::new(0, 1), "committed at `1`");
        let next = inp.next().unwrap().expect("the cached sync token is next");
        assert!(matches!(next.data(), BalTok::Semi));
        assert_eq!(*next.span_ref(), SimpleSpan::new(2, 3));
    }
    assert_eq!(input.emitter().skipped_count(), 1, "exactly one hole for the drained prefix");
    assert_eq!(input.emitter().error_count(), 0, "no per-token diagnostics for the drained prefix");
}

#[test]
fn failed_sync_balanced_with_prefilled_cache_leaves_no_trace() {
    let mut input = bal_input("1 2 3", usize::MAX);
    {
        let mut inp = input.as_ref();
        drop(inp.peek(2).unwrap());
        assert!(inp.sync_balanced(parens, |t| matches!(t.data(), BalTok::Semi)).unwrap().is_none());
        assert_eq!(inp.span(), &SimpleSpan::new(0, 0), "the drained cache prefix is rewound with the rest");
        assert_eq!(drain_spans(&mut inp), vec![SimpleSpan::new(0, 1), SimpleSpan::new(2, 3), SimpleSpan::new(4, 5)]);
    }
    assert_eq!(input.emitter().skipped_count(), 0, "a failed hole is never reported");
}

#[test]
fn widening_peek_does_not_resume_under_stale_state() {
    let mut input = Input::<BalLexer>::with_state_and_context("1 2 3 4 5 6 7", TokenLimiter::with_limitation(2), bal_ctx(Emitter::verbose()));
    let consumed = {
        let mut inp = input.as_ref();
        assert_eq!(inp.peek(1).unwrap().len(), 1);
        assert_eq!(inp.cache().back().unwrap().state().tokens(), 1);
        assert_eq!(inp.peek(2).unwrap().len(), 2);
        assert_eq!(inp.cache().back().unwrap().state().tokens(), 2);
        assert_eq!(inp.peek(3).unwrap().len(), 2, "the third token trips the limit");
        assert_eq!(inp.cache().back().unwrap().state().tokens(), 2);
        let mut consumed = 0usize;
        while inp.next().unwrap().is_some() {
            consumed += 1;
        }
        consumed
    };
    assert_eq!(consumed, 2);
    assert_eq!(count_err(input.emitter(), &ByValErr::Limit), 1);
}

#[test]
fn resume_frontier_pairs_state_with_offset() {
    let mut input = Input::<BalLexer>::with_state_and_context("1 2 3", TokenLimiter::new(), bal_ctx(Emitter::verbose()));
    let mut inp = input.as_ref();
    assert_eq!(inp.peek(1).unwrap().len(), 1);
    assert_eq!(inp.cache().back().unwrap().state().tokens(), 1);
    assert_eq!(inp.peek(2).unwrap().len(), 2);
    assert_eq!(inp.cache().back().unwrap().state().tokens(), 2);
    assert_eq!(inp.peek(3).unwrap().len(), 3);
    assert_eq!(inp.cache().back().unwrap().state().tokens(), 3);
    assert_eq!(inp.state().tokens(), 0, "a peek consumes nothing");
    assert_eq!(inp.offset(), 5, "the resume offset is the newest retained token's end");
}

#[test]
fn a_window_wider_than_the_cache_overflows_without_caching() {
    let limiter = ProbeLimiter::with_limit(usize::MAX);
    let mut input = probe_verbose("1 2 3 4 5", limiter, 2);
    let mut inp = input.as_ref();
    let w = inp.peek(4).unwrap();
    assert_eq!(w.iter().map(|t| *t.span_ref()).collect::<Vec<_>>(), vec![SimpleSpan::new(0, 1), SimpleSpan::new(2, 3), SimpleSpan::new(4, 5), SimpleSpan::new(6, 7)]);
    assert_eq!(inp.cache().len(), 2, "only the cache's capacity is retained");
    assert_eq!(inp.offset(), 3);
    assert_eq!(inp.peek(9).unwrap().len(), 5, "the overflow stops at the end of the input");
}

#[test]
fn a_zero_capacity_cache_overflows_every_peek() {
    let mut input = probe_verbose("1 2", ProbeLimiter::with_limit(usize::MAX), 0);
    let mut inp = input.as_ref();
    assert_eq!(inp.peek(1).unwrap().len(), 1);
    assert!(inp.cache().is_empty());
    assert_eq!(drain_spans(&mut inp), vec![SimpleSpan::new(0, 1), SimpleSpan::new(2, 3)]);
}

#[test]
fn consume_all_cached_on_an_empty_cache_changes_nothing() {
    let mut input = bal_input("1 2", usize::MAX);
    let mut inp = input.as_ref();
    assert!(inp.consume_all_cached().is_none());
    assert_eq!(inp.span(), &SimpleSpan::new(0, 0));
    let _ = inp.peek(2).unwrap();
    assert_eq!(inp.consume_all_cached().map(|t| *t.span_ref()), Some(SimpleSpan::new(2, 3)));
    assert_eq!(inp.state().tokens(), 2);
    assert!(inp.next().unwrap().is_none());
}

#[test]
fn a_raw_save_pins_nothing_and_a_settled_attempt_leaves_no_pin() {
    let mut input = bal_input("1 2", usize::MAX);
    {
        let mut inp = input.as_ref();
        let _ckp = inp.save();
        let got = inp.attempt(|inp| inp.next().unwrap());
        assert_eq!(got.map(|t| *t.span_ref()), Some(SimpleSpan::new(0, 1)));
    }
    assert_eq!(input.pinned_checkpoints_len(), 0, "a raw save pins nothing");
}

#[test]
fn into_emitter_hands_over_the_log() {
    let mut input = bal_input("1 @", usize::MAX);
    {
        let mut inp = input.as_ref();
        while inp.next().unwrap().is_some() {}
    }
    let emitter = input.into_emitter();
    assert_eq!(emitter.error_count(), 1);
    assert_eq!(emitter.errors_at(SimpleSpan::new(2, 3)), 1);
}

#[test]
fn a_read_reports_the_lexer_errors_before_its_token_in_source_order() {
    let mut input = bal_input("@ # 1 @", usize::MAX);
    let mut inp = input.as_ref();
    assert_eq!(*inp.next().unwrap().unwrap().span_ref(), SimpleSpan::new(4, 5));
    assert_eq!(error_spans(inp.emitter()), vec![SimpleSpan::new(0, 1), SimpleSpan::new(2, 3)]);
    assert!(inp.next().unwrap().is_none());
    assert_eq!(error_spans(inp.emitter()), vec![SimpleSpan::new(0, 1), SimpleSpan::new(2, 3), SimpleSpan::new(6, 7)]);
}

#[test]
fn a_sync_reports_each_skipped_token_after_the_lexer_errors_before_it() {
    let mut input = bal_input("1 @ 2 ; 3", usize::MAX);
    let mut inp = input.as_ref();
    let t = inp.sync_to(|t| matches!(t.data(), BalTok::Semi), || None).unwrap();
    assert_eq!(t.map(|t| *t.span_ref()), Some(SimpleSpan::new(6, 7)));
    assert_eq!(
        error_spans(inp.emitter()),
        vec![SimpleSpan::new(0, 1), SimpleSpan::new(2, 3), SimpleSpan::new(4, 5)],
        "`1` reported, then `@` crossed, then `2` reported"
    );
    assert_eq!(inp.span(), &SimpleSpan::new(4, 5), "committed through the skipped prefix");
}

#[test]
fn a_balanced_sync_reports_one_hole_after_the_crossed_lexer_errors() {
    let mut input = bal_input("1 @ ( ; ) ; 2", usize::MAX);
    let mut inp = input.as_ref();
    let hole = inp.sync_balanced(parens, |t| matches!(t.data(), BalTok::Semi)).unwrap().expect("a sync point");
    assert_eq!(hole.skipped(), 4);
    assert_eq!(hole.span(), SimpleSpan::new(0, 9));
    let log = inp.emitter().log();
    assert_eq!(log.len(), 2);
    assert!(matches!(log[0], Emission::Error { span, .. } if span == SimpleSpan::new(2, 3)));
    assert!(matches!(log[1], Emission::Skipped { span, count: 4 } if span == SimpleSpan::new(0, 9)));
}

/// The peek call patterns a lookahead-equivalence check compares.
#[derive(Clone, Copy, Debug)]
enum Lookahead {
    /// No lookahead at all.
    Absent,
    /// One three-deep peek.
    Wide,
    /// A widening sequence of peeks.
    Widening,
}

/// The observables of a full drain under `pattern`: the consumed spans, the final committed
/// tally, and the diagnostics, in order.
fn drain_under_lookahead(src: &'static str, limit: usize, pattern: Lookahead) -> (Vec<SimpleSpan>, usize, Vec<ByValErr>) {
    let mut input = Input::<BalLexer>::with_state_and_context(src, TokenLimiter::with_limitation(limit), bal_ctx(Emitter::verbose()));
    let (spans, tokens) = {
        let mut inp = input.as_ref();
        match pattern {
            Lookahead::Absent => {}
            Lookahead::Wide => {
                let _ = inp.peek(3).unwrap();
            }
            Lookahead::Widening => {
                let _ = inp.peek(1).unwrap();
                let _ = inp.peek(2).unwrap();
                let _ = inp.peek(3).unwrap();
            }
        }
        let mut spans = Vec::new();
        while let Some(tok) = inp.next().unwrap() {
            spans.push(*tok.span_ref());
        }
        (spans, inp.state().tokens())
    };
    let diagnostics = input
        .emitter()
        .log()
        .iter()
        .filter_map(|x| match x {
            Emission::Error { error, .. } => Some(error.clone()),
            _ => None,
        })
        .collect();
    (spans, tokens, diagnostics)
}

#[test]
fn lookahead_equivalence_over_call_patterns() {
    let none = drain_under_lookahead("1 2 3 4 5 6 7", 2, Lookahead::Absent);
    let wide = drain_under_lookahead("1 2 3 4 5 6 7", 2, Lookahead::Wide);
    let widening = drain_under_lookahead("1 2 3 4 5 6 7", 2, Lookahead::Widening);
    assert_eq!(none, wide, "one wide peek before the drain must not change what the drain observes");
    assert_eq!(none, widening, "a widening peek sequence before the drain must not change what the drain observes");
    assert_eq!(none.0.len(), 2, "the two-token limit is what bounds every one of the three programs");
}

/// The synchronization entry points a cache-transparency check drives.
#[derive(Clone, Copy, Debug)]
enum SyncEntry {
    To,
    Through,
    ThroughThenPeek,
    Balanced,
    SkipWhile,
}

/// What a caller can observe after calling `entry` on `src` (behind a limit of `limit`) with
/// `prefill` tokens peeked first: the normalized return value, the committed span and tally,
/// and then, after draining the rest, the tokens that came out, whether the input ended
/// poisoned, and the spans of every recorded diagnostic, sorted.
fn observe_sync(src: &'static str, limit: usize, entry: SyncEntry, prefill: usize) -> (String, SimpleSpan, usize, Vec<SimpleSpan>, bool, Vec<SimpleSpan>) {
    let mut input = bal_input(src, limit);
    let (ret, span, tokens, replay, poisoned) = {
        let mut inp = input.as_ref();
        if prefill > 0 {
            let _ = inp.peek(prefill);
        }
        let semi = |t: &Spanned<BalTok>| matches!(t.data(), BalTok::Semi);
        let ret = match entry {
            SyncEntry::To => format!("{:?}", inp.sync_to(semi, || None).map(|m| m.map(|t| (*t.span_ref(), t.data().clone())))),
            SyncEntry::Through => format!("{:?}", inp.sync_through(semi, || None).map(|m| m.map(|t| (*t.span_ref(), t.data().clone())))),
            SyncEntry::ThroughThenPeek => format!(
                "{:?}",
                inp.sync_through_then_peek(semi, || None, 2).map(|(m, w)| (m.map(|t| *t.span_ref()), w.iter().map(|t| *t.span_ref()).collect::<Vec<_>>()))
            ),
            SyncEntry::Balanced => format!("{:?}", inp.sync_balanced(parens, semi).map(|h| h.map(|h| (h.span(), h.skipped())))),
            SyncEntry::SkipWhile => format!("{:?}", inp.skip_while(|t| !matches!(t.data(), BalTok::Semi))),
        };
        let span = *inp.span();
        let tokens = inp.state().tokens();
        let mut replay = Vec::new();
        while let Ok(Some(t)) = inp.next() {
            replay.push(*t.span_ref());
        }
        (ret, span, tokens, replay, inp.is_poisoned())
    };
    let mut errors = error_spans(input.emitter());
    errors.sort_by_key(|s| (s.start, s.end));
    (ret, span, tokens, replay, poisoned, errors)
}

#[test]
fn synchronization_is_cache_transparent() {
    let cells: [(&'static str, usize); 8] = [
        ("1 2 ; 3", usize::MAX),
        ("; 1", usize::MAX),
        ("1 2 3", usize::MAX),
        ("1 @ 2 ; 3", usize::MAX),
        ("( 1 ; ) ; 2", usize::MAX),
        ("1 ( 2 ; 3", usize::MAX),
        ("1 2 3 ; 4", 2),
        ("", usize::MAX),
    ];
    let entries = [SyncEntry::To, SyncEntry::Through, SyncEntry::ThroughThenPeek, SyncEntry::Balanced, SyncEntry::SkipWhile];
    for (src, limit) in cells {
        for entry in entries {
            let uncached = observe_sync(src, limit, entry, 0);
            for prefill in 1..=3 {
                let cached = observe_sync(src, limit, entry, prefill);
                assert_eq!(cached, uncached, "{entry:?} on {src:?} (limit {limit}) after a peek of {prefill}");
            }
        }
    }
}

#[test]
fn branch_at_checks_the_range() {
    assert_eq!(tokora::parse_choice::Branch::<3>::at(3).map(|b| b.id()), Some(3));
    assert_eq!(tokora::parse_choice::Branch::<3>::at(1).map(|b| b.id()), Some(1));
    assert!(tokora::parse_choice::Branch::<3>::at(4).is_none());
}

#[test]
fn try_expect_or_stop_differs_from_try_expect_only_at_a_stop() {
    let preds: [fn(&Spanned<BalTok>) -> bool; 2] = [|_| true, |t| matches!(t.data(), BalTok::Num)];
    for (src, limit) in [("1 2 3 4", 2usize), ("1 ; 2", usize::MAX), ("1 @ 2", usize::MAX), ("", usize::MAX)] {
        for pred in preds {
            let mut a = bal_input(src, limit);
            let mut b = bal_input(src, limit);
            let mut ra = a.as_ref();
            let mut rb = b.as_ref();
            for _ in 0..6 {
                let x = ra.try_expect_or_stop(pred);
                let y = rb.try_expect(pred);
                match x {
                    Ok(v) => assert_eq!(v.map(|t| *t.span_ref()), y.unwrap().map(|t| *t.span_ref())),
                    Err(e) => {
                        assert_eq!(e, ByValErr::Lex, "a stop is the terminal end-of-input error");
                        assert_eq!(y, Ok(None), "where the other declines");
                    }
                }
                assert_eq!(ra.span(), rb.span());
                assert_eq!(ra.state().tokens(), rb.state().tokens());
                assert_eq!(ra.is_poisoned(), rb.is_poisoned());
                assert_eq!(ra.cache().len(), rb.cache().len());
            }
        }
    }
}

#[test]
fn a_declined_attempt_returns_its_lineage_cache_and_log_to_the_entry() {
    let mut input = Input::<BalLexer>::with_state_and_context("1 2 @ 3 4", TokenLimiter::with_limitation(usize::MAX), bal_ctx(Emitter::verbose()));
    {
        let mut inp = input.as_ref();
        assert_eq!(inp.peek(1).unwrap().len(), 1);
        let out: Option<()> = inp.attempt(|inp| {
            let _left_live = inp.save();
            while inp.next().unwrap().is_some() {}
            assert_eq!(inp.emitter().error_count(), 1);
            assert_eq!(inp.live_checkpoints_len(), 2, "the begin point and the one left behind");
            None
        });
        assert!(out.is_none());
        assert_eq!(inp.live_checkpoints_len(), 0, "the lineage is cut back to before the begin point");
        assert_eq!(inp.span(), &SimpleSpan::new(0, 0));
        assert_eq!(inp.emitter().error_count(), 0, "the diagnostics are cut back to the entry's");
        assert_eq!(inp.cache().len(), 0, "the speculation took tokens off the cache, so none is kept");
        assert_eq!(*inp.next().unwrap().unwrap().span_ref(), SimpleSpan::new(0, 1));
    }
    assert_eq!(input.pinned_checkpoints_len(), 0, "the hold on the begin point is released");
}

#[test]
fn a_declined_lookahead_only_attempt_keeps_the_entry_cache() {
    let mut input = bal_input("1 2 3", usize::MAX);
    let mut inp = input.as_ref();
    assert_eq!(inp.peek(1).unwrap().len(), 1);
    let out: Result<(), ()> = inp.try_attempt(|inp| {
        assert_eq!(inp.peek(3).unwrap().len(), 3);
        Err(())
    });
    assert_eq!(out, Err(()));
    assert_eq!(inp.cache().len(), 1, "the entry's cached token stays, the lookahead past it goes");
    assert_eq!(inp.live_checkpoints_len(), 0);
    assert_eq!(inp.span(), &SimpleSpan::new(0, 0));
}

#[test]
fn probe_then_commit_is_try_expect() {
    for src in ["1 2", ") 1", "1"] {
        for prefill in 0..=2usize {
            let closer = |t: &Spanned<BalTok>| matches!(t.data(), BalTok::Num);
            let mut a = bal_input(src, usize::MAX);
            let mut b = bal_input(src, usize::MAX);
            let mut ra = a.as_ref();
            let mut rb = b.as_ref();
            if prefill > 0 {
                let _ = ra.peek(prefill);
                let _ = rb.peek(prefill);
            }
            let probed = match ra.probe_close(closer).unwrap() {
                CloseStatus::Close(payload) => Some(*ra.commit_probed(payload).span_ref()),
                _ => None,
            };
            let expected = rb.try_expect(closer).unwrap().map(|t| *t.span_ref());
            assert_eq!(probed, expected, "{src:?} after a peek of {prefill}");
            assert_eq!(ra.span(), rb.span());
            assert_eq!(ra.state().tokens(), rb.state().tokens());
            assert_eq!(ra.cache().len(), rb.cache().len());
        }
    }
}

#[test]
fn rollback_is_save_and_restore() {
    let mut a = Input::<BalLexer>::with_state_and_context("1 @ 2 3", TokenLimiter::with_limitation(usize::MAX), bal_ctx(Emitter::verbose()));
    let mut b = Input::<BalLexer>::with_state_and_context("1 @ 2 3", TokenLimiter::with_limitation(usize::MAX), bal_ctx(Emitter::verbose()));
    let mut ra = a.as_ref();
    let mut rb = b.as_ref();
    let _ = ra.peek(2);
    let _ = rb.peek(2);
    {
        let mut txn = ra.begin();
        let _ = txn.input().next();
        let _ = txn.input().next();
        let _ = txn.input().peek(2);
        txn.rollback();
    }
    let ckp = rb.save();
    let _ = rb.next();
    let _ = rb.next();
    let _ = rb.peek(2);
    rb.restore(ckp);
    assert_eq!(ra.span(), rb.span());
    assert_eq!(ra.state().tokens(), rb.state().tokens());
    assert_eq!(ra.cache().len(), rb.cache().len());
    assert_eq!(ra.emitter().error_count(), rb.emitter().error_count());
    assert_eq!(ra.live_checkpoints_len(), rb.live_checkpoints_len());
    let mut drain_a = Vec::new();
    while let Ok(Some(t)) = ra.next() {
        drain_a.push(*t.span_ref());
    }
    let mut drain_b = Vec::new();
    while let Ok(Some(t)) = rb.next() {
        drain_b.push(*t.span_ref());
    }
    assert_eq!(drain_a, drain_b);
}

#[test]
fn a_parent_rollback_discards_what_a_child_committed() {
    let mut input = bal_input("1 2 3", usize::MAX);
    let mut inp = input.as_ref();
    {
        let mut outer = inp.begin();
        let _ = outer.input().next();
        {
            let mut inner = outer.input().begin();
            let _ = inner.input().next();
            inner.commit();
        }
        assert_eq!(outer.input().span(), &SimpleSpan::new(2, 3));
        let _ = outer.input().next();
        outer.rollback();
    }
    assert_eq!(inp.span(), &SimpleSpan::new(0, 0));
    assert_eq!(inp.state().tokens(), 0);
    assert_eq!(inp.live_checkpoints_len(), 0);
    assert_eq!(*inp.next().unwrap().unwrap().span_ref(), SimpleSpan::new(0, 1));
}

#[test]
fn reconsume_after_a_declined_attempt_reports_each_lexer_error_once() {
    let straight = {
        let mut input = Input::<BalLexer>::with_state_and_context("1 @ 2", TokenLimiter::with_limitation(usize::MAX), bal_ctx(Emitter::verbose()));
        let mut inp = input.as_ref();
        while let Ok(Some(_)) = inp.next() {}
        error_spans(input.emitter())
    };
    let replayed = {
        let mut input = Input::<BalLexer>::with_state_and_context("1 @ 2", TokenLimiter::with_limitation(usize::MAX), bal_ctx(Emitter::verbose()));
        let mut inp = input.as_ref();
        let declined: Option<()> = inp.attempt(|inp| {
            while let Ok(Some(_)) = inp.next() {}
            None
        });
        assert!(declined.is_none());
        while let Ok(Some(_)) = inp.next() {}
        error_spans(input.emitter())
    };
    assert_eq!(straight, vec![SimpleSpan::new(2, 3)]);
    assert_eq!(replayed, straight, "the declined pass's report is taken back and the reparse reports it once");
}
