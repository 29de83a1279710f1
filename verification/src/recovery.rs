use vstd::prelude::*;

use crate::span::SimpleSpan;

verus! {

/// How a token kind takes part in delimiter balancing during recovery.
#[derive(Debug, Clone, Copy, PartialEq, Eq)]
pub enum Balance<D> {
    /// Opens a pair of the given delimiter family.
    Open(D),
    /// Closes a pair of the given delimiter family.
    Close(D),
    /// Neither opens nor closes a pair.
    Neutral,
}

/// The region skipped by a balanced synchronization: its span and how many tokens it held.
#[derive(Debug, Clone, Copy, PartialEq, Eq, Structural)]
pub struct Hole {
    span: SimpleSpan,
    skipped: usize,
}

impl Hole {
    /// A hole over `span` that held `skipped` tokens.
    pub fn new(span: SimpleSpan, skipped: usize) -> (r: Hole)
        ensures
            r.spec_span() == span,
            r.spec_skipped() == skipped,
    {
        Hole { span, skipped }
    }

    /// The skipped region: from the start of the first skipped token to the end of the last,
    /// or zero-width at the resume position when nothing was skipped.
    pub fn span(&self) -> (r: SimpleSpan)
        ensures
            r == self.spec_span(),
    {
        self.span
    }

    /// How many tokens were skipped.
    pub fn skipped(&self) -> (r: usize)
        ensures
            r == self.spec_skipped(),
    {
        self.skipped
    }

    /// The skipped region.
    pub closed spec fn spec_span(self) -> SimpleSpan {
        self.span
    }

    /// How many tokens were skipped.
    pub closed spec fn spec_skipped(self) -> usize {
        self.skipped
    }
}

/// The nesting depth after a token classified as `b`, starting from `depth`: an opener
/// deepens it (saturating), a closer shallows it (saturating at zero).
pub open spec fn next_depth<D>(depth: usize, b: Balance<D>) -> usize {
    match b {
        Balance::Open(_) => if depth < usize::MAX { (depth + 1) as usize } else { depth },
        Balance::Close(_) => if depth > 0 { (depth - 1) as usize } else { 0 },
        Balance::Neutral => depth,
    }
}

/// The nesting depth after a token classified as `b`, starting from `depth`.
pub fn step_depth<D>(depth: usize, b: &Balance<D>) -> (r: usize)
    ensures
        r == next_depth(depth, *b),
        *b is Open && depth < usize::MAX ==> r == depth + 1,
        *b is Open && depth == usize::MAX ==> r == depth,
        *b is Close && depth > 0 ==> r == depth - 1,
        *b is Close && depth == 0 ==> r == 0,
        *b is Neutral ==> r == depth,
{
    match b {
        Balance::Open(_) => if depth < usize::MAX {
            depth + 1
        } else {
            depth
        },
        Balance::Close(_) => if depth > 0 {
            depth - 1
        } else {
            0
        },
        Balance::Neutral => depth,
    }
}

/// The nesting depth after balancing the classes `bs` one after another from depth zero.
pub open spec fn depth_after<D>(bs: Seq<Balance<D>>) -> usize
    decreases bs.len(),
{
    if bs.len() == 0 {
        0
    } else {
        next_depth(depth_after(bs.drop_last()), bs.last())
    }
}

/// How many of the classes `bs` open a pair.
pub open spec fn opens<D>(bs: Seq<Balance<D>>) -> nat
    decreases bs.len(),
{
    if bs.len() == 0 {
        0
    } else {
        opens(bs.drop_last()) + if bs.last() is Open {
            1nat
        } else {
            0nat
        }
    }
}

/// How many of the classes `bs` close a pair.
pub open spec fn closes<D>(bs: Seq<Balance<D>>) -> nat
    decreases bs.len(),
{
    if bs.len() == 0 {
        0
    } else {
        closes(bs.drop_last()) + if bs.last() is Close {
            1nat
        } else {
            0nat
        }
    }
}

/// Balancing counts unmatched openers: where no prefix of `bs` closes more pairs than it
/// opened and fewer than `usize::MAX` pairs are opened, the depth after `bs` is the number of
/// openers not yet closed; in particular it is zero only where every opener was closed.
pub proof fn lemma_depth_counts_unmatched_openers<D>(bs: Seq<Balance<D>>)
    requires
        forall|k: int| 0 <= k <= bs.len() ==> closes(#[trigger] bs.take(k)) <= opens(bs.take(k)),
        opens(bs) < usize::MAX,
    ensures
        depth_after(bs) == opens(bs) - closes(bs),
    decreases bs.len(),
{
    if bs.len() > 0 {
        let p = bs.drop_last();
        assert forall|k: int| 0 <= k <= p.len() implies closes(#[trigger] p.take(k)) <= opens(p.take(k)) by {
            assert(p.take(k) =~= bs.take(k));
        }
        lemma_opens_grow(bs);
        lemma_depth_counts_unmatched_openers(p);
        assert(bs.take(bs.len() as int) =~= bs);
    }
}

/// Dropping the last class never adds an opener.
proof fn lemma_opens_grow<D>(bs: Seq<Balance<D>>)
    requires
        bs.len() > 0,
    ensures
        opens(bs.drop_last()) <= opens(bs),
{
}

} // verus!
