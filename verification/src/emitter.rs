use vstd::prelude::*;

use crate::span::SimpleSpan;

verus! {

/// What an emitter does with the diagnostics it is handed.
#[derive(Debug, Clone, Copy, PartialEq, Eq, Structural)]
pub enum Policy {
    /// Fail fast: every error is handed back, so the operation that raised it fails.
    Fatal,
    /// Accept every diagnostic and keep none (for speculative parsing).
    Silent,
    /// Accept every diagnostic and record it in the log (for compiler diagnostics).
    Verbose,
}

/// One recorded diagnostic.
#[derive(Debug, Clone, PartialEq, Eq)]
pub enum Emission<E> {
    /// An error at a span.
    Error {
        /// Where the error sits.
        span: SimpleSpan,
        /// The error.
        error: E,
    },
    /// A region skipped by recovery, with the number of tokens it held.
    Skipped {
        /// The skipped region.
        span: SimpleSpan,
        /// How many tokens were skipped.
        count: usize,
    },
}

/// The number of errors in a log.
pub open spec fn count_errors<E>(log: Seq<Emission<E>>) -> nat
    decreases log.len(),
{
    if log.len() == 0 {
        0
    } else {
        count_errors(log.drop_last()) + (if log.last() is Error { 1nat } else { 0nat })
    }
}

/// The number of errors at `span` in a log.
pub open spec fn count_errors_at<E>(log: Seq<Emission<E>>, span: SimpleSpan) -> nat
    decreases log.len(),
{
    if log.len() == 0 {
        0
    } else {
        count_errors_at(log.drop_last(), span) + (if log.last() matches Emission::Error { span: s, .. } && s == span { 1nat } else { 0nat })
    }
}

/// The counts recorded by the skipped-region entries at `span`, in log order.
pub open spec fn skipped_counts_at<E>(log: Seq<Emission<E>>, span: SimpleSpan) -> Seq<usize>
    decreases log.len(),
{
    if log.len() == 0 {
        Seq::empty()
    } else {
        let prev = skipped_counts_at(log.drop_last(), span);
        match log.last() {
            Emission::Skipped { span: s, count } => if s == span { prev.push(count) } else { prev },
            _ => prev,
        }
    }
}

/// The number of skipped-region entries in a log.
pub open spec fn count_skipped<E>(log: Seq<Emission<E>>) -> nat
    decreases log.len(),
{
    if log.len() == 0 {
        0
    } else {
        count_skipped(log.drop_last()) + (if log.last() is Skipped { 1nat } else { 0nat })
    }
}

/// Where parse diagnostics go.
///
/// A recording emitter keeps a log that checkpoints can rewind, so that diagnostics raised
/// on a path that is later abandoned disappear with it.
#[derive(Debug, Clone)]
pub struct Emitter<E> {
    policy: Policy,
    log: Vec<Emission<E>>,
}

impl<E> Emitter<E> {
    /// A fail-fast emitter.
    pub fn fatal() -> (r: Emitter<E>)
        ensures
            r.spec_policy() == Policy::Fatal,
            r.spec_log() == Seq::<Emission<E>>::empty(),
    {
        Emitter { policy: Policy::Fatal, log: Vec::new() }
    }

    /// An emitter that accepts and discards every diagnostic.
    pub fn silent() -> (r: Emitter<E>)
        ensures
            r.spec_policy() == Policy::Silent,
            r.spec_log() == Seq::<Emission<E>>::empty(),
    {
        Emitter { policy: Policy::Silent, log: Vec::new() }
    }

    /// An emitter that accepts and records every diagnostic.
    pub fn verbose() -> (r: Emitter<E>)
        ensures
            r.spec_policy() == Policy::Verbose,
            r.spec_log() == Seq::<Emission<E>>::empty(),
    {
        Emitter { policy: Policy::Verbose, log: Vec::new() }
    }

    /// The policy of this emitter.
    pub fn policy(&self) -> (r: Policy)
        ensures
            r == self.spec_policy(),
    {
        self.policy
    }

    /// The policy of this emitter.
    pub closed spec fn spec_policy(&self) -> Policy {
        self.policy
    }

    /// The recorded diagnostics, oldest first.
    pub closed spec fn spec_log(&self) -> Seq<Emission<E>> {
        self.log@
    }

    /// Reports `error` at `span`: a fail-fast emitter hands it back, the others accept it,
    /// and a recording emitter logs it.
    pub fn emit_error(&mut self, span: SimpleSpan, error: E) -> (r: Result<(), E>)
        ensures
            final(self).spec_policy() == old(self).spec_policy(),
            old(self).spec_policy() == Policy::Fatal ==> r == Err::<(), E>(error)
                && final(self).spec_log() == old(self).spec_log(),
            old(self).spec_policy() == Policy::Silent ==> r is Ok && final(self).spec_log()
                == old(self).spec_log(),
            old(self).spec_policy() == Policy::Verbose ==> r is Ok && final(self).spec_log()
                == old(self).spec_log().push(Emission::Error { span, error }),
    {
        match self.policy {
            Policy::Fatal => Err(error),
            Policy::Silent => Ok(()),
            Policy::Verbose => {
                self.log.push(Emission::Error { span, error });
                Ok(())
            },
        }
    }

    /// Reports a region of `count` tokens skipped by recovery; only a recording emitter
    /// keeps it. A skipped region is not an error, so no policy rejects it.
    pub fn emit_skipped_region(&mut self, span: SimpleSpan, count: usize)
        ensures
            final(self).spec_policy() == old(self).spec_policy(),
            old(self).spec_policy() == Policy::Verbose ==> final(self).spec_log()
                == old(self).spec_log().push(Emission::Skipped { span, count }),
            old(self).spec_policy() != Policy::Verbose ==> final(self).spec_log()
                == old(self).spec_log(),
    {
        match self.policy {
            Policy::Verbose => {
                self.log.push(Emission::Skipped { span, count });
            },
            _ => {},
        }
    }

    /// A mark of the current log position, for [`rewind`](Emitter::rewind).
    pub fn checkpoint(&self) -> (r: usize)
        ensures
            r == self.spec_log().len(),
    {
        self.log.len()
    }

    /// Drops every diagnostic recorded after `mark`.
    pub fn rewind(&mut self, mark: usize)
        ensures
            final(self).spec_policy() == old(self).spec_policy(),
            mark < old(self).spec_log().len() ==> final(self).spec_log()
                == old(self).spec_log().subrange(0, mark as int),
            mark >= old(self).spec_log().len() ==> final(self).spec_log() == old(self).spec_log(),
    {
        if mark < self.log.len() {
            self.log.truncate(mark);
        }
    }

    /// The recorded diagnostics, oldest first.
    pub fn log(&self) -> (r: &Vec<Emission<E>>)
        ensures
            r@ == self.spec_log(),
    {
        &self.log
    }

    /// The number of recorded errors.
    pub fn error_count(&self) -> (r: usize)
        ensures
            r == count_errors(self.spec_log()),
    {
        let mut n: usize = 0;
        let mut i: usize = 0;
        while i < self.log.len()
            invariant
                i <= self.log@.len(),
                n == count_errors(self.log@.subrange(0, i as int)),
                n <= i,
            decreases self.log@.len() - i,
        {
            assert(self.log@.subrange(0, i + 1).drop_last() == self.log@.subrange(0, i as int));
            match &self.log[i] {
                Emission::Error { .. } => {
                    n = n + 1;
                },
                _ => {},
            }
            i = i + 1;
        }
        assert(self.log@.subrange(0, i as int) == self.log@);
        n
    }

    /// The number of recorded errors at `span`.
    pub fn errors_at(&self, span: SimpleSpan) -> (r: usize)
        ensures
            r == count_errors_at(self.spec_log(), span),
    {
        let mut n: usize = 0;
        let mut i: usize = 0;
        while i < self.log.len()
            invariant
                i <= self.log@.len(),
                n == count_errors_at(self.log@.subrange(0, i as int), span),
                n <= i,
            decreases self.log@.len() - i,
        {
            assert(self.log@.subrange(0, i + 1).drop_last() == self.log@.subrange(0, i as int));
            match &self.log[i] {
                Emission::Error { span: s, .. } => {
                    if *s == span {
                        n = n + 1;
                    }
                },
                _ => {},
            }
            i = i + 1;
        }
        assert(self.log@.subrange(0, i as int) == self.log@);
        n
    }

    /// The number of recorded skipped regions.
    pub fn skipped_count(&self) -> (r: usize)
        ensures
            r == count_skipped(self.spec_log()),
    {
        let mut n: usize = 0;
        let mut i: usize = 0;
        while i < self.log.len()
            invariant
                i <= self.log@.len(),
                n == count_skipped(self.log@.subrange(0, i as int)),
                n <= i,
            decreases self.log@.len() - i,
        {
            assert(self.log@.subrange(0, i + 1).drop_last() == self.log@.subrange(0, i as int));
            match &self.log[i] {
                Emission::Skipped { .. } => {
                    n = n + 1;
                },
                _ => {},
            }
            i = i + 1;
        }
        assert(self.log@.subrange(0, i as int) == self.log@);
        n
    }

    /// The token counts of the skipped regions recorded at `span`, oldest first.
    pub fn skipped_at(&self, span: SimpleSpan) -> (r: Vec<usize>)
        ensures
            r@ == skipped_counts_at(self.spec_log(), span),
    {
        let mut out: Vec<usize> = Vec::new();
        let mut i: usize = 0;
        while i < self.log.len()
            invariant
                i <= self.log@.len(),
                out@ == skipped_counts_at(self.log@.subrange(0, i as int), span),
            decreases self.log@.len() - i,
        {
            assert(self.log@.subrange(0, i + 1).drop_last() == self.log@.subrange(0, i as int));
            match &self.log[i] {
                Emission::Skipped { span: s, count } => {
                    if *s == span {
                        out.push(*count);
                    }
                },
                _ => {},
            }
            i = i + 1;
        }
        assert(self.log@.subrange(0, i as int) == self.log@);
        out
    }
}

} // verus!
