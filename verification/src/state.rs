use vstd::prelude::*;

verus! {

/// The mode a lexer carries between tokens (nesting depth, resource tallies, ...).
///
/// It is cloned at every checkpoint and with every cached token, so it should be cheap
/// to clone.
pub trait State {
    /// What [`check`](State::check) reports when the state is no longer valid.
    type Error;

    /// Whether the state is still valid (for instance, a limiter under its limit).
    fn check(&self) -> Result<(), Self::Error>;
}

/// The report of a [`TokenLimiter`] that has counted past its limit.
#[derive(Debug, Clone, Copy, PartialEq, Eq, Structural)]
pub struct TokenLimitExceeded {
    /// The number of tokens counted.
    pub tokens: usize,
    /// The limit that was exceeded.
    pub limitation: usize,
}

/// A by-value resource limiter: counts scanned tokens and reports when the count
/// exceeds the limit.
#[derive(Debug, Clone, Copy, PartialEq, Eq, Structural)]
pub struct TokenLimiter {
    tokens: usize,
    limitation: usize,
}

impl TokenLimiter {
    /// A limiter that tolerates `limitation` tokens; the one after that trips it.
    pub fn with_limitation(limitation: usize) -> (r: TokenLimiter)
        ensures
            r.spec_tokens() == 0,
            r.spec_limitation() == limitation,
    {
        TokenLimiter { tokens: 0, limitation }
    }

    /// A limiter with no practical limit.
    pub fn new() -> (r: TokenLimiter)
        ensures
            r.spec_tokens() == 0,
            r.spec_limitation() == usize::MAX,
    {
        TokenLimiter { tokens: 0, limitation: usize::MAX }
    }

    /// Counts one more token (saturating at `usize::MAX`).
    pub fn increase(&mut self)
        ensures
            final(self).spec_limitation() == old(self).spec_limitation(),
            final(self).spec_tokens() == (if old(self).spec_tokens() < usize::MAX {
                old(self).spec_tokens() + 1
            } else {
                old(self).spec_tokens() as int
            }),
    {
        if self.tokens < usize::MAX {
            self.tokens = self.tokens + 1;
        }
    }

    /// The number of tokens counted so far.
    pub fn tokens(&self) -> (r: usize)
        ensures
            r == self.spec_tokens(),
    {
        self.tokens
    }

    /// The limit.
    pub fn limitation(&self) -> (r: usize)
        ensures
            r == self.spec_limitation(),
    {
        self.limitation
    }

    /// Whether the count has gone past the limit.
    pub fn is_exceeded(&self) -> (r: bool)
        ensures
            r == (self.spec_tokens() > self.spec_limitation()),
    {
        self.tokens > self.limitation
    }

    /// `Err` exactly when the count has gone past the limit.
    pub fn check(&self) -> (r: Result<(), TokenLimitExceeded>)
        ensures
            r is Ok <==> self.spec_tokens() <= self.spec_limitation(),
            r matches Err(e) ==> e.tokens == self.spec_tokens() && e.limitation
                == self.spec_limitation(),
    {
        if self.tokens > self.limitation {
            Err(TokenLimitExceeded { tokens: self.tokens, limitation: self.limitation })
        } else {
            Ok(())
        }
    }

    /// The number of tokens counted so far.
    pub closed spec fn spec_tokens(self) -> usize {
        self.tokens
    }

    /// The limit.
    pub closed spec fn spec_limitation(self) -> usize {
        self.limitation
    }
}

impl State for TokenLimiter {
    type Error = TokenLimitExceeded;

    fn check(&self) -> (r: Result<(), TokenLimitExceeded>)
        ensures
            r is Ok <==> self.spec_tokens() <= self.spec_limitation(),
    {
        TokenLimiter::check(self)
    }
}

impl State for () {
    type Error = ();

    /// A unit state is always valid.
    fn check(&self) -> (r: Result<(), ()>)
        ensures
            r is Ok,
    {
        Ok(())
    }
}

} // verus!
