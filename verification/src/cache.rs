use vstd::prelude::*;

use crate::span::{SimpleSpan, Spanned};

verus! {

/// A token lexed ahead of the cursor, with the lexer state right after it: the state
/// lexing resumes from once the token is consumed.
#[derive(Debug, Clone)]
pub struct CachedToken<T, S> {
    /// The token and its span.
    pub token: Spanned<T>,
    /// The lexer state after the token.
    pub state: S,
}

impl<T, S> CachedToken<T, S> {
    /// Pairs a token with the state after it.
    pub fn new(token: Spanned<T>, state: S) -> (r: CachedToken<T, S>)
        ensures
            r.token == token,
            r.state == state,
    {
        CachedToken { token, state }
    }

    /// The token.
    pub fn token(&self) -> (r: &Spanned<T>)
        ensures
            *r == self.token,
    {
        &self.token
    }

    /// The lexer state after the token.
    pub fn state(&self) -> (r: &S)
        ensures
            *r == self.state,
    {
        &self.state
    }

    /// Splits into the token and the state.
    pub fn into_components(self) -> (r: (Spanned<T>, S))
        ensures
            r.0 == self.token,
            r.1 == self.state,
    {
        (self.token, self.state)
    }
}

/// The capacity of the default lookahead cache.
pub const DEFAULT_CAPACITY: usize = 3;

/// A bounded first-in, first-out buffer of tokens lexed ahead of the cursor.
///
/// Capacity 3 is the default; capacity 1 holds a single token and capacity 0 caches
/// nothing (every read lexes).
#[derive(Debug, Clone)]
pub struct TokenCache<T, S> {
    entries: Vec<CachedToken<T, S>>,
    capacity: usize,
}

impl<T, S> TokenCache<T, S> {
    /// An empty cache holding at most `capacity` tokens.
    pub fn with_capacity(capacity: usize) -> (r: TokenCache<T, S>)
        ensures
            r.spec_entries() == Seq::<CachedToken<T, S>>::empty(),
            r.spec_capacity() == capacity,
    {
        TokenCache { entries: Vec::new(), capacity }
    }

    /// The cached tokens, front first.
    pub closed spec fn spec_entries(&self) -> Seq<CachedToken<T, S>> {
        self.entries@
    }

    /// The most tokens the cache holds.
    pub closed spec fn spec_capacity(&self) -> usize {
        self.capacity
    }

    /// The most tokens the cache holds.
    pub fn capacity(&self) -> (r: usize)
        ensures
            r == self.spec_capacity(),
    {
        self.capacity
    }

    /// The number of cached tokens.
    pub fn len(&self) -> (r: usize)
        ensures
            r == self.spec_entries().len(),
    {
        self.entries.len()
    }

    /// Whether the cache holds no token.
    pub fn is_empty(&self) -> (r: bool)
        ensures
            r == (self.spec_entries().len() == 0),
    {
        self.entries.len() == 0
    }

    /// How many more tokens fit.
    pub fn remaining(&self) -> (r: usize)
        ensures
            r == (if self.spec_entries().len() <= self.spec_capacity() {
                self.spec_capacity() - self.spec_entries().len()
            } else {
                0
            }),
    {
        if self.entries.len() <= self.capacity {
            self.capacity - self.entries.len()
        } else {
            0
        }
    }

    /// Appends `entry` at the back if there is room; hands it back otherwise.
    pub fn push_back(&mut self, entry: CachedToken<T, S>) -> (r: Result<(), CachedToken<T, S>>)
        ensures
            final(self).spec_capacity() == old(self).spec_capacity(),
            old(self).spec_entries().len() < old(self).spec_capacity() ==> r is Ok
                && final(self).spec_entries() == old(self).spec_entries().push(entry),
            old(self).spec_entries().len() >= old(self).spec_capacity() ==> r == Err::<
                (),
                CachedToken<T, S>,
            >(entry) && final(self).spec_entries() == old(self).spec_entries(),
    {
        if self.entries.len() < self.capacity {
            self.entries.push(entry);
            Ok(())
        } else {
            Err(entry)
        }
    }

    /// Removes and returns the front token.
    pub fn pop_front(&mut self) -> (r: Option<CachedToken<T, S>>)
        ensures
            final(self).spec_capacity() == old(self).spec_capacity(),
            old(self).spec_entries().len() == 0 ==> r is None && final(self).spec_entries()
                == old(self).spec_entries(),
            old(self).spec_entries().len() > 0 ==> r == Some(old(self).spec_entries()[0])
                && final(self).spec_entries() == old(self).spec_entries().drop_first(),
    {
        if self.entries.len() == 0 {
            None
        } else {
            Some(self.entries.remove(0))
        }
    }

    /// The front token, if any.
    pub fn front(&self) -> (r: Option<&CachedToken<T, S>>)
        ensures
            self.spec_entries().len() == 0 ==> r is None,
            self.spec_entries().len() > 0 ==> r == Some(&self.spec_entries()[0]),
    {
        if self.entries.len() == 0 {
            None
        } else {
            Some(&self.entries[0])
        }
    }

    /// The back token, if any.
    pub fn back(&self) -> (r: Option<&CachedToken<T, S>>)
        ensures
            self.spec_entries().len() == 0 ==> r is None,
            self.spec_entries().len() > 0 ==> r == Some(&self.spec_entries().last()),
    {
        if self.entries.len() == 0 {
            None
        } else {
            Some(&self.entries[self.entries.len() - 1])
        }
    }

    /// The token at position `i` from the front, if any.
    pub fn get(&self, i: usize) -> (r: Option<&CachedToken<T, S>>)
        ensures
            i >= self.spec_entries().len() ==> r is None,
            i < self.spec_entries().len() ==> r == Some(&self.spec_entries()[i as int]),
    {
        if i < self.entries.len() {
            Some(&self.entries[i])
        } else {
            None
        }
    }

    /// Drops every cached token.
    pub fn clear(&mut self)
        ensures
            final(self).spec_capacity() == old(self).spec_capacity(),
            final(self).spec_entries() == Seq::<CachedToken<T, S>>::empty(),
    {
        self.entries.clear();
    }

    /// Drops the `n` tokens at the back (all of them if there are fewer).
    pub fn drop_back(&mut self, n: usize)
        ensures
            final(self).spec_capacity() == old(self).spec_capacity(),
            n <= old(self).spec_entries().len() ==> final(self).spec_entries() == old(
                self,
            ).spec_entries().subrange(0, old(self).spec_entries().len() - n),
            n > old(self).spec_entries().len() ==> final(self).spec_entries() == Seq::<
                CachedToken<T, S>,
            >::empty(),
    {
        if n <= self.entries.len() {
            let keep = self.entries.len() - n;
            self.entries.truncate(keep);
        } else {
            self.entries.clear();
        }
    }

    /// Drops the `n` tokens at the front (all of them if there are fewer).
    pub fn drop_front(&mut self, n: usize)
        ensures
            final(self).spec_capacity() == old(self).spec_capacity(),
            n <= old(self).spec_entries().len() ==> final(self).spec_entries() == old(
                self,
            ).spec_entries().subrange(n as int, old(self).spec_entries().len() as int),
            n > old(self).spec_entries().len() ==> final(self).spec_entries() == Seq::<
                CachedToken<T, S>,
            >::empty(),
    {
        if n > self.entries.len() {
            self.entries.clear();
        } else {
            let mut k: usize = 0;
            while k < n
                invariant
                    k <= n <= old(self).spec_entries().len(),
                    self.capacity == old(self).spec_capacity(),
                    self.entries@ == old(self).spec_entries().subrange(
                        k as int,
                        old(self).spec_entries().len() as int,
                    ),
                decreases n - k,
            {
                self.entries.remove(0);
                k = k + 1;
            }
        }
    }
}

impl<T, S> Default for TokenCache<T, S> {
    /// An empty cache of the default capacity.
    fn default() -> (r: TokenCache<T, S>)
        ensures
            r.spec_entries() == Seq::<CachedToken<T, S>>::empty(),
            r.spec_capacity() == DEFAULT_CAPACITY,
    {
        TokenCache { entries: Vec::new(), capacity: DEFAULT_CAPACITY }
    }
}

/// The cache after reconciling it with a resume position `cursor`: tokens that start
/// before the cursor are dropped, and if the first survivor does not start exactly at the
/// cursor the cache is emptied (the region will be lexed again).
pub open spec fn reconciled<T, S>(entries: Seq<CachedToken<T, S>>, cursor: usize) -> Seq<
    CachedToken<T, S>,
>
    decreases entries.len(),
{
    if entries.len() == 0 {
        entries
    } else if entries[0].token.span.start < cursor {
        reconciled(entries.drop_first(), cursor)
    } else if entries[0].token.span.start == cursor {
        entries
    } else {
        Seq::empty()
    }
}

/// Reconciles a cache with the resume position `cursor`: keeps the cached suffix that
/// starts exactly at the cursor, and clears the cache when there is none.
pub fn reconcile_cache_geometry<T, S>(cache: &mut TokenCache<T, S>, cursor: &usize)
    ensures
        final(cache).spec_capacity() == old(cache).spec_capacity(),
        final(cache).spec_entries() == reconciled(old(cache).spec_entries(), *cursor),
{
    loop
        invariant
            cache.spec_capacity() == old(cache).spec_capacity(),
            reconciled(cache.spec_entries(), *cursor) == reconciled(
                old(cache).spec_entries(),
                *cursor,
            ),
        decreases cache.spec_entries().len(),
    {
        match cache.front() {
            None => {
                return;
            },
            Some(front) => {
                let start = front.token.span.start;
                if start < *cursor {
                    let _ = cache.pop_front();
                } else if start == *cursor {
                    return;
                } else {
                    cache.clear();
                    return;
                }
            },
        }
    }
}

} // verus!
