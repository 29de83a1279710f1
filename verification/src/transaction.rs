use vstd::prelude::*;

use crate::input::{
    forgot_checkpoint, released_hold, rollback_allowed, rolled_back_to, saved_from, Checkpoint, InputRef,
};
use crate::lexer::Lexer;

verus! {

/// What an undecided [`Transaction`] does when it is settled without an explicit decision.
#[derive(Debug, Clone, Copy, PartialEq, Eq, Structural)]
pub enum DropPolicy {
    /// Return to the begin point: uncommitted speculative work is discarded.
    Rollback,
    /// Keep the progress, the dual used by commit-by-default loops.
    Commit,
}

/// A scoped backtracking transaction over an [`InputRef`]: [`begin`](InputRef::begin) takes
/// a checkpoint and holds it, so nothing run through the transaction can restore below it;
/// [`commit`](Transaction::commit) keeps the progress made through it and
/// [`rollback`](Transaction::rollback) returns to the begin point. While a transaction is
/// alive its input is reachable only through it, so nested transactions decide in
/// last-in, first-out order. Its [`DropPolicy`] says what
/// [`settle_undecided`](Transaction::settle_undecided) does. A transaction has no destructor:
/// one dropped without `commit`, `rollback` or `settle_undecided` keeps its hold on the begin
/// point and its lineage entry, so every transaction must be settled by one of the three.
#[must_use]
pub struct Transaction<'t, 'r, L: Lexer> {
    pub(crate) input: &'t mut InputRef<'r, L>,
    pub(crate) ckp: Checkpoint<L::State>,
    pub(crate) policy: DropPolicy,
}

impl<'t, 'r, L: Lexer> Transaction<'t, 'r, L> {
    /// The input the transaction runs on, as it stands.
    pub closed spec fn spec_input(&self) -> InputRef<'r, L> {
        *self.input
    }

    /// The begin-point checkpoint.
    pub closed spec fn spec_checkpoint(&self) -> Checkpoint<L::State> {
        self.ckp
    }

    /// What settling the transaction undecided does.
    pub closed spec fn spec_policy(&self) -> DropPolicy {
        self.policy
    }

    /// The borrow of the input this transaction holds.
    pub closed spec fn handle(&self) -> &'t mut InputRef<'r, L> {
        self.input
    }

    /// The input the transaction runs on is the one its borrow points to.
    pub proof fn lemma_handle_is_input(&self)
        ensures
            *self.handle() == self.spec_input(),
    {
    }

    /// What settling the transaction undecided does.
    pub fn policy(&self) -> (r: DropPolicy)
        ensures
            r == self.spec_policy(),
    {
        self.policy
    }

    /// The input, to parse through.
    pub fn input(&mut self) -> (r: &mut InputRef<'r, L>)
        ensures
            *r == old(self).spec_input(),
            final(self).spec_input() == *final(r),
            *final(self).handle() == final(self).spec_input(),
            *final(final(self).handle()) == *final(old(self).handle()),
            final(self).spec_checkpoint() == old(self).spec_checkpoint(),
            final(self).spec_policy() == old(self).spec_policy(),
    {
        self.input
    }

    /// Settles a transaction that was not decided explicitly, as its [`DropPolicy`] says.
    /// Nothing settles a transaction by itself: one dropped undecided keeps its hold and its
    /// lineage entry, so call this (or [`commit`](Transaction::commit) or
    /// [`rollback`](Transaction::rollback)) on every transaction. Under
    /// [`DropPolicy::Commit`] it keeps the progress as `commit` does. Under
    /// [`DropPolicy::Rollback`] it returns to the begin point as `rollback` does when that is
    /// allowed, and otherwise only releases the hold, leaving the input as it is.
    pub fn settle_undecided(self)
        ensures
            final(self.handle()).inp().same_frame(&old(self.handle()).inp()),
            released_hold(
                final(self.handle()).inp().spec_pinned(),
                old(self.handle()).inp().spec_pinned(),
                self.spec_checkpoint().spec_id(),
            ),
            final(self.handle()).inp().spec_next_id() == old(self.handle()).inp().spec_next_id(),
            self.spec_policy() == DropPolicy::Commit ==> final(self.handle()).inp().same_stream(
                &old(self.handle()).inp(),
            ) && forgot_checkpoint(
                final(self.handle()).inp().spec_live(),
                old(self.handle()).inp().spec_live(),
                self.spec_checkpoint().spec_id(),
            ),
            self.spec_policy() == DropPolicy::Rollback && rollback_allowed(
                old(self.handle()).inp().spec_live(),
                old(self.handle()).inp().spec_pinned(),
                self.spec_checkpoint().spec_id(),
            ) ==> rolled_back_to(final(self.handle()).inp(), old(self.handle()).inp(), self.spec_checkpoint()),
            self.spec_policy() == DropPolicy::Rollback && !rollback_allowed(
                old(self.handle()).inp().spec_live(),
                old(self.handle()).inp().spec_pinned(),
                self.spec_checkpoint().spec_id(),
            ) ==> final(self.handle()).inp().same_stream(&old(self.handle()).inp())
                && final(self.handle()).inp().spec_live() == old(self.handle()).inp().spec_live(),
    {
        match self.policy {
            DropPolicy::Rollback => {
                let Transaction { input, ckp, policy: _ } = self;
                let ghost pre = input.inp();
                input.unpin(ckp.id());
                let ghost mid = input.inp();
                if input.can_restore(&ckp) {
                    input.restore(ckp);
                    assert(crate::input::restored_to(input.inp(), mid, ckp));
                } else {
                    proof {
                        if rollback_allowed(pre.spec_live(), pre.spec_pinned(), ckp.spec_id()) {
                            assert(released_hold(mid.spec_pinned(), pre.spec_pinned(), ckp.spec_id()));
                        }
                    }
                }
            },
            DropPolicy::Commit => self.commit(),
        }
    }

    /// Keeps the progress made through the transaction and releases its begin point: the
    /// hold on it is released and it leaves the live lineage.
    pub fn commit(self)
        ensures
            final(self.handle()).inp().same_stream(&old(self.handle()).inp()),
            final(self.handle()).inp().same_frame(&old(self.handle()).inp()),
            released_hold(
                final(self.handle()).inp().spec_pinned(),
                old(self.handle()).inp().spec_pinned(),
                self.spec_checkpoint().spec_id(),
            ),
            forgot_checkpoint(
                final(self.handle()).inp().spec_live(),
                old(self.handle()).inp().spec_live(),
                self.spec_checkpoint().spec_id(),
            ),
            final(self.handle()).inp().spec_next_id() == old(self.handle()).inp().spec_next_id(),
    {
        let Transaction { input, ckp, policy: _ } = self;
        input.unpin(ckp.id());
        input.commit(ckp);
    }

    /// Returns to the begin point: the committed position, lexer state, dedup watermark and
    /// diagnostics are those at [`begin`](InputRef::begin), and so is the poison boundary; the
    /// hold on the begin point is released and the lineage is cut back to before it, as
    /// [`restore`](InputRef::restore) does. The begin point must still be restorable once the
    /// transaction's own hold is released.
    pub fn rollback(self)
        requires
            rollback_allowed(
                old(self.handle()).inp().spec_live(),
                old(self.handle()).inp().spec_pinned(),
                self.spec_checkpoint().spec_id(),
            ),
        ensures
            final(self.handle()).inp().same_frame(&old(self.handle()).inp()),
            rolled_back_to(final(self.handle()).inp(), old(self.handle()).inp(), self.spec_checkpoint()),
    {
        let Transaction { input, ckp, policy: _ } = self;
        let ghost mid_pre = input.inp();
        input.unpin(ckp.id());
        let ghost mid = input.inp();
        assert(released_hold(mid.spec_pinned(), mid_pre.spec_pinned(), ckp.spec_id()));
        input.restore(ckp);
        assert(crate::input::restored_to(input.inp(), mid, ckp));
    }
}

impl<'r, L: Lexer> InputRef<'r, L> {
    /// Begins a transaction: takes a checkpoint and holds it until the transaction is
    /// committed or rolled back; settled undecided, it rolls back.
    pub fn begin(&mut self) -> (r: Transaction<'_, 'r, L>)
        requires
            old(self).inp().spec_next_id() < u64::MAX,
        ensures
            saved_from(r.spec_checkpoint(), old(self).inp()),
            r.spec_input().inp().same_stream(&old(self).inp()),
            r.spec_input().inp().same_frame(&old(self).inp()),
            r.spec_policy() == DropPolicy::Rollback,
            r.spec_input().inp().spec_live() == old(self).inp().spec_live().push(r.spec_checkpoint().spec_id()),
            r.spec_input().inp().spec_pinned() == old(self).inp().spec_pinned().push(r.spec_checkpoint().spec_id()),
            r.spec_input().inp().spec_next_id() == old(self).inp().spec_next_id() + 1,
            *r.handle() == r.spec_input(),
            *final(self) == *final(r.handle()),
    {
        self.begin_with(DropPolicy::Rollback)
    }

    /// Begins a transaction that, settled undecided, does what `policy` says.
    pub fn begin_with(&mut self, policy: DropPolicy) -> (r: Transaction<'_, 'r, L>)
        requires
            old(self).inp().spec_next_id() < u64::MAX,
        ensures
            saved_from(r.spec_checkpoint(), old(self).inp()),
            r.spec_input().inp().same_stream(&old(self).inp()),
            r.spec_input().inp().same_frame(&old(self).inp()),
            r.spec_policy() == policy,
            r.spec_input().inp().spec_live() == old(self).inp().spec_live().push(r.spec_checkpoint().spec_id()),
            r.spec_input().inp().spec_pinned() == old(self).inp().spec_pinned().push(r.spec_checkpoint().spec_id()),
            r.spec_input().inp().spec_next_id() == old(self).inp().spec_next_id() + 1,
            *r.handle() == r.spec_input(),
            *final(self) == *final(r.handle()),
    {
        let ckp = self.save();
        self.pin(ckp.id());
        Transaction { input: self, ckp, policy }
    }
}

} // verus!

