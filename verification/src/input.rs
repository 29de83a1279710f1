use vstd::prelude::*;

use crate::cache::{CachedToken, TokenCache};
use crate::emitter::{Emission, Emitter, Policy};
use crate::error::{UnexpectedEot, UnexpectedToken};
use crate::lexer::Lexer;
use crate::recovery::{depth_after, next_depth, step_depth, Balance, Hole};
use crate::span::{SimpleSpan, Spanned};
use crate::token::Token;

verus! {

/// The error type of a lexer's tokens, which is also the error type its input reports.
pub type ErrorOf<L> = <<L as Lexer>::Token as Token>::Error;

/// The token type of a lexer.
pub type TokenOf<L> = <L as Lexer>::Token;

/// The cached-token type of a lexer.
pub type CachedOf<L> = CachedToken<<L as Lexer>::Token, <L as Lexer>::State>;

/// Whether `b` begins with `a`: what a log looks like after diagnostics were only added.
pub open spec fn extends<A>(a: Seq<A>, b: Seq<A>) -> bool {
    a.len() <= b.len() && b.subrange(0, a.len() as int) == a
}

/// Adds one to a counter, saturating at the maximum.
pub open spec fn bumped(x: u64) -> u64 {
    if x < u64::MAX {
        (x + 1) as u64
    } else {
        x
    }
}

/// A sequence extends itself.
pub proof fn lemma_extends_refl<A>(a: Seq<A>)
    ensures
        extends(a, a),
{
    assert(a.subrange(0, a.len() as int) == a);
}

/// Appending to a sequence extends it.
pub proof fn lemma_extends_push<A>(a: Seq<A>, x: A)
    ensures
        extends(a, a.push(x)),
{
    assert(a.push(x).subrange(0, a.len() as int) == a);
}

/// Extension is transitive.
pub proof fn lemma_extends_trans<A>(a: Seq<A>, b: Seq<A>, c: Seq<A>)
    requires
        extends(a, b),
        extends(b, c),
    ensures
        extends(a, c),
{
    assert(c.subrange(0, a.len() as int) == c.subrange(0, b.len() as int).subrange(0, a.len() as int));
}

/// The live checkpoint ids are strictly increasing (so each occurs once, in the order the
/// checkpoints were taken) and all below the next id to hand out.
pub open spec fn lineage_ok(live: Seq<u64>, next_id: u64) -> bool {
    &&& forall|i: int, j: int| 0 <= i < j < live.len() ==> live[i] < live[j]
    &&& forall|i: int| 0 <= i < live.len() ==> live[i] < next_id
}

/// Whether restoring the checkpoint `id` is allowed: it is live, and no checkpoint held by
/// a running attempt or transaction is at or after it in the lineage.
pub open spec fn restorable(live: Seq<u64>, pinned: Seq<u64>, id: u64) -> bool {
    &&& live.contains(id)
    &&& forall|i: int, j: int|
        #![trigger live[i], live[j]]
        0 <= i <= j < live.len() && live[i] == id ==> !pinned.contains(live[j])
}

/// `after` is the list of held checkpoints `before` with one hold on `id` released: its
/// first occurrence is removed, if it has one.
pub open spec fn released_hold(after: Seq<u64>, before: Seq<u64>, id: u64) -> bool {
    &&& !before.contains(id) ==> after == before
    &&& before.contains(id) ==> exists|i: int|
        0 <= i < before.len() && before[i] == id && (forall|j: int| 0 <= j < i ==> before[j] != id) && after
            == #[trigger] before.remove(i)
}

/// Releasing one hold on `id` leaves one list only.
pub proof fn lemma_released_hold_unique(p1: Seq<u64>, p2: Seq<u64>, before: Seq<u64>, id: u64)
    requires
        released_hold(p1, before, id),
        released_hold(p2, before, id),
    ensures
        p1 == p2,
{
    if before.contains(id) {
        let i1 = choose|i: int|
            0 <= i < before.len() && before[i] == id && (forall|j: int| 0 <= j < i ==> before[j] != id) && p1
                == #[trigger] before.remove(i);
        let i2 = choose|i: int|
            0 <= i < before.len() && before[i] == id && (forall|j: int| 0 <= j < i ==> before[j] != id) && p2
                == #[trigger] before.remove(i);
        assert(i1 == i2);
    }
}

/// `after` is the live lineage `before` with the checkpoint `id` dropped from it, if it is
/// there.
pub open spec fn forgot_checkpoint(after: Seq<u64>, before: Seq<u64>, id: u64) -> bool {
    &&& !before.contains(id) ==> after == before
    &&& before.contains(id) ==> exists|i: int|
        0 <= i < before.len() && before[i] == id && after == #[trigger] before.remove(i)
}

/// Whether a transaction that holds the checkpoint `id` may roll back to it: once its own
/// hold is released, restoring `id` is allowed.
pub open spec fn rollback_allowed(live: Seq<u64>, pinned: Seq<u64>, id: u64) -> bool {
    forall|p: Seq<u64>| #[trigger] released_hold(p, pinned, id) ==> restorable(live, p, id)
}

/// `c` is the snapshot that [`save`](InputRef::save) takes of `a`: its committed span, a
/// clone of its committed state, its poison boundary, dedup watermark, log length and cache
/// counters, under the next id.
pub open spec fn saved_from<L: Lexer>(c: Checkpoint<L::State>, a: Input<L>) -> bool {
    &&& c.spec_id() == a.spec_next_id()
    &&& c.spec_span() == a.spec_span()
    &&& cloned(a.spec_state(), c.spec_state())
    &&& c.spec_boundary() == a.spec_boundary()
    &&& c.spec_watermark() == a.spec_watermark()
    &&& c.spec_mark() == a.spec_log().len()
    &&& c.spec_pushes() == a.spec_pushes()
    &&& c.spec_pops() == a.spec_pops()
}

/// `f` is `b` after [`restore`](InputRef::restore) of `c`: the committed span, state, poison
/// boundary, dedup watermark and cache counters are the snapshot's, the log is
/// cut back to the snapshot's length, the cache keeps a prefix of its tokens (none when a
/// token was consumed since the snapshot), and the lineage is cut back to before `c`.
pub open spec fn restored_to<L: Lexer>(f: Input<L>, b: Input<L>, c: Checkpoint<L::State>) -> bool {
    &&& f.same_frame(&b)
    &&& f.spec_span() == c.spec_span()
    &&& f.spec_state() == c.spec_state()
    &&& f.spec_boundary() == c.spec_boundary()
    &&& f.spec_watermark() == c.spec_watermark()
    &&& c.spec_mark() < b.spec_log().len() ==> f.spec_log() == b.spec_log().subrange(0, c.spec_mark() as int)
    &&& c.spec_mark() >= b.spec_log().len() ==> f.spec_log() == b.spec_log()
    &&& f.spec_pushes() == c.spec_pushes()
    &&& f.spec_pops() == c.spec_pops()
    &&& f.spec_cache() == b.spec_cache().subrange(0, f.spec_cache().len() as int)
    &&& b.spec_pops() != c.spec_pops() ==> f.spec_cache().len() == 0
    &&& cache_kept(b, c) ==> f.spec_cache() == b.spec_cache().subrange(
        0,
        b.spec_cache().len() - (b.spec_pushes() - c.spec_pushes()),
    )
    &&& f.spec_live() == b.spec_live().subrange(0, f.spec_live().len() as int)
    &&& f.spec_live().len() < b.spec_live().len()
    &&& b.spec_live()[f.spec_live().len() as int] == c.spec_id()
    &&& !f.spec_live().contains(c.spec_id())
    &&& f.spec_pinned() == b.spec_pinned()
    &&& f.spec_next_id() == b.spec_next_id()
}

/// `f` is `b` after a transaction on `c` rolled back: one hold on `c` is released, and `f` is
/// what restoring `c` gives from `b` with that hold released.
pub open spec fn rolled_back_to<L: Lexer>(f: Input<L>, b: Input<L>, c: Checkpoint<L::State>) -> bool {
    &&& released_hold(f.spec_pinned(), b.spec_pinned(), c.spec_id())
    &&& exists|m: Input<L>|
        #[trigger] restored_to(f, m, c) && m.same_stream(&b) && m.same_frame(&b) && m.spec_live()
            == b.spec_live() && m.spec_next_id() == b.spec_next_id() && m.spec_pinned() == f.spec_pinned()
}

/// `f` is `b` after the snapshot `c` was put back without touching the lineage (the fallback
/// when `c` may no longer be restored): the committed span, state, poison boundary, dedup
/// watermark and cache counters are the snapshot's, the log is cut back to the snapshot's
/// length, and the cache keeps a prefix of its tokens, as [`restored_to`] says.
pub open spec fn rewound_to<L: Lexer>(f: Input<L>, b: Input<L>, c: Checkpoint<L::State>) -> bool {
    &&& f.same_frame(&b)
    &&& f.same_lineage(&b)
    &&& f.spec_span() == c.spec_span()
    &&& f.spec_state() == c.spec_state()
    &&& f.spec_boundary() == c.spec_boundary()
    &&& f.spec_watermark() == c.spec_watermark()
    &&& c.spec_mark() < b.spec_log().len() ==> f.spec_log() == b.spec_log().subrange(0, c.spec_mark() as int)
    &&& c.spec_mark() >= b.spec_log().len() ==> f.spec_log() == b.spec_log()
    &&& f.spec_pushes() == c.spec_pushes()
    &&& f.spec_pops() == c.spec_pops()
    &&& f.spec_cache() == b.spec_cache().subrange(0, f.spec_cache().len() as int)
    &&& b.spec_pops() != c.spec_pops() ==> f.spec_cache().len() == 0
    &&& cache_kept(b, c) ==> f.spec_cache() == b.spec_cache().subrange(
        0,
        b.spec_cache().len() - (b.spec_pushes() - c.spec_pushes()),
    )
}

/// `f` is what declining a speculation that held the checkpoint `c` makes of `g`, the input
/// the speculation left: one hold on `c` is released, and `c` is restored (the lineage cut
/// back to before it) where that is allowed, or else, only where it is not, put back without
/// touching the lineage.
pub open spec fn declined_to<L: Lexer>(f: Input<L>, g: Input<L>, c: Checkpoint<L::State>) -> bool {
    &&& released_hold(f.spec_pinned(), g.spec_pinned(), c.spec_id())
    &&& exists|m: Input<L>|
        (#[trigger] restored_to(f, m, c) || (!restorable(m.spec_live(), m.spec_pinned(), c.spec_id()) && rewound_to(f, m, c))) && m.same_stream(&g) && m.same_frame(&g)
            && m.spec_live() == g.spec_live() && m.spec_next_id() == g.spec_next_id() && m.spec_pinned()
            == f.spec_pinned()
}

/// `f` is what keeping a speculation that held the checkpoint `c` makes of `g`, the input the
/// speculation left: its progress stands, one hold on `c` is released and `c` leaves the live
/// lineage.
pub open spec fn kept_from<L: Lexer>(f: Input<L>, g: Input<L>, c: Checkpoint<L::State>) -> bool {
    &&& f.same_stream(&g)
    &&& f.same_frame(&g)
    &&& released_hold(f.spec_pinned(), g.spec_pinned(), c.spec_id())
    &&& forgot_checkpoint(f.spec_live(), g.spec_live(), c.spec_id())
    &&& f.spec_next_id() == g.spec_next_id()
    &&& g.wf() ==> f.wf()
}

/// A declined speculation returns to where it began: when it left the input's frame, every
/// checkpoint that was live at the start (later ones may follow) and no holds of its own, the
/// input goes back to the entry's live lineage and holds, frame, committed position, state (a
/// clone of it), poison boundary and dedup watermark, with the diagnostics cut back to the
/// entry's; and when it only looked further ahead (nothing taken off the cache, which kept
/// the entry's tokens first), to the entry's cache too. Checkpoint ids are never reused, so
/// the next id stays where the speculation left it.
pub proof fn lemma_declined_attempt_returns_to_entry<L: Lexer>(
    a: Input<L>,
    c: Checkpoint<L::State>,
    g: Input<L>,
    f: Input<L>,
)
    requires
        a.wf(),
        saved_from(c, a),
        forall|i: int| 0 <= i < a.spec_pinned().len() ==> a.spec_pinned()[i] < a.spec_next_id(),
        g.wf(),
        g.same_frame(&a),
        a.spec_live().len() < g.spec_live().len(),
        g.spec_live().subrange(0, a.spec_live().len() + 1int) == a.spec_live().push(c.spec_id()),
        g.spec_pinned() == a.spec_pinned().push(c.spec_id()),
        g.spec_log().len() >= a.spec_log().len(),
        declined_to(f, g, c),
    ensures
        f.same_frame(&a),
        f.spec_live() == a.spec_live(),
        f.spec_pinned() == a.spec_pinned(),
        f.spec_span() == a.spec_span(),
        cloned(a.spec_state(), f.spec_state()),
        f.spec_boundary() == a.spec_boundary(),
        f.spec_watermark() == a.spec_watermark(),
        f.spec_log() == g.spec_log().subrange(0, a.spec_log().len() as int),
        g.spec_pops() == c.spec_pops() && a.spec_cache().len() <= g.spec_cache().len() && g.spec_cache().subrange(
            0,
            a.spec_cache().len() as int,
        ) == a.spec_cache() && c.spec_pushes() + (g.spec_cache().len() - a.spec_cache().len()) == g.spec_pushes()
            ==> f.spec_cache() == a.spec_cache(),
{
    let id = c.spec_id();
    let n = a.spec_live().len();
    let m = choose|m: Input<L>|
        (#[trigger] restored_to(f, m, c) || (!restorable(m.spec_live(), m.spec_pinned(), c.spec_id()) && rewound_to(f, m, c))) && m.same_stream(&g) && m.same_frame(&g)
            && m.spec_live() == g.spec_live() && m.spec_next_id() == g.spec_next_id() && m.spec_pinned()
            == f.spec_pinned();
    assert(!a.spec_pinned().contains(id));
    assert(g.spec_pinned()[a.spec_pinned().len() as int] == id);
    assert(f.spec_pinned() == a.spec_pinned()) by {
        let i = choose|i: int|
            0 <= i < g.spec_pinned().len() && g.spec_pinned()[i] == id && (forall|j: int|
                0 <= j < i ==> g.spec_pinned()[j] != id) && f.spec_pinned() == #[trigger] g.spec_pinned().remove(i);
        if i < a.spec_pinned().len() {
            assert(a.spec_pinned()[i] == g.spec_pinned()[i]);
        }
        assert(g.spec_pinned().remove(i) =~= a.spec_pinned());
    }
    assert(g.spec_live()[n as int] == id) by {
        assert(g.spec_live().subrange(0, n + 1int)[n as int] == id);
    }
    assert forall|j: int| 0 <= j < n implies #[trigger] g.spec_live()[j] == a.spec_live()[j] by {
        assert(g.spec_live().subrange(0, n + 1int)[j] == a.spec_live().push(id)[j]);
    }
    // Restoring the begin point is allowed: no hold is on it or on anything after it.
    assert(restorable(m.spec_live(), m.spec_pinned(), id)) by {
        assert(m.spec_live().contains(id)) by {
            assert(m.spec_live()[n as int] == id);
        }
        assert forall|i: int, j: int|
            #![trigger m.spec_live()[i], m.spec_live()[j]]
            0 <= i <= j < m.spec_live().len() && m.spec_live()[i] == id implies !m.spec_pinned().contains(
            m.spec_live()[j],
        ) by {
            if i != n as int {
                if i < n {
                    assert(m.spec_live()[i] < m.spec_live()[n as int]);
                } else {
                    assert(m.spec_live()[n as int] < m.spec_live()[i]);
                }
            }
            assert(id <= m.spec_live()[j]);
            if m.spec_pinned().contains(m.spec_live()[j]) {
                let k = choose|k: int| 0 <= k < m.spec_pinned().len() && m.spec_pinned()[k] == m.spec_live()[j];
                assert(a.spec_pinned()[k] < a.spec_next_id());
            }
        }
    }
    if restored_to(f, m, c) {
        let k = f.spec_live().len() as int;
        assert(m.spec_live()[k] == id);
        if k != n as int {
            if k < n {
                assert(m.spec_live()[k] < m.spec_live()[n as int]);
            } else {
                assert(m.spec_live()[n as int] < m.spec_live()[k]);
            }
        }
        assert(f.spec_live() =~= a.spec_live()) by {
            assert forall|j: int| 0 <= j < n implies f.spec_live()[j] == a.spec_live()[j] by {
                assert(f.spec_live()[j] == m.spec_live().subrange(0, k)[j]);
            }
        }
    }
}

/// A rolled-back transaction returns to where it began, on the same terms as a declined
/// speculation (see [`lemma_declined_attempt_returns_to_entry`]).
pub proof fn lemma_rollback_returns_to_begin<L: Lexer>(a: Input<L>, c: Checkpoint<L::State>, g: Input<L>, f: Input<L>)
    requires
        a.wf(),
        saved_from(c, a),
        forall|i: int| 0 <= i < a.spec_pinned().len() ==> a.spec_pinned()[i] < a.spec_next_id(),
        g.wf(),
        g.same_frame(&a),
        a.spec_live().len() < g.spec_live().len(),
        g.spec_live().subrange(0, a.spec_live().len() + 1int) == a.spec_live().push(c.spec_id()),
        g.spec_pinned() == a.spec_pinned().push(c.spec_id()),
        g.spec_log().len() >= a.spec_log().len(),
        rolled_back_to(f, g, c),
    ensures
        f.same_frame(&a),
        f.spec_live() == a.spec_live(),
        f.spec_pinned() == a.spec_pinned(),
        f.spec_span() == a.spec_span(),
        cloned(a.spec_state(), f.spec_state()),
        f.spec_boundary() == a.spec_boundary(),
        f.spec_watermark() == a.spec_watermark(),
        f.spec_log() == g.spec_log().subrange(0, a.spec_log().len() as int),
        g.spec_pops() == c.spec_pops() && a.spec_cache().len() <= g.spec_cache().len() && g.spec_cache().subrange(
            0,
            a.spec_cache().len() as int,
        ) == a.spec_cache() && c.spec_pushes() + (g.spec_cache().len() - a.spec_cache().len()) == g.spec_pushes()
            ==> f.spec_cache() == a.spec_cache(),
{
    let m = choose|m: Input<L>|
        #[trigger] restored_to(f, m, c) && m.same_stream(&g) && m.same_frame(&g) && m.spec_live() == g.spec_live()
            && m.spec_next_id() == g.spec_next_id() && m.spec_pinned() == f.spec_pinned();
    assert(restored_to(f, m, c));
    assert(declined_to(f, g, c));
    lemma_declined_attempt_returns_to_entry(a, c, g, f);
}

/// Whether restoring `c` on `b` keeps the cached tokens lexed before the snapshot: none was
/// consumed since, the tokens cached since are all still there, and the ones before them lie
/// at or after the snapshot's position.
pub open spec fn cache_kept<L: Lexer>(b: Input<L>, c: Checkpoint<L::State>) -> bool {
    &&& b.spec_pops() == c.spec_pops()
    &&& c.spec_pushes() <= b.spec_pushes()
    &&& b.spec_pushes() - c.spec_pushes() <= b.spec_cache().len()
    &&& b.spec_cache().len() > b.spec_pushes() - c.spec_pushes() ==> c.spec_span().end
        <= b.spec_cache()[0].token.span.start
}

/// Restoring a checkpoint returns the input to where the checkpoint was taken: when the
/// diagnostics recorded in between were only added to, the committed position, the
/// diagnostics, the dedup watermark and the cache counters are those at the save, the lexer
/// state is the snapshot's clone of the state then, and the poison boundary is the one then.
pub proof fn lemma_restore_returns_to_save<L: Lexer>(
    a: Input<L>,
    c: Checkpoint<L::State>,
    b: Input<L>,
    f: Input<L>,
)
    requires
        saved_from(c, a),
        extends(a.spec_log(), b.spec_log()),
        restored_to(f, b, c),
    ensures
        f.spec_span() == a.spec_span(),
        cloned(a.spec_state(), f.spec_state()),
        f.spec_log() == a.spec_log(),
        f.spec_watermark() == a.spec_watermark(),
        f.spec_pushes() == a.spec_pushes(),
        f.spec_pops() == a.spec_pops(),
        f.spec_boundary() == a.spec_boundary(),
{
    if c.spec_mark() >= b.spec_log().len() {
        assert(b.spec_log() =~= b.spec_log().subrange(0, a.spec_log().len() as int));
    }
}

/// Restoring a checkpoint right after saving it gives back the input as it was: the same
/// committed position, cache, diagnostics, watermark, poison boundary and lineage, with the
/// lexer state replaced by the snapshot's clone of it.
pub proof fn lemma_save_then_restore_is_identity<L: Lexer>(
    a: Input<L>,
    c: Checkpoint<L::State>,
    b: Input<L>,
    f: Input<L>,
)
    requires
        a.wf(),
        saved_from(c, a),
        b.same_stream(&a),
        b.spec_live() == a.spec_live().push(c.spec_id()),
        restored_to(f, b, c),
    ensures
        f.spec_span() == a.spec_span(),
        cloned(a.spec_state(), f.spec_state()),
        f.spec_cache() == a.spec_cache(),
        f.spec_log() == a.spec_log(),
        f.spec_watermark() == a.spec_watermark(),
        f.spec_boundary() == a.spec_boundary(),
        f.spec_live() == a.spec_live(),
        f.spec_pushes() == a.spec_pushes(),
        f.spec_pops() == a.spec_pops(),
{
    assert(cache_kept(b, c));
    assert(b.spec_cache().subrange(0, b.spec_cache().len() as int) =~= b.spec_cache());
    let k = f.spec_live().len() as int;
    if k < a.spec_live().len() {
        assert(b.spec_live()[k] == a.spec_live()[k]);
        assert(a.spec_live()[k] < a.spec_next_id());
    }
    assert(f.spec_live() =~= a.spec_live());
    assert(f.spec_log() =~= a.spec_log());
}

/// How a scan from a position ends.
pub enum ScanEnd<T, S> {
    /// A token, with the lexer state after it.
    Token(Spanned<T>, S),
    /// A resource-limit trip on the item lexed from the given position; `true` when a
    /// fail-fast emitter refused its diagnostic.
    Trip(usize, bool),
    /// The end of the input, reached at the given position.
    End(usize),
    /// The poison boundary, reached at the given position.
    Stop(usize),
    /// A lexer error at the given span whose diagnostic a fail-fast emitter refused.
    Refused(SimpleSpan),
}

/// How scanning `src` from `at` in `state` ends: lexer errors on the way are passed over
/// (and reported, unless they start before the dedup watermark `wm`, which each reported
/// error lifts to its end), unless `fatal` (a fail-fast emitter) refuses the report; the scan
/// stops at the poison boundary, at the end of the input, at a resource-limit trip, or at the
/// first token.
pub open spec fn scan_end<L: Lexer>(
    src: L::Source,
    state: L::State,
    at: usize,
    boundary: Option<usize>,
    wm: usize,
    fatal: bool,
) -> ScanEnd<L::Token, L::State>
    decreases L::spec_source_len(src) - at,
{
    if boundary matches Some(b) && b <= at {
        ScanEnd::Stop(at)
    } else {
        match L::spec_item_at(src, state, at) {
            None => ScanEnd::End(at),
            Some(x) => {
                let sp = x.0;
                if !(at <= sp.start && sp.start < sp.end && sp.end <= L::spec_source_len(src)) {
                    ScanEnd::End(at)
                } else if L::spec_check_state(x.2) is Err {
                    ScanEnd::Trip(at, fatal && wm <= sp.start)
                } else {
                    match x.1 {
                        Ok(tok) => ScanEnd::Token(Spanned { span: sp, data: tok }, x.2),
                        Err(_) => if wm <= sp.start {
                            if fatal {
                                ScanEnd::Refused(sp)
                            } else {
                                scan_end::<L>(
                                    src,
                                    x.2,
                                    sp.end,
                                    boundary,
                                    if wm < sp.end {
                                        sp.end
                                    } else {
                                        wm
                                    },
                                    fatal,
                                )
                            }
                        } else {
                            scan_end::<L>(src, x.2, sp.end, boundary, wm, fatal)
                        },
                    }
                }
            },
        }
    }
}

/// The dedup watermark after scanning `src` from `at` in `state` as [`scan_end`] describes,
/// up to the token or the end where the scan stops.
pub open spec fn scan_wm<L: Lexer>(
    src: L::Source,
    state: L::State,
    at: usize,
    boundary: Option<usize>,
    wm: usize,
    fatal: bool,
) -> usize
    decreases L::spec_source_len(src) - at,
{
    if boundary matches Some(b) && b <= at {
        wm
    } else {
        match L::spec_item_at(src, state, at) {
            None => wm,
            Some(x) => {
                let sp = x.0;
                if !(at <= sp.start && sp.start < sp.end && sp.end <= L::spec_source_len(src)) {
                    wm
                } else if L::spec_check_state(x.2) is Err {
                    wm
                } else {
                    match x.1 {
                        Ok(_) => wm,
                        Err(_) => if wm <= sp.start {
                            scan_wm::<L>(
                                src,
                                x.2,
                                sp.end,
                                boundary,
                                if wm < sp.end {
                                    sp.end
                                } else {
                                    wm
                                },
                                fatal,
                            )
                        } else {
                            scan_wm::<L>(src, x.2, sp.end, boundary, wm, fatal)
                        },
                    }
                }
            },
        }
    }
}

/// The dedup watermark once a scan of `src` from `at` in `state` as [`scan_end`] describes has
/// stopped, whatever it stopped at: [`scan_wm`], lifted over the item a resource-limit trip or
/// a refused lexer error stopped it on, when that item was reported.
#[verifier::opaque]
pub open spec fn scan_wm_after<L: Lexer>(
    src: L::Source,
    state: L::State,
    at: usize,
    boundary: Option<usize>,
    wm: usize,
    fatal: bool,
) -> usize
    decreases L::spec_source_len(src) - at,
{
    if boundary matches Some(b) && b <= at {
        wm
    } else {
        match L::spec_item_at(src, state, at) {
            None => wm,
            Some(x) => {
                let sp = x.0;
                let lifted = if wm <= sp.start && wm < sp.end {
                    sp.end
                } else {
                    wm
                };
                if !(at <= sp.start && sp.start < sp.end && sp.end <= L::spec_source_len(src)) {
                    wm
                } else if L::spec_check_state(x.2) is Err {
                    lifted
                } else {
                    match x.1 {
                        Ok(_) => wm,
                        Err(_) => if wm <= sp.start {
                            if fatal {
                                lifted
                            } else {
                                scan_wm_after::<L>(src, x.2, sp.end, boundary, lifted, fatal)
                            }
                        } else {
                            scan_wm_after::<L>(src, x.2, sp.end, boundary, wm, fatal)
                        },
                    }
                }
            },
        }
    }
}

/// Whether `wm_final` is the dedup watermark once a scan of `src` from `at` in `state` has
/// stopped ([`scan_wm_after`]).
#[verifier::opaque]
pub open spec fn wm_settled<L: Lexer>(
    src: L::Source,
    state: L::State,
    at: usize,
    boundary: Option<usize>,
    wm: usize,
    fatal: bool,
    wm_final: usize,
) -> bool {
    wm_final == scan_wm_after::<L>(src, state, at, boundary, wm, fatal)
}

/// The error whose diagnostic a fail-fast emitter refuses when it stops a scan of `src` from
/// `at` in `state` as [`scan_end`] describes: the resource limiter's report at a trip, or the
/// lexer error the scan stopped on; `None` where the scan stops otherwise.
pub open spec fn scan_refusal<L: Lexer>(
    src: L::Source,
    state: L::State,
    at: usize,
    boundary: Option<usize>,
    wm: usize,
    fatal: bool,
) -> Option<ErrorOf<L>>
    decreases L::spec_source_len(src) - at,
{
    if boundary matches Some(b) && b <= at {
        None
    } else {
        match L::spec_item_at(src, state, at) {
            None => None,
            Some(x) => {
                let sp = x.0;
                if !(at <= sp.start && sp.start < sp.end && sp.end <= L::spec_source_len(src)) {
                    None
                } else if L::spec_check_state(x.2) is Err {
                    if fatal && wm <= sp.start {
                        Some(L::spec_check_state(x.2)->Err_0)
                    } else {
                        None
                    }
                } else {
                    match x.1 {
                        Ok(_) => None,
                        Err(e) => if wm <= sp.start {
                            if fatal {
                                Some(e)
                            } else {
                                scan_refusal::<L>(
                                    src,
                                    x.2,
                                    sp.end,
                                    boundary,
                                    if wm < sp.end {
                                        sp.end
                                    } else {
                                        wm
                                    },
                                    fatal,
                                )
                            }
                        } else {
                            scan_refusal::<L>(src, x.2, sp.end, boundary, wm, fatal)
                        },
                    }
                }
            },
        }
    }
}

/// The diagnostics a recording emitter is handed while scanning `src` from `at` in `state`
/// as [`scan_end`] describes (with an emitter that does not fail fast): each lexer error passed
/// over that starts at or after the dedup watermark `wm` (which each one lifts to its end), and
/// the resource-limit trip that stops the scan, if it starts at or after the watermark.
pub open spec fn scan_log<L: Lexer>(
    src: L::Source,
    state: L::State,
    at: usize,
    boundary: Option<usize>,
    wm: usize,
) -> Seq<Emission<ErrorOf<L>>>
    decreases L::spec_source_len(src) - at,
{
    if boundary matches Some(b) && b <= at {
        Seq::empty()
    } else {
        match L::spec_item_at(src, state, at) {
            None => Seq::empty(),
            Some(x) => {
                let sp = x.0;
                if !(at <= sp.start && sp.start < sp.end && sp.end <= L::spec_source_len(src)) {
                    Seq::empty()
                } else if L::spec_check_state(x.2) is Err {
                    if wm <= sp.start {
                        seq![Emission::Error { span: sp, error: L::spec_check_state(x.2)->Err_0 }]
                    } else {
                        Seq::empty()
                    }
                } else {
                    match x.1 {
                        Ok(_) => Seq::empty(),
                        Err(e) => if wm <= sp.start {
                            seq![Emission::Error { span: sp, error: e }] + scan_log::<L>(
                                src,
                                x.2,
                                sp.end,
                                boundary,
                                if wm < sp.end {
                                    sp.end
                                } else {
                                    wm
                                },
                            )
                        } else {
                            scan_log::<L>(src, x.2, sp.end, boundary, wm)
                        },
                    }
                }
            },
        }
    }
}

/// The diagnostics `log` are errors at nonempty spans in source order, none overlapping the
/// next, none starting before `wm`.
pub open spec fn errors_in_order_from<E>(log: Seq<Emission<E>>, wm: usize) -> bool {
    &&& forall|i: int|
        0 <= i < log.len() ==> (#[trigger] log[i] matches Emission::Error { span, .. } && wm <= span.start
            && span.start < span.end)
    &&& forall|i: int, j: int|
        0 <= i < j < log.len() ==> (#[trigger] log[i] matches Emission::Error { span: a, .. } && #[trigger] log[j] matches Emission::Error { span: b, .. }
            && a.end <= b.start)
}

/// The diagnostics `log` all end at or before `limit`.
pub open spec fn errors_end_by<E>(log: Seq<Emission<E>>, limit: usize) -> bool {
    forall|i: int| 0 <= i < log.len() ==> (#[trigger] log[i] matches Emission::Error { span, .. } && span.end <= limit)
}

/// A scan hands a recording emitter its lexer errors in source order, each reported at most
/// once: none starts before the dedup watermark, none overlaps the next; and when the scan
/// ends in a token, every one of them ends before the watermark the scan leaves behind.
pub proof fn lemma_scan_log_in_order<L: Lexer>(
    src: L::Source,
    state: L::State,
    at: usize,
    boundary: Option<usize>,
    wm: usize,
)
    ensures
        errors_in_order_from(scan_log::<L>(src, state, at, boundary, wm), wm),
        wm <= scan_wm::<L>(src, state, at, boundary, wm, false),
        scan_end::<L>(src, state, at, boundary, wm, false) is Token ==> errors_end_by(
            scan_log::<L>(src, state, at, boundary, wm),
            scan_wm::<L>(src, state, at, boundary, wm, false),
        ),
    decreases L::spec_source_len(src) - at,
{
    if boundary matches Some(b) && b <= at {
    } else {
        match L::spec_item_at(src, state, at) {
            None => {},
            Some(x) => {
                let sp = x.0;
                if !(at <= sp.start && sp.start < sp.end && sp.end <= L::spec_source_len(src)) {
                } else if L::spec_check_state(x.2) is Err {
                } else {
                    match x.1 {
                        Ok(_) => {},
                        Err(e) => {
                            let wm2 = if wm <= sp.start && wm < sp.end {
                                sp.end
                            } else {
                                wm
                            };
                            lemma_scan_log_in_order::<L>(src, x.2, sp.end, boundary, wm2);
                            let rest = scan_log::<L>(src, x.2, sp.end, boundary, wm2);
                            if wm <= sp.start {
                                let head = seq![Emission::Error { span: sp, error: e }];
                                let all = head + rest;
                                assert(all == scan_log::<L>(src, state, at, boundary, wm));
                                assert forall|i: int| 0 <= i < all.len() implies (#[trigger] all[i] matches Emission::Error {
                                    span,
                                    ..
                                } && wm <= span.start && span.start < span.end) by {
                                    if i > 0 {
                                        assert(all[i] == rest[i - 1]);
                                    }
                                }
                                assert forall|i: int, j: int| 0 <= i < j < all.len() implies (#[trigger] all[i] matches Emission::Error {
                                    span: a,
                                    ..
                                } && #[trigger] all[j] matches Emission::Error { span: b, .. } && a.end <= b.start) by {
                                    assert(all[j] == rest[j - 1]);
                                    if i > 0 {
                                        assert(all[i] == rest[i - 1]);
                                    }
                                }
                                if scan_end::<L>(src, state, at, boundary, wm, false) is Token {
                                    assert forall|i: int| 0 <= i < all.len() implies (#[trigger] all[i] matches Emission::Error {
                                        span,
                                        ..
                                    } && span.end <= scan_wm::<L>(src, state, at, boundary, wm, false)) by {
                                        if i > 0 {
                                            assert(all[i] == rest[i - 1]);
                                        }
                                    }
                                }
                            }
                        },
                    }
                }
            },
        }
    }
}

/// `toks` (each token with the lexer state after it) are the tokens that successive scans of
/// `src` yield from `at` in `state`, each scan resuming where the last one stopped, and the
/// scans end in the state `st_end` at `at_end` with the dedup watermark `wm_end`.
pub open spec fn scan_chain<L: Lexer>(
    src: L::Source,
    state: L::State,
    at: usize,
    boundary: Option<usize>,
    wm: usize,
    fatal: bool,
    toks: Seq<(Spanned<L::Token>, L::State)>,
    st_end: L::State,
    at_end: usize,
    wm_end: usize,
) -> bool
    decreases toks.len(),
{
    if toks.len() == 0 {
        state == st_end && at == at_end && wm == wm_end
    } else {
        scan_end::<L>(src, state, at, boundary, wm, fatal) == ScanEnd::<L::Token, L::State>::Token(
            toks[0].0,
            toks[0].1,
        ) && scan_chain::<L>(
            src,
            toks[0].1,
            toks[0].0.span.end,
            boundary,
            scan_wm::<L>(src, state, at, boundary, wm, fatal),
            fatal,
            toks.drop_first(),
            st_end,
            at_end,
            wm_end,
        )
    }
}

/// A chain of scans extends by the token the next scan yields.
pub proof fn lemma_scan_chain_push<L: Lexer>(
    src: L::Source,
    state: L::State,
    at: usize,
    boundary: Option<usize>,
    wm: usize,
    fatal: bool,
    toks: Seq<(Spanned<L::Token>, L::State)>,
    st_end: L::State,
    at_end: usize,
    wm_end: usize,
    t: Spanned<L::Token>,
    st: L::State,
)
    requires
        scan_chain::<L>(src, state, at, boundary, wm, fatal, toks, st_end, at_end, wm_end),
        scan_end::<L>(src, st_end, at_end, boundary, wm_end, fatal) == ScanEnd::<L::Token, L::State>::Token(t, st),
    ensures
        scan_chain::<L>(
            src,
            state,
            at,
            boundary,
            wm,
            fatal,
            toks.push((t, st)),
            st,
            t.span.end,
            scan_wm::<L>(src, st_end, at_end, boundary, wm_end, fatal),
        ),
    decreases toks.len(),
{
    if toks.len() == 0 {
        let p = toks.push((t, st));
        assert(p.drop_first() =~= Seq::<(Spanned<L::Token>, L::State)>::empty());
        assert(p[0] == (t, st));
        assert(scan_chain::<L>(
            src,
            st,
            t.span.end,
            boundary,
            scan_wm::<L>(src, state, at, boundary, wm, fatal),
            fatal,
            p.drop_first(),
            st,
            t.span.end,
            scan_wm::<L>(src, st_end, at_end, boundary, wm_end, fatal),
        ));
    } else {
        lemma_scan_chain_push::<L>(
            src,
            toks[0].1,
            toks[0].0.span.end,
            boundary,
            scan_wm::<L>(src, state, at, boundary, wm, fatal),
            fatal,
            toks.drop_first(),
            st_end,
            at_end,
            wm_end,
            t,
            st,
        );
        let p = toks.push((t, st));
        assert(p.drop_first() =~= toks.drop_first().push((t, st)));
        assert(p[0] == toks[0]);
    }
}

/// Lexing is deterministic: two runs of successive scans from the same start agree on every
/// token both reach, however the tokens were read (all at once or a few at a time), and runs
/// of the same length end alike.
pub proof fn lemma_scan_chain_prefix<L: Lexer>(
    src: L::Source,
    state: L::State,
    at: usize,
    boundary: Option<usize>,
    wm: usize,
    fatal: bool,
    toks1: Seq<(Spanned<L::Token>, L::State)>,
    st_end1: L::State,
    at_end1: usize,
    wm_end1: usize,
    toks2: Seq<(Spanned<L::Token>, L::State)>,
    st_end2: L::State,
    at_end2: usize,
    wm_end2: usize,
)
    requires
        scan_chain::<L>(src, state, at, boundary, wm, fatal, toks1, st_end1, at_end1, wm_end1),
        scan_chain::<L>(src, state, at, boundary, wm, fatal, toks2, st_end2, at_end2, wm_end2),
        toks1.len() <= toks2.len(),
    ensures
        toks1 == toks2.subrange(0, toks1.len() as int),
        toks1.len() == toks2.len() ==> st_end1 == st_end2 && at_end1 == at_end2 && wm_end1 == wm_end2,
    decreases toks1.len(),
{
    if toks1.len() == 0 {
        assert(toks1 =~= toks2.subrange(0, 0));
    } else {
        assert(toks1[0] == toks2[0]);
        lemma_scan_chain_prefix::<L>(
            src,
            toks1[0].1,
            toks1[0].0.span.end,
            boundary,
            scan_wm::<L>(src, state, at, boundary, wm, fatal),
            fatal,
            toks1.drop_first(),
            st_end1,
            at_end1,
            wm_end1,
            toks2.drop_first(),
            st_end2,
            at_end2,
            wm_end2,
        );
        assert forall|i: int| 0 <= i < toks1.len() implies toks1[i] == toks2[i] by {
            if i > 0 {
                assert(toks1.drop_first()[i - 1] == toks2.drop_first().subrange(0, toks1.len() - 1)[i - 1]);
            }
        }
        assert(toks1 =~= toks2.subrange(0, toks1.len() as int));
    }
}

/// Lexing in two steps is lexing in one: a run of scans that resumes where another ended
/// (in its end state, at its end position, with its watermark) extends it.
pub proof fn lemma_scan_chain_append<L: Lexer>(
    src: L::Source,
    state: L::State,
    at: usize,
    boundary: Option<usize>,
    wm: usize,
    fatal: bool,
    toks1: Seq<(Spanned<L::Token>, L::State)>,
    st_mid: L::State,
    at_mid: usize,
    wm_mid: usize,
    toks2: Seq<(Spanned<L::Token>, L::State)>,
    st_end: L::State,
    at_end: usize,
    wm_end: usize,
)
    requires
        scan_chain::<L>(src, state, at, boundary, wm, fatal, toks1, st_mid, at_mid, wm_mid),
        scan_chain::<L>(src, st_mid, at_mid, boundary, wm_mid, fatal, toks2, st_end, at_end, wm_end),
    ensures
        scan_chain::<L>(src, state, at, boundary, wm, fatal, toks1 + toks2, st_end, at_end, wm_end),
    decreases toks1.len(),
{
    if toks1.len() == 0 {
        assert(toks1 + toks2 =~= toks2);
    } else {
        lemma_scan_chain_append::<L>(
            src,
            toks1[0].1,
            toks1[0].0.span.end,
            boundary,
            scan_wm::<L>(src, state, at, boundary, wm, fatal),
            fatal,
            toks1.drop_first(),
            st_mid,
            at_mid,
            wm_mid,
            toks2,
            st_end,
            at_end,
            wm_end,
        );
        assert((toks1 + toks2).drop_first() =~= toks1.drop_first() + toks2);
        assert((toks1 + toks2)[0] == toks1[0]);
    }
}

/// The diagnostics a recording emitter is handed by the successive scans of `src` from `at` in
/// `state` that yield the tokens `toks` (see [`scan_chain`]).
pub open spec fn chain_log<L: Lexer>(
    src: L::Source,
    state: L::State,
    at: usize,
    boundary: Option<usize>,
    wm: usize,
    toks: Seq<(Spanned<L::Token>, L::State)>,
) -> Seq<Emission<ErrorOf<L>>>
    decreases toks.len(),
{
    if toks.len() == 0 {
        Seq::empty()
    } else {
        scan_log::<L>(src, state, at, boundary, wm) + chain_log::<L>(
            src,
            toks[0].1,
            toks[0].0.span.end,
            boundary,
            scan_wm::<L>(src, state, at, boundary, wm, false),
            toks.drop_first(),
        )
    }
}

/// The diagnostics of a chain of scans extended by one token are those of the chain followed by
/// those of the scan that yields it.
pub proof fn lemma_chain_log_push<L: Lexer>(
    src: L::Source,
    state: L::State,
    at: usize,
    boundary: Option<usize>,
    wm: usize,
    toks: Seq<(Spanned<L::Token>, L::State)>,
    st_end: L::State,
    at_end: usize,
    wm_end: usize,
    t: Spanned<L::Token>,
    st: L::State,
)
    requires
        scan_chain::<L>(src, state, at, boundary, wm, false, toks, st_end, at_end, wm_end),
    ensures
        chain_log::<L>(src, state, at, boundary, wm, toks.push((t, st))) == chain_log::<L>(
            src,
            state,
            at,
            boundary,
            wm,
            toks,
        ) + scan_log::<L>(src, st_end, at_end, boundary, wm_end),
    decreases toks.len(),
{
    let p = toks.push((t, st));
    if toks.len() == 0 {
        assert(p.drop_first() =~= Seq::<(Spanned<L::Token>, L::State)>::empty());
        assert(chain_log::<L>(
            src,
            p[0].1,
            p[0].0.span.end,
            boundary,
            scan_wm::<L>(src, state, at, boundary, wm, false),
            p.drop_first(),
        ) =~= Seq::<Emission<ErrorOf<L>>>::empty());
        assert(state == st_end && at == at_end && wm == wm_end);
        assert(scan_log::<L>(src, state, at, boundary, wm) + Seq::<Emission<ErrorOf<L>>>::empty() =~= scan_log::<L>(
            src,
            state,
            at,
            boundary,
            wm,
        ));
        assert(Seq::<Emission<ErrorOf<L>>>::empty() + scan_log::<L>(src, state, at, boundary, wm) =~= scan_log::<L>(
            src,
            state,
            at,
            boundary,
            wm,
        ));
    } else {
        lemma_chain_log_push::<L>(
            src,
            toks[0].1,
            toks[0].0.span.end,
            boundary,
            scan_wm::<L>(src, state, at, boundary, wm, false),
            toks.drop_first(),
            st_end,
            at_end,
            wm_end,
            t,
            st,
        );
        assert(p.drop_first() =~= toks.drop_first().push((t, st)));
        assert(p[0] == toks[0]);
        let a = scan_log::<L>(src, state, at, boundary, wm);
        let b = chain_log::<L>(
            src,
            toks[0].1,
            toks[0].0.span.end,
            boundary,
            scan_wm::<L>(src, state, at, boundary, wm, false),
            toks.drop_first(),
        );
        let c = scan_log::<L>(src, st_end, at_end, boundary, wm_end);
        assert(chain_log::<L>(src, state, at, boundary, wm, toks) == a + b);
        assert(chain_log::<L>(src, state, at, boundary, wm, p) == a + chain_log::<L>(
            src,
            toks[0].1,
            toks[0].0.span.end,
            boundary,
            scan_wm::<L>(src, state, at, boundary, wm, false),
            toks.drop_first().push((t, st)),
        ));
        assert(a + (b + c) =~= (a + b) + c);
    }
}

/// Successive scans hand a recording emitter their lexer errors in source order, each at most
/// once: none starts before the dedup watermark they start from, none overlaps the next, and
/// all end before the watermark they leave behind.
pub proof fn lemma_chain_log_in_order<L: Lexer>(
    src: L::Source,
    state: L::State,
    at: usize,
    boundary: Option<usize>,
    wm: usize,
    toks: Seq<(Spanned<L::Token>, L::State)>,
    st_end: L::State,
    at_end: usize,
    wm_end: usize,
)
    requires
        scan_chain::<L>(src, state, at, boundary, wm, false, toks, st_end, at_end, wm_end),
    ensures
        errors_in_order_from(chain_log::<L>(src, state, at, boundary, wm, toks), wm),
        errors_end_by(chain_log::<L>(src, state, at, boundary, wm, toks), wm_end),
        wm <= wm_end,
    decreases toks.len(),
{
    if toks.len() > 0 {
        let wm1 = scan_wm::<L>(src, state, at, boundary, wm, false);
        lemma_scan_log_in_order::<L>(src, state, at, boundary, wm);
        lemma_chain_log_in_order::<L>(
            src,
            toks[0].1,
            toks[0].0.span.end,
            boundary,
            wm1,
            toks.drop_first(),
            st_end,
            at_end,
            wm_end,
        );
        let a = scan_log::<L>(src, state, at, boundary, wm);
        let b = chain_log::<L>(src, toks[0].1, toks[0].0.span.end, boundary, wm1, toks.drop_first());
        let all = a + b;
        assert(all == chain_log::<L>(src, state, at, boundary, wm, toks));
        assert forall|i: int| 0 <= i < all.len() implies (#[trigger] all[i] matches Emission::Error { span, .. }
            && wm <= span.start && span.start < span.end) by {
            if i < a.len() {
                assert(all[i] == a[i]);
            } else {
                assert(all[i] == b[i - a.len()]);
            }
        }
        assert forall|i: int, j: int| 0 <= i < j < all.len() implies (#[trigger] all[i] matches Emission::Error {
            span: x,
            ..
        } && #[trigger] all[j] matches Emission::Error { span: y, .. } && x.end <= y.start) by {
            if j < a.len() {
                assert(all[i] == a[i] && all[j] == a[j]);
            } else if i < a.len() {
                assert(all[i] == a[i] && all[j] == b[j - a.len()]);
            } else {
                assert(all[i] == b[i - a.len()] && all[j] == b[j - a.len()]);
            }
        }
        assert forall|i: int| 0 <= i < all.len() implies (#[trigger] all[i] matches Emission::Error { span, .. }
            && span.end <= wm_end) by {
            if i < a.len() {
                assert(all[i] == a[i]);
            } else {
                assert(all[i] == b[i - a.len()]);
            }
        }
    }
}

/// The diagnostics a recording emitter is handed by the successive scans that yield the
/// tokens `toks` (see [`chain_log`]) when, where `reporting`, each token is reported right
/// after its scan with the matching error of `errs`.
pub open spec fn sync_log<L: Lexer>(
    src: L::Source,
    state: L::State,
    at: usize,
    boundary: Option<usize>,
    wm: usize,
    toks: Seq<(Spanned<L::Token>, L::State)>,
    errs: Seq<ErrorOf<L>>,
    reporting: bool,
) -> Seq<Emission<ErrorOf<L>>>
    decreases toks.len(),
{
    if toks.len() == 0 {
        Seq::empty()
    } else {
        scan_log::<L>(src, state, at, boundary, wm) + (if reporting {
            seq![Emission::Error { span: toks[0].0.span, error: errs[0] }]
        } else {
            Seq::empty()
        }) + sync_log::<L>(
            src,
            toks[0].1,
            toks[0].0.span.end,
            boundary,
            scan_wm::<L>(src, state, at, boundary, wm, false),
            toks.drop_first(),
            errs.drop_first(),
            reporting,
        )
    }
}

/// The diagnostics of a synchronization that skips one more token are those before it, then
/// those of the scan that yields it, then its report.
pub proof fn lemma_sync_log_push<L: Lexer>(
    src: L::Source,
    state: L::State,
    at: usize,
    boundary: Option<usize>,
    wm: usize,
    toks: Seq<(Spanned<L::Token>, L::State)>,
    errs: Seq<ErrorOf<L>>,
    reporting: bool,
    st_end: L::State,
    at_end: usize,
    wm_end: usize,
    t: Spanned<L::Token>,
    st: L::State,
    e: ErrorOf<L>,
)
    requires
        scan_chain::<L>(src, state, at, boundary, wm, false, toks, st_end, at_end, wm_end),
        errs.len() == toks.len(),
    ensures
        sync_log::<L>(src, state, at, boundary, wm, toks.push((t, st)), errs.push(e), reporting) == sync_log::<L>(
            src,
            state,
            at,
            boundary,
            wm,
            toks,
            errs,
            reporting,
        ) + scan_log::<L>(src, st_end, at_end, boundary, wm_end) + (if reporting {
            seq![Emission::Error { span: t.span, error: e }]
        } else {
            Seq::empty()
        }),
    decreases toks.len(),
{
    let p = toks.push((t, st));
    let q = errs.push(e);
    let rep = if reporting {
        seq![Emission::Error { span: t.span, error: e }]
    } else {
        Seq::<Emission<ErrorOf<L>>>::empty()
    };
    if toks.len() == 0 {
        assert(p.drop_first() =~= Seq::<(Spanned<L::Token>, L::State)>::empty());
        assert(p[0] == (t, st));
        assert(q[0] == e);
        assert(sync_log::<L>(
            src,
            p[0].1,
            p[0].0.span.end,
            boundary,
            scan_wm::<L>(src, state, at, boundary, wm, false),
            p.drop_first(),
            q.drop_first(),
            reporting,
        ) =~= Seq::<Emission<ErrorOf<L>>>::empty());
        assert(state == st_end && at == at_end && wm == wm_end);
        let a = scan_log::<L>(src, state, at, boundary, wm);
        assert(a + rep + Seq::<Emission<ErrorOf<L>>>::empty() =~= Seq::<Emission<ErrorOf<L>>>::empty() + a + rep);
    } else {
        lemma_sync_log_push::<L>(
            src,
            toks[0].1,
            toks[0].0.span.end,
            boundary,
            scan_wm::<L>(src, state, at, boundary, wm, false),
            toks.drop_first(),
            errs.drop_first(),
            reporting,
            st_end,
            at_end,
            wm_end,
            t,
            st,
            e,
        );
        assert(p.drop_first() =~= toks.drop_first().push((t, st)));
        assert(q.drop_first() =~= errs.drop_first().push(e));
        assert(p[0] == toks[0]);
        assert(q[0] == errs[0]);
        let a = scan_log::<L>(src, state, at, boundary, wm);
        let h = if reporting {
            seq![Emission::Error { span: toks[0].0.span, error: errs[0] }]
        } else {
            Seq::<Emission<ErrorOf<L>>>::empty()
        };
        let b = sync_log::<L>(
            src,
            toks[0].1,
            toks[0].0.span.end,
            boundary,
            scan_wm::<L>(src, state, at, boundary, wm, false),
            toks.drop_first(),
            errs.drop_first(),
            reporting,
        );
        let c = scan_log::<L>(src, st_end, at_end, boundary, wm_end);
        assert(sync_log::<L>(src, state, at, boundary, wm, toks, errs, reporting) == a + h + b);
        assert(a + h + (b + c + rep) =~= (a + h + b) + c + rep);
    }
}

/// `cache` is `before` followed by the tokens `toks`, each cached with a clone of the state
/// after it.
pub open spec fn cached_as<T, S: Clone>(
    cache: Seq<CachedToken<T, S>>,
    before: Seq<CachedToken<T, S>>,
    toks: Seq<(Spanned<T>, S)>,
) -> bool {
    &&& cache.len() == before.len() + toks.len()
    &&& cache.subrange(0, before.len() as int) == before
    &&& forall|i: int|
        0 <= i < toks.len() ==> #[trigger] cache[before.len() + i].token == toks[i].0 && cloned(
            toks[i].1,
            cache[before.len() + i].state,
        )
}

/// Whether a lookahead fill that stopped short of filling up, and `failed` or not, agrees
/// with how the scan after the tokens it cached ends: the end of the input, the poison
/// boundary or an accepted trip, or a refused diagnostic (a failure).
pub open spec fn fill_stop_agrees<T, S>(o: ScanEnd<T, S>, failed: bool) -> bool {
    match o {
        ScanEnd::Token(_, _) => false,
        ScanEnd::Trip(_, refused) => refused == failed,
        ScanEnd::End(_) | ScanEnd::Stop(_) => !failed,
        ScanEnd::Refused(_) => failed,
    }
}

/// Whether a skip that returned `r`, leaving the cache `cache` (of capacity `cap`), agrees
/// with how the scan after the tokens it consumed ends: a token `pred` refuses is staged in
/// the cache when it has room; the end of the input, the poison boundary or an accepted trip
/// leave the cache empty; a refused diagnostic is an error.
pub open spec fn skip_stop_agrees<T, S, E, F: FnMut(&Spanned<T>) -> bool>(
    o: ScanEnd<T, S>,
    r: Result<usize, E>,
    cache: Seq<CachedToken<T, S>>,
    cap: usize,
    pred: F,
) -> bool {
    match o {
        ScanEnd::Token(t, st) => r is Ok && call_ensures(pred, (&t,), false) && (0 < cap ==> cache
            == seq![CachedToken { token: t, state: st }]),
        ScanEnd::Trip(_, refused) => refused == (r is Err) && (!refused ==> cache.len() == 0),
        ScanEnd::End(_) | ScanEnd::Stop(_) => r is Ok && cache.len() == 0,
        ScanEnd::Refused(_) => r is Err,
    }
}

/// `n` counts `len` items, saturating at `usize::MAX`.
pub open spec fn counts(n: usize, len: nat) -> bool {
    n == (if len < usize::MAX {
        len
    } else {
        usize::MAX as nat
    })
}

/// How a scan of `inp` from its committed position, in the state `c`, ends.
pub open spec fn head_end<L: Lexer>(inp: Input<L>, c: L::State) -> ScanEnd<L::Token, L::State> {
    scan_end::<L>(
        inp.spec_src(),
        c,
        inp.spec_cursor(),
        inp.spec_boundary(),
        inp.spec_watermark(),
        inp.spec_policy() == Policy::Fatal,
    )
}

/// The dedup watermark after a scan of `inp` from its committed position in the state `c`
/// that stops at a token, the end of the input or the poison boundary.
pub open spec fn head_wm<L: Lexer>(inp: Input<L>, c: L::State) -> usize {
    scan_wm::<L>(
        inp.spec_src(),
        c,
        inp.spec_cursor(),
        inp.spec_boundary(),
        inp.spec_watermark(),
        inp.spec_policy() == Policy::Fatal,
    )
}

/// The error a fail-fast emitter refuses when it stops a scan of `inp` from its committed
/// position in the state `c`.
pub open spec fn head_refusal<L: Lexer>(inp: Input<L>, c: L::State) -> Option<ErrorOf<L>> {
    scan_refusal::<L>(
        inp.spec_src(),
        c,
        inp.spec_cursor(),
        inp.spec_boundary(),
        inp.spec_watermark(),
        inp.spec_policy() == Policy::Fatal,
    )
}

/// How `after` stands after a scan of `inp` from its committed position in the state `c`: a
/// resource-limit trip latches the poison boundary where the tripping item was lexed from;
/// otherwise the boundary is kept. Where the scan stopped at a token, the end of the input or
/// the poison boundary, the dedup watermark is the scan's; where it stopped at a trip or a
/// refused lexer error, it is the scan's lifted over that item when it was reported
/// ([`wm_settled`]).
pub open spec fn scan_settles<L: Lexer>(inp: Input<L>, c: L::State, after: Input<L>) -> bool {
    match head_end(inp, c) {
        ScanEnd::Trip(p, _) => after.spec_boundary() == Some(p) && wm_settled::<L>(
            inp.spec_src(),
            c,
            inp.spec_cursor(),
            inp.spec_boundary(),
            inp.spec_watermark(),
            inp.spec_policy() == Policy::Fatal,
            after.spec_watermark(),
        ),
        ScanEnd::Refused(_) => after.spec_boundary() == inp.spec_boundary() && wm_settled::<L>(
            inp.spec_src(),
            c,
            inp.spec_cursor(),
            inp.spec_boundary(),
            inp.spec_watermark(),
            inp.spec_policy() == Policy::Fatal,
            after.spec_watermark(),
        ),
        _ => after.spec_boundary() == inp.spec_boundary() && after.spec_watermark() == head_wm(inp, c),
    }
}

/// Where a scan that ends in `o` stopped on a diagnostic a fail-fast emitter refused, the
/// result `r` is that emitter's rejection, `refusal`.
pub open spec fn refused_with<T, S, X, E>(o: ScanEnd<T, S>, r: Result<X, E>, refusal: Option<E>) -> bool {
    (o is Refused || o matches ScanEnd::Trip(_, true)) ==> (refusal matches Some(e) && r == Err::<X, E>(e))
}

/// The terminal end-of-input error at `at`, as the error type converts it, where its
/// conversion from [`UnexpectedEot`] follows its specification.
pub open spec fn terminal_eot_at<L: Lexer>(at: usize) -> Option<ErrorOf<L>>
    where ErrorOf<L>: From<UnexpectedEot>,
{
    if <ErrorOf<L> as vstd::std_specs::convert::FromSpec<UnexpectedEot>>::obeys_from_spec() {
        Some(<ErrorOf<L> as vstd::std_specs::convert::FromSpec<UnexpectedEot>>::from_spec(
            UnexpectedEot::spec_new(at, true),
        ))
    } else {
        None
    }
}

/// Where a scan that ends in `o` stopped at the poison boundary or at a resource-limit trip
/// the emitter accepted, the result `r` is the terminal end-of-input error `terminal`.
pub open spec fn stopped_with<T, S, X, E>(o: ScanEnd<T, S>, r: Result<X, E>, terminal: Option<E>) -> bool {
    (o is Stop || o matches ScanEnd::Trip(_, false)) ==> (terminal matches Some(e) ==> r == Err::<X, E>(e))
}

/// The diagnostics a recording emitter is handed by a scan of `inp` from its committed
/// position in the state `c`.
pub open spec fn head_log<L: Lexer>(inp: Input<L>, c: L::State) -> Seq<Emission<ErrorOf<L>>> {
    scan_log::<L>(inp.spec_src(), c, inp.spec_cursor(), inp.spec_boundary(), inp.spec_watermark())
}

/// Whether a read that yields `r` and leaves the committed state `s` agrees with a scan that
/// ends in `o`: the token with the state after it, `None` at the end of the input, the
/// poison boundary or an accepted trip, and an error where the emitter refused.
pub open spec fn read_agrees<T, S, E>(o: ScanEnd<T, S>, r: Result<Option<Spanned<T>>, E>, s: S) -> bool {
    match o {
        ScanEnd::Token(t, st) => r == Ok::<Option<Spanned<T>>, E>(Some(t)) && s == st,
        ScanEnd::Trip(_, refused) => if refused {
            r is Err
        } else {
            r == Ok::<Option<Spanned<T>>, E>(None)
        },
        ScanEnd::End(_) | ScanEnd::Stop(_) => r == Ok::<Option<Spanned<T>>, E>(None),
        ScanEnd::Refused(_) => r is Err,
    }
}

/// Whether a terminal-aware read that yields `r` and leaves the committed state `s` agrees
/// with a scan that ends in `o`: the token with the state after it, `None` only at a genuine
/// end of the input, and an error at the poison boundary, at a trip, or where the emitter
/// refused.
pub open spec fn read_or_stop_agrees<T, S, E>(o: ScanEnd<T, S>, r: Result<Option<Spanned<T>>, E>, s: S) -> bool {
    match o {
        ScanEnd::Token(t, st) => r == Ok::<Option<Spanned<T>>, E>(Some(t)) && s == st,
        ScanEnd::End(_) => r == Ok::<Option<Spanned<T>>, E>(None),
        _ => r is Err,
    }
}

/// Whether a peek that yields `r` and leaves the cache `cache` (of capacity `cap`) agrees
/// with a scan that ends in `o`: a copy of the token, which is staged in the cache when it
/// has room; `None` at the end of the input, the poison boundary or an accepted trip; an
/// error where the emitter refused.
pub open spec fn peek_agrees<T: Clone, S, E>(
    o: ScanEnd<T, S>,
    r: Result<Option<Spanned<T>>, E>,
    cache: Seq<CachedToken<T, S>>,
    cap: usize,
) -> bool {
    match o {
        ScanEnd::Token(t, st) => (r matches Ok(Some(u)) && cloned(t, u)) && (0 < cap ==> cache == seq![
            CachedToken { token: t, state: st },
        ]),
        ScanEnd::Trip(_, refused) => if refused {
            r is Err
        } else {
            r == Ok::<Option<Spanned<T>>, E>(None)
        },
        ScanEnd::End(_) | ScanEnd::Stop(_) => r == Ok::<Option<Spanned<T>>, E>(None),
        ScanEnd::Refused(_) => r is Err,
    }
}

/// Whether a conditional consume that yields `r`, leaving the committed state `s` and the
/// cache `cache` (of capacity `cap`), agrees with a scan that ends in `o`: a token `pred`
/// accepts is consumed, with the state after it; one it refuses is staged in the cache when
/// it has room; `None` at the end of the input; at the poison boundary and at an accepted trip
/// `None`, or an error when `stop_is_err`; an error where the emitter refused.
pub open spec fn expect_agrees<T, S, E, F: FnMut(&Spanned<T>) -> bool>(
    o: ScanEnd<T, S>,
    r: Result<Option<Spanned<T>>, E>,
    s: S,
    cache: Seq<CachedToken<T, S>>,
    cap: usize,
    pred: F,
    stop_is_err: bool,
) -> bool {
    match o {
        ScanEnd::Token(t, st) => (r == Ok::<Option<Spanned<T>>, E>(Some(t)) && s == st && call_ensures(
            pred,
            (&t,),
            true,
        )) || (r == Ok::<Option<Spanned<T>>, E>(None) && call_ensures(pred, (&t,), false) && (0 < cap
            ==> cache == seq![CachedToken { token: t, state: st }])),
        ScanEnd::End(_) => r == Ok::<Option<Spanned<T>>, E>(None),
        ScanEnd::Stop(_) => if stop_is_err {
            r is Err
        } else {
            r == Ok::<Option<Spanned<T>>, E>(None)
        },
        ScanEnd::Trip(_, refused) => if refused || stop_is_err {
            r is Err
        } else {
            r == Ok::<Option<Spanned<T>>, E>(None)
        },
        ScanEnd::Refused(_) => r is Err,
    }
}

/// Whether a conditional consume-and-map that yields `r`, leaving the committed state `s`
/// and the cache `cache` (of capacity `cap`), agrees with a scan that ends in `o`: a token
/// `pred` maps to `Some(v)` is consumed, with the state after it, and `v` handed out with it;
/// one it maps to `None` is staged in the cache when it has room; `None` at the end of the
/// input; at the poison boundary and at an accepted trip `None`, or an error when
/// `stop_is_err`; an error where the emitter refused.
pub open spec fn map_agrees<T, S, O, E, F: FnMut(&Spanned<T>) -> Option<O>>(
    o: ScanEnd<T, S>,
    r: Result<Option<(O, Spanned<T>)>, E>,
    s: S,
    cache: Seq<CachedToken<T, S>>,
    cap: usize,
    pred: F,
    stop_is_err: bool,
) -> bool {
    match o {
        ScanEnd::Token(t, st) => (r matches Ok(Some((v, u))) && u == t && s == st && call_ensures(
            pred,
            (&t,),
            Some(v),
        )) || (r == Ok::<Option<(O, Spanned<T>)>, E>(None) && call_ensures(pred, (&t,), None::<O>) && (0 < cap
            ==> cache == seq![CachedToken { token: t, state: st }])),
        ScanEnd::End(_) => r == Ok::<Option<(O, Spanned<T>)>, E>(None),
        ScanEnd::Stop(_) | ScanEnd::Trip(_, false) => if stop_is_err {
            r is Err
        } else {
            r == Ok::<Option<(O, Spanned<T>)>, E>(None)
        },
        _ => r is Err,
    }
}

/// The terminal-aware consume and the plain consume agree but at a stop: over the same scan
/// (two reads of identical inputs see the same scan where the lexer state clones faithfully),
/// with a `pred` that answers alike on the same token, they consume the same token into the
/// same state or decline it alike, hand on the same refused diagnostic, and where the scan
/// stopped at the poison boundary or at an accepted trip the terminal-aware read fails with
/// the terminal end-of-input error where the plain read declines.
pub proof fn lemma_expect_or_stop_agrees_with_expect<T, S, E, F: FnMut(&Spanned<T>) -> bool>(
    o: ScanEnd<T, S>,
    pred: F,
    cap: usize,
    refusal: Option<E>,
    terminal: Option<E>,
    r1: Result<Option<Spanned<T>>, E>,
    s1: S,
    cache1: Seq<CachedToken<T, S>>,
    r2: Result<Option<Spanned<T>>, E>,
    s2: S,
    cache2: Seq<CachedToken<T, S>>,
)
    requires
        forall|t: &Spanned<T>, b1: bool, b2: bool|
            call_ensures(pred, (t,), b1) && call_ensures(pred, (t,), b2) ==> b1 == b2,
        expect_agrees(o, r1, s1, cache1, cap, pred, true),
        refused_with(o, r1, refusal),
        stopped_with(o, r1, terminal),
        expect_agrees(o, r2, s2, cache2, cap, pred, false),
        refused_with(o, r2, refusal),
    ensures
        r1 is Ok ==> r1 == r2,
        r1 matches Ok(Some(_)) ==> s1 == s2,
        o is Token && r1 == Ok::<Option<Spanned<T>>, E>(None) && 0 < cap ==> cache1 == cache2,
        (o is Stop || o matches ScanEnd::Trip(_, false)) ==> r2 == Ok::<Option<Spanned<T>>, E>(None) && r1 is Err
            && (terminal matches Some(e) ==> r1 == Err::<Option<Spanned<T>>, E>(e)),
        (o is Refused || o matches ScanEnd::Trip(_, true)) ==> r1 == r2 && r1 is Err,
{
}

/// The terminal-aware consume-and-map and the plain consume-and-map agree but at a stop, as
/// [`lemma_expect_or_stop_agrees_with_expect`] says of the plain consumes, for a `pred` that
/// maps the same token alike.
pub proof fn lemma_map_or_stop_agrees_with_map<T, S, O, E, F: FnMut(&Spanned<T>) -> Option<O>>(
    o: ScanEnd<T, S>,
    pred: F,
    cap: usize,
    refusal: Option<E>,
    terminal: Option<E>,
    r1: Result<Option<(O, Spanned<T>)>, E>,
    s1: S,
    cache1: Seq<CachedToken<T, S>>,
    r2: Result<Option<(O, Spanned<T>)>, E>,
    s2: S,
    cache2: Seq<CachedToken<T, S>>,
)
    requires
        forall|t: &Spanned<T>, v1: Option<O>, v2: Option<O>|
            call_ensures(pred, (t,), v1) && call_ensures(pred, (t,), v2) ==> v1 == v2,
        map_agrees(o, r1, s1, cache1, cap, pred, true),
        refused_with(o, r1, refusal),
        stopped_with(o, r1, terminal),
        map_agrees(o, r2, s2, cache2, cap, pred, false),
        refused_with(o, r2, refusal),
    ensures
        r1 is Ok ==> r1 == r2,
        r1 matches Ok(Some(_)) ==> s1 == s2,
        o is Token && r1 == Ok::<Option<(O, Spanned<T>)>, E>(None) && 0 < cap ==> cache1 == cache2,
        (o is Stop || o matches ScanEnd::Trip(_, false)) ==> r2 == Ok::<Option<(O, Spanned<T>)>, E>(None) && r1 is Err
            && (terminal matches Some(e) ==> r1 == Err::<Option<(O, Spanned<T>)>, E>(e)),
        (o is Refused || o matches ScanEnd::Trip(_, true)) ==> r1 == r2 && r1 is Err,
{
}

/// A consume-and-map whose `map` answers `Some(())` exactly where the test `test` accepts is
/// the plain consume under `test`: over the same scan they consume the same token into the
/// same state (handing out `()` with it), decline alike, or fail with the same error.
pub proof fn lemma_map_of_a_test_is_expect<T, S, E, F: FnMut(&Spanned<T>) -> bool, G: FnMut(&Spanned<T>) -> Option<()>>(
    o: ScanEnd<T, S>,
    test: F,
    map: G,
    cap: usize,
    refusal: Option<E>,
    r1: Result<Option<((), Spanned<T>)>, E>,
    s1: S,
    cache1: Seq<CachedToken<T, S>>,
    r2: Result<Option<Spanned<T>>, E>,
    s2: S,
    cache2: Seq<CachedToken<T, S>>,
)
    requires
        forall|t: &Spanned<T>, v: Option<()>, b: bool|
            call_ensures(map, (t,), v) && call_ensures(test, (t,), b) ==> (v is Some <==> b),
        map_agrees(o, r1, s1, cache1, cap, map, false),
        refused_with(o, r1, refusal),
        expect_agrees(o, r2, s2, cache2, cap, test, false),
        refused_with(o, r2, refusal),
    ensures
        match r2 {
            Ok(Some(t)) => r1 == Ok::<Option<((), Spanned<T>)>, E>(Some(((), t))) && s1 == s2,
            Ok(None) => r1 == Ok::<Option<((), Spanned<T>)>, E>(None),
            Err(e) => r1 == Err::<Option<((), Spanned<T>)>, E>(e),
        },
        o is Token && r2 == Ok::<Option<Spanned<T>>, E>(None) && 0 < cap ==> cache1 == cache2,
{
}

/// Whether a close probe that yields `r`, leaving the cache `cache` (of capacity `cap`), agrees
/// with a scan that ends in `o`: a token `pred` accepts is carried out with the state after
/// it; one it refuses is handed out as a copy and staged in the cache when it has room; the
/// end of the input and a stop (the poison boundary, an accepted trip) are told apart; an
/// error where the emitter refused.
pub open spec fn probe_agrees<T: Clone, S, E, F: FnMut(&Spanned<T>) -> bool>(
    o: ScanEnd<T, S>,
    r: Result<CloseStatus<T, S>, E>,
    cache: Seq<CachedToken<T, S>>,
    cap: usize,
    pred: F,
) -> bool {
    match o {
        ScanEnd::Token(t, st) => (r matches Ok(CloseStatus::Close(ClosePayload::Scanned(ct))) && ct
            == CachedToken { token: t, state: st } && call_ensures(pred, (&t,), true)) || (r matches Ok(
            CloseStatus::WrongToken(w),
        ) && cloned(t, w) && call_ensures(pred, (&t,), false) && (0 < cap ==> cache == seq![
            CachedToken { token: t, state: st },
        ])),
        ScanEnd::End(_) => r matches Ok(CloseStatus::Eof),
        ScanEnd::Stop(_) | ScanEnd::Trip(_, false) => r matches Ok(CloseStatus::Tripped),
        _ => r is Err,
    }
}

/// Probing for a closer and then committing it is consuming it: over the same scan, with a
/// `pred` that answers alike on the same token, a probe that finds the closer carries out
/// exactly the token the plain consume takes, with the state after it (which
/// [`commit_probed`](InputRef::commit_probed) then commits without lexing again); where the
/// probe finds another token the plain consume declines it and stages it alike; at the end of
/// the input and at a stop the plain consume declines; both hand on the same refused
/// diagnostic.
pub proof fn lemma_probe_then_commit_is_expect<T: Clone, S, E, F: FnMut(&Spanned<T>) -> bool>(
    o: ScanEnd<T, S>,
    pred: F,
    cap: usize,
    refusal: Option<E>,
    rp: Result<CloseStatus<T, S>, E>,
    cache1: Seq<CachedToken<T, S>>,
    r2: Result<Option<Spanned<T>>, E>,
    s2: S,
    cache2: Seq<CachedToken<T, S>>,
)
    requires
        forall|t: &Spanned<T>, b1: bool, b2: bool|
            call_ensures(pred, (t,), b1) && call_ensures(pred, (t,), b2) ==> b1 == b2,
        probe_agrees(o, rp, cache1, cap, pred),
        refused_with(o, rp, refusal),
        expect_agrees(o, r2, s2, cache2, cap, pred, false),
        refused_with(o, r2, refusal),
    ensures
        rp matches Ok(CloseStatus::Close(ClosePayload::Scanned(ct))) ==> r2 == Ok::<Option<Spanned<T>>, E>(
            Some(ct.token),
        ) && s2 == ct.state,
        rp matches Ok(CloseStatus::WrongToken(_)) ==> r2 == Ok::<Option<Spanned<T>>, E>(None) && (0 < cap
            ==> cache1 == cache2),
        (rp matches Ok(CloseStatus::Eof) || rp matches Ok(CloseStatus::Tripped)) ==> r2 == Ok::<
            Option<Spanned<T>>,
            E,
        >(None),
        rp is Err ==> (rp matches Err(e) && r2 == Err::<Option<Spanned<T>>, E>(e)),
{
}

/// A token staged by a read that left it in place (a peek, or a declined attempt) is what
/// the next consume of the cache gives back: the same token, committed with the state
/// after it, leaving the cache as it was before the staging.
pub proof fn lemma_consume_after_staging_returns_the_staged_token<L: Lexer>(
    a: Input<L>,
    b: Input<L>,
    u: Spanned<L::Token>,
    s: L::State,
    c: Input<L>,
    t: Spanned<L::Token>,
)
    requires
        b.staged(&a, u, s),
        0 < a.spec_capacity(),
        c.took_front(&b, t),
    ensures
        t == u,
        c.spec_span() == u.span,
        c.spec_state() == s,
        c.spec_cache() == a.spec_cache(),
{
    assert(c.spec_cache() =~= a.spec_cache());
}

/// What [`peek`](InputRef::peek) of `n` tokens does, from the input `a` to the input `f`,
/// returning `r`: its postcondition, named so that what follows a synchronization can say
/// that it peeked.
pub open spec fn peeked<L: Lexer>(a: Input<L>, f: Input<L>, n: usize, r: Result<Vec<Spanned<L::Token>>, ErrorOf<L>>) -> bool {
    &&& (f.grew_only(&a))
    &&& (f.latch_ok(&a))
    &&& (f.kept_position(&a))
    &&& (a.spec_cache().len() <= f.spec_cache().len())
    &&& (f.spec_cache().subrange(0, a.spec_cache().len() as int)
        == a.spec_cache())
    &&& (a.spec_reached(a.spec_frontier()) ==> f.same_stream(
        &a,
    ))
    &&& (a.spec_cache().len() >= n ==> f.same_stream(&a))
    &&& (r matches Ok(v) ==> v.len() <= n && window(n, f.spec_cache().len()) <= v.len()
        && forall|i: int|
        0 <= i < window(n, f.spec_cache().len()) ==> cloned(
            f.spec_cache()[i].token,
            #[trigger] v[i],
        ))
    &&& (r matches Ok(v) && v.len() > window(n, f.spec_cache().len()) ==> f.spec_cache().len()
        >= f.spec_capacity() && f.spec_boundary() == a.spec_boundary())
    &&& (r matches Ok(v) ==> (f.spec_boundary() != a.spec_boundary() ==> v.len()
        == window(n, f.spec_cache().len())))
    &&& (f.spec_cache().len() >= f.spec_capacity() && f.spec_boundary()
        != a.spec_boundary() ==> f.spec_boundary() == Some(
        f.spec_frontier(),
    ))
    &&& (a.wf() && !a.spec_reached(a.spec_frontier())
        && a.spec_cache().len() < n ==> exists|
        c: L::State,
        toks: Seq<(Spanned<L::Token>, L::State)>,
        st_end: L::State,
        at_end: usize,
        wm_end: usize,
    |
        cloned(a.spec_frontier_state(), c) && #[trigger] scan_chain::<L>(
            a.spec_src(),
            c,
            a.spec_frontier(),
            a.spec_boundary(),
            a.spec_watermark(),
            a.spec_fatal(),
            toks,
            st_end,
            at_end,
            wm_end,
        ) && cached_as(f.spec_cache(), a.spec_cache(), toks) && (
        f.spec_cache().len() < n && f.spec_cache().len()
        < f.spec_capacity() ==> fill_stop_agrees(
            scan_end::<L>(
                a.spec_src(),
                st_end,
                at_end,
                a.spec_boundary(),
                wm_end,
                a.spec_fatal(),
            ),
            r is Err,
        )) && (a.spec_policy() == Policy::Verbose && (f.spec_cache().len() >= n
        || f.spec_cache().len() < f.spec_capacity() || a.spec_reached(f.spec_frontier()))
        ==> f.spec_log() == a.spec_log() + chain_log::<L>(
            a.spec_src(),
            c,
            a.spec_frontier(),
            a.spec_boundary(),
            a.spec_watermark(),
            toks,
        ) + (if f.spec_cache().len() < n && f.spec_cache().len() < f.spec_capacity() {
            scan_log::<L>(a.spec_src(), st_end, at_end, a.spec_boundary(), wm_end)
        } else {
            Seq::empty()
        })))
    &&& (r matches Ok(v) ==> (a.wf() && !a.spec_reached(a.spec_frontier()) && a.spec_cache().len() < n
        && !a.spec_reached(f.spec_frontier()) && f.spec_cache().len() < n && f.spec_cache().len()
        >= f.spec_capacity() ==> exists|
        c: L::State,
        toks: Seq<(Spanned<L::Token>, L::State)>,
        st_end: L::State,
        at_end: usize,
        wm_end: usize,
        c2: L::State,
        toks2: Seq<(Spanned<L::Token>, L::State)>,
        st2: L::State,
        at2: usize,
        wm2: usize,
    |
        cloned(a.spec_frontier_state(), c) && #[trigger] scan_chain::<L>(
            a.spec_src(),
            c,
            a.spec_frontier(),
            a.spec_boundary(),
            a.spec_watermark(),
            a.spec_fatal(),
            toks,
            st_end,
            at_end,
            wm_end,
        ) && cached_as(f.spec_cache(), a.spec_cache(), toks) && cloned(f.spec_frontier_state(), c2)
            && #[trigger] scan_chain::<L>(
            a.spec_src(),
            c2,
            f.spec_frontier(),
            a.spec_boundary(),
            wm_end,
            a.spec_fatal(),
            toks2,
            st2,
            at2,
            wm2,
        ) && (f.spec_boundary() == a.spec_boundary() ==> v.len() == f.spec_cache().len() + toks2.len()
            && (forall|i: int| 0 <= i < toks2.len() ==> v[f.spec_cache().len() + i] == #[trigger] toks2[i].0)
            && (v.len() < n ==> (scan_end::<L>(
            a.spec_src(),
            st2,
            at2,
            a.spec_boundary(),
            wm2,
            a.spec_fatal(),
        ) is End || scan_end::<L>(
            a.spec_src(),
            st2,
            at2,
            a.spec_boundary(),
            wm2,
            a.spec_fatal(),
        ) is Stop))) && (f.spec_boundary()
            != a.spec_boundary() ==> v.len() == f.spec_cache().len() && scan_end::<L>(
            a.spec_src(),
            st2,
            at2,
            a.spec_boundary(),
            wm2,
            a.spec_fatal(),
        ) matches ScanEnd::Trip(
            _,
            false,
        )) && (a.spec_policy() == Policy::Verbose ==> f.spec_log() == a.spec_log() + chain_log::<L>(
            a.spec_src(),
            c,
            a.spec_frontier(),
            a.spec_boundary(),
            a.spec_watermark(),
            toks,
        ) + chain_log::<L>(a.spec_src(), c2, f.spec_frontier(), a.spec_boundary(), wm_end, toks2) + (if v.len()
            < n {
            scan_log::<L>(a.spec_src(), st2, at2, a.spec_boundary(), wm2)
        } else {
            Seq::empty()
        }))))
    &&& (r is Err ==> a.spec_policy() == Policy::Fatal)
}

/// How many of the cached tokens a window of `n` covers: `n`, or all `len` of them when
/// fewer are cached.
pub open spec fn window(n: usize, len: nat) -> int {
    if n < len {
        n as int
    } else {
        len as int
    }
}

/// Whether an attempt came back empty: `Ok(None)`.
pub open spec fn declined<T, E>(r: Result<Option<T>, E>) -> bool {
    r matches Ok(None)
}

/// Whether `pred` accepted each of the first `k` cached tokens.
pub open spec fn prefix_accepted<T, S, F: FnMut(&Spanned<T>) -> bool>(
    pred: F,
    cache: Seq<CachedToken<T, S>>,
    k: int,
) -> bool {
    &&& 0 <= k <= cache.len()
    &&& forall|i: int| 0 <= i < k ==> call_ensures(pred, (&#[trigger] cache[i].token,), true)
}

/// Whether the cache is empty or `pred` refuses its front.
pub open spec fn front_refused<T, S, F: FnMut(&Spanned<T>) -> bool>(
    pred: F,
    cache: Seq<CachedToken<T, S>>,
) -> bool {
    cache.len() > 0 ==> call_ensures(pred, (&cache[0].token,), false)
}

fn bump_count(x: u64) -> (r: u64)
    ensures
        r == bumped(x),
{
    if x < u64::MAX {
        x + 1
    } else {
        x
    }
}

/// The emitter and cache an input is built with.
#[derive(Debug, Clone)]
pub struct InputContext<Em, C> {
    emitter: Em,
    cache: C,
}

impl<Em, C> InputContext<Em, C> {
    /// Pairs an emitter with a cache.
    pub fn new(emitter: Em, cache: C) -> (r: InputContext<Em, C>)
        ensures
            r.spec_emitter() == emitter,
            r.spec_cache() == cache,
    {
        InputContext { emitter, cache }
    }

    /// Splits into the emitter and the cache.
    pub fn into_components(self) -> (r: (Em, C))
        ensures
            r.0 == self.spec_emitter(),
            r.1 == self.spec_cache(),
    {
        (self.emitter, self.cache)
    }

    /// The emitter.
    pub closed spec fn spec_emitter(self) -> Em {
        self.emitter
    }

    /// The cache.
    pub closed spec fn spec_cache(self) -> C {
        self.cache
    }
}

/// A position in the input where a token starts or the committed input ends.
#[derive(Debug, Clone, Copy, PartialEq, Eq, Structural)]
pub struct Cursor {
    offset: usize,
}

impl Cursor {
    /// The offset of the cursor.
    pub fn as_inner(&self) -> (r: &usize)
        ensures
            *r == self.spec_offset(),
    {
        &self.offset
    }

    /// The offset of the cursor.
    pub closed spec fn spec_offset(self) -> usize {
        self.offset
    }
}

/// A snapshot of an input's committed position, lexer state, poison boundary, dedup
/// watermark and diagnostics, to go back to with [`restore`](InputRef::restore) or to
/// release with [`commit`](InputRef::commit).
#[derive(Debug)]
pub struct Checkpoint<S> {
    id: u64,
    span: SimpleSpan,
    state: S,
    boundary: Option<usize>,
    watermark: usize,
    mark: usize,
    pushes: u64,
    pops: u64,
}

impl<S> Checkpoint<S> {
    /// The lineage id of the checkpoint.
    pub(crate) fn id(&self) -> (r: u64)
        ensures
            r == self.spec_id(),
    {
        self.id
    }

    /// The lineage id of the checkpoint.
    pub closed spec fn spec_id(&self) -> u64 {
        self.id
    }

    /// The committed span when the checkpoint was taken.
    pub closed spec fn spec_span(&self) -> SimpleSpan {
        self.span
    }

    /// The committed lexer state when the checkpoint was taken.
    pub closed spec fn spec_state(&self) -> S {
        self.state
    }

    /// The poison boundary when the checkpoint was taken.
    pub closed spec fn spec_boundary(&self) -> Option<usize> {
        self.boundary
    }

    /// The dedup watermark when the checkpoint was taken.
    pub closed spec fn spec_watermark(&self) -> usize {
        self.watermark
    }

    /// The length of the diagnostic log when the checkpoint was taken.
    pub closed spec fn spec_mark(&self) -> usize {
        self.mark
    }

    /// The number of cache pushes when the checkpoint was taken.
    pub closed spec fn spec_pushes(&self) -> u64 {
        self.pushes
    }

    /// The number of cache pops when the checkpoint was taken.
    pub closed spec fn spec_pops(&self) -> u64 {
        self.pops
    }
}

/// A token stream over a source: the committed position, the lexer state to resume from,
/// a bounded lookahead cache, the diagnostics emitter, and the bookkeeping that makes
/// backtracking faithful (checkpoint lineage, poison boundary, dedup watermark).
///
/// Parsers work on it through [`as_ref`](Input::as_ref).
pub struct Input<L: Lexer> {
    src: L::Source,
    len: usize,
    span: SimpleSpan,
    state: L::State,
    cache: TokenCache<L::Token, L::State>,
    emitter: Emitter<ErrorOf<L>>,
    boundary: Option<usize>,
    watermark: usize,
    pushes: u64,
    pops: u64,
    live: Vec<u64>,
    pinned: Vec<u64>,
    next_id: u64,
}

impl<L: Lexer> Input<L> {
    /// The source.
    pub closed spec fn spec_src(&self) -> L::Source {
        self.src
    }

    /// The length of the source.
    pub closed spec fn spec_len(&self) -> usize {
        self.len
    }

    /// The span of the last committed token; its end is the committed position.
    pub closed spec fn spec_span(&self) -> SimpleSpan {
        self.span
    }

    /// The lexer state after the last committed token.
    pub closed spec fn spec_state(&self) -> L::State {
        self.state
    }

    /// The tokens lexed ahead of the committed position, front first.
    pub closed spec fn spec_cache(&self) -> Seq<CachedOf<L>> {
        self.cache.spec_entries()
    }

    /// The capacity of the lookahead cache.
    pub closed spec fn spec_capacity(&self) -> usize {
        self.cache.spec_capacity()
    }

    /// The offset past which no lexing happens any more, latched by a resource-limit trip.
    pub closed spec fn spec_boundary(&self) -> Option<usize> {
        self.boundary
    }

    /// Lexer errors that start before this offset have already been reported.
    pub closed spec fn spec_watermark(&self) -> usize {
        self.watermark
    }

    /// The emitter's policy.
    pub closed spec fn spec_policy(&self) -> Policy {
        self.emitter.spec_policy()
    }

    /// The emitter's diagnostic log.
    pub closed spec fn spec_log(&self) -> Seq<Emission<ErrorOf<L>>> {
        self.emitter.spec_log()
    }

    /// The ids of the live checkpoints, oldest first.
    pub closed spec fn spec_live(&self) -> Seq<u64> {
        self.live@
    }

    /// The ids of the checkpoints held by running attempts and transactions.
    pub closed spec fn spec_pinned(&self) -> Seq<u64> {
        self.pinned@
    }

    /// The id the next checkpoint gets.
    pub closed spec fn spec_next_id(&self) -> u64 {
        self.next_id
    }

    /// The number of tokens pushed into the cache so far.
    pub closed spec fn spec_pushes(&self) -> u64 {
        self.pushes
    }

    /// The number of tokens taken out of the cache so far.
    pub closed spec fn spec_pops(&self) -> u64 {
        self.pops
    }

    /// The committed position.
    pub open spec fn spec_cursor(&self) -> usize {
        self.spec_span().end
    }

    /// The lexer state at the lex frontier: the one after the last cached token, or the
    /// committed one when nothing is cached.
    pub open spec fn spec_frontier_state(&self) -> L::State {
        if self.spec_cache().len() == 0 {
            self.spec_state()
        } else {
            self.spec_cache().last().state
        }
    }

    /// `self` is `old` with the last of the skipped tokens `toks` committed (the state after it,
    /// or a clone of it), or unchanged in position when none was skipped.
    pub open spec fn committed_through<S>(&self, old: &Self, toks: Seq<(Spanned<L::Token>, L::State)>) -> bool {
        &&& toks.len() == 0 ==> self.kept_position(old)
        &&& toks.len() > 0 ==> self.spec_span() == toks.last().0.span && (self.spec_state() == toks.last().1
            || cloned(toks.last().1, self.spec_state()))
    }

    /// Where the next token starts, as far as is known: the start of the first cached token,
    /// or the committed position when nothing is cached.
    pub open spec fn spec_resume(&self) -> usize {
        if self.spec_cache().len() == 0 {
            self.spec_cursor()
        } else {
            self.spec_cache()[0].token.span.start
        }
    }

    /// Whether the emitter fails fast.
    pub open spec fn spec_fatal(&self) -> bool {
        self.spec_policy() == Policy::Fatal
    }

    /// Whether the lexing position `at` is at or past the poison boundary.
    pub open spec fn spec_reached(&self, at: usize) -> bool {
        self.spec_boundary() matches Some(b) && b <= at
    }

    /// Whether the poison boundary is latched exactly at the committed position.
    pub open spec fn spec_at_latched_boundary(&self) -> bool {
        self.spec_boundary() == Some(self.spec_cursor())
    }

    /// The position lexing resumes from: the end of the last cached token, or the
    /// committed position when nothing is cached.
    pub open spec fn spec_frontier(&self) -> usize {
        if self.spec_cache().len() == 0 {
            self.spec_cursor()
        } else {
            self.spec_cache().last().token.span.end
        }
    }

    /// Well-formedness: positions lie within the source, cached tokens are nonempty, lie
    /// after the committed position in order, and fit the cache.
    pub open spec fn wf(&self) -> bool {
        &&& self.spec_len() == L::spec_source_len(self.spec_src())
        &&& self.spec_span().start <= self.spec_span().end <= self.spec_len()
        &&& self.spec_cache().len() <= self.spec_capacity()
        &&& forall|i: int|
            0 <= i < self.spec_cache().len() ==> {
                let s = #[trigger] self.spec_cache()[i].token.span;
                s.start < s.end <= self.spec_len()
            }
        &&& self.spec_cache().len() > 0 ==> self.spec_cursor() <= self.spec_cache()[0].token.span.start
        &&& forall|i: int|
            0 <= i < self.spec_cache().len() - 1 ==> #[trigger] self.spec_cache()[i].token.span.end
                <= self.spec_cache()[i + 1].token.span.start
        &&& lineage_ok(self.spec_live(), self.spec_next_id())
    }

    /// The lineage (live and pinned checkpoints, next id) of `self` and `other` agree.
    pub open spec fn same_lineage(&self, other: &Self) -> bool {
        &&& self.spec_live() == other.spec_live()
        &&& self.spec_pinned() == other.spec_pinned()
        &&& self.spec_next_id() == other.spec_next_id()
    }

    /// The parts of `self` and `other` that never change after construction agree.
    pub open spec fn same_frame(&self, other: &Self) -> bool {
        &&& self.spec_src() == other.spec_src()
        &&& self.spec_len() == other.spec_len()
        &&& self.spec_capacity() == other.spec_capacity()
        &&& self.spec_policy() == other.spec_policy()
    }

    /// The committed position, state and cache of `self` and `other` agree.
    pub open spec fn same_committed(&self, other: &Self) -> bool {
        &&& self.spec_span() == other.spec_span()
        &&& self.spec_state() == other.spec_state()
        &&& self.spec_cache() == other.spec_cache()
        &&& self.spec_pushes() == other.spec_pushes()
        &&& self.spec_pops() == other.spec_pops()
    }

    /// Everything but the lineage of `self` and `other` agrees.
    pub open spec fn same_stream(&self, other: &Self) -> bool {
        &&& self.same_committed(other)
        &&& self.spec_boundary() == other.spec_boundary()
        &&& self.spec_watermark() == other.spec_watermark()
        &&& self.spec_log() == other.spec_log()
    }

    /// `self` is `old` after only diagnostics were added and the dedup watermark rose:
    /// the frame and the lineage are untouched, the log was only appended to (and only by a
    /// recording emitter), and well-formedness is kept.
    pub open spec fn grew_only(&self, old: &Self) -> bool {
        &&& self.same_frame(old)
        &&& self.same_lineage(old)
        &&& extends(old.spec_log(), self.spec_log())
        &&& old.spec_policy() != Policy::Verbose ==> self.spec_log() == old.spec_log()
        &&& old.spec_watermark() <= self.spec_watermark()
        &&& old.wf() ==> self.wf()
    }

    /// The poison boundary of `self` is that of `old`, or newly latched at or after the
    /// committed position of `old`, within the source.
    pub open spec fn latch_ok(&self, old: &Self) -> bool {
        ||| self.spec_boundary() == old.spec_boundary()
        ||| self.spec_boundary() matches Some(b) && (old.wf() ==> old.spec_cursor() <= b
            <= old.spec_len())
    }

    /// `self` is `old` after committing the front of its cache, `t`.
    pub open spec fn took_front(&self, old: &Self, t: Spanned<L::Token>) -> bool {
        &&& old.spec_cache().len() > 0
        &&& t == old.spec_cache()[0].token
        &&& self.spec_span() == t.span
        &&& self.spec_state() == old.spec_cache()[0].state
        &&& self.spec_cache() == old.spec_cache().drop_first()
        &&& self.spec_pops() == bumped(old.spec_pops())
        &&& self.spec_pushes() == old.spec_pushes()
        &&& self.spec_boundary() == old.spec_boundary()
        &&& self.spec_watermark() == old.spec_watermark()
        &&& self.spec_log() == old.spec_log()
    }

    /// `self` is `old` after committing `t`, a token freshly lexed from the committed
    /// position of `old` (whose cache was empty).
    pub open spec fn advanced_to(&self, old: &Self, t: Spanned<L::Token>) -> bool {
        &&& old.spec_cache().len() == 0
        &&& self.spec_span() == t.span
        &&& self.spec_cache() == old.spec_cache()
        &&& self.spec_pushes() == old.spec_pushes()
        &&& self.spec_pops() == old.spec_pops()
        &&& self.spec_boundary() == old.spec_boundary()
        &&& old.wf() ==> old.spec_cursor() <= t.span.start && t.span.start < t.span.end
            && t.span.end <= old.spec_len()
    }

    /// `self` and `old` agree on the committed position and state.
    pub open spec fn kept_position(&self, old: &Self) -> bool {
        &&& self.spec_span() == old.spec_span()
        &&& self.spec_state() == old.spec_state()
    }

    /// `self` is `old` after staging `t` (with the state `s` after it) at the back of
    /// the cache, which was empty: `t` is in the cache when it had room.
    pub open spec fn staged(&self, old: &Self, t: Spanned<L::Token>, s: L::State) -> bool {
        &&& old.spec_cache().len() == 0
        &&& self.kept_position(old)
        &&& self.spec_pops() == old.spec_pops()
        &&& 0 < old.spec_capacity() ==> self.spec_cache() == seq![CachedToken { token: t, state: s }]
            && self.spec_pushes() == bumped(old.spec_pushes())
        &&& old.spec_capacity() == 0 ==> self.spec_cache() == old.spec_cache()
            && self.spec_pushes() == old.spec_pushes()
        &&& old.wf() ==> old.spec_cursor() <= t.span.start && t.span.start < t.span.end
            && t.span.end <= old.spec_len()
    }

    /// In a well-formed input the cached tokens are ordered pairwise, lie between the
    /// committed position and the lex frontier, and the frontier is not before the committed
    /// position.
    pub proof fn lemma_cache_ordered(&self)
        requires
            self.wf(),
        ensures
            forall|i: int, j: int|
                0 <= i < j < self.spec_cache().len() ==> #[trigger] self.spec_cache()[i].token.span.end
                    <= #[trigger] self.spec_cache()[j].token.span.start,
            forall|i: int|
                0 <= i < self.spec_cache().len() ==> self.spec_cursor() <= #[trigger] self.spec_cache()[i].token.span.start
                    && self.spec_cache()[i].token.span.end <= self.spec_frontier(),
            self.spec_cursor() <= self.spec_frontier() <= self.spec_len(),
    {
        let c = self.spec_cache();
        assert forall|i: int, j: int| 0 <= i < j < c.len() implies #[trigger] c[i].token.span.end
            <= #[trigger] c[j].token.span.start by {
            self.lemma_cache_ordered_upto(i, j);
        }
        assert forall|i: int| 0 <= i < c.len() implies self.spec_cursor() <= #[trigger] c[i].token.span.start
            && c[i].token.span.end <= self.spec_frontier() by {
            if i > 0 {
                self.lemma_cache_ordered_upto(0, i);
            }
            if i < c.len() - 1 {
                self.lemma_cache_ordered_upto(i, c.len() - 1);
            }
        }
    }

    proof fn lemma_cache_ordered_upto(&self, i: int, j: int)
        requires
            self.wf(),
            0 <= i < j < self.spec_cache().len(),
        ensures
            self.spec_cache()[i].token.span.end <= self.spec_cache()[j].token.span.start,
        decreases j - i,
    {
        let c = self.spec_cache();
        if j == i + 1 {
        } else {
            self.lemma_cache_ordered_upto(i, j - 1);
            assert(c[j - 1].token.span.end <= c[j].token.span.start);
            let s = c[j - 1].token.span;
            assert(s.start < s.end <= self.spec_len());
        }
    }

    /// An input over `src` starting in `state`, with the given emitter and cache.
    pub fn with_state_and_context(
        src: L::Source,
        state: L::State,
        context: InputContext<Emitter<ErrorOf<L>>, TokenCache<L::Token, L::State>>,
    ) -> (r: Input<L>)
        ensures
            r.spec_src() == src,
            r.spec_span() == (SimpleSpan { start: 0, end: 0 }),
            r.spec_state() == state,
            r.spec_cache().len() == 0,
            r.spec_capacity() == context.spec_cache().spec_capacity(),
            r.spec_policy() == context.spec_emitter().spec_policy(),
            r.spec_log() == context.spec_emitter().spec_log(),
            r.spec_boundary() is None,
            r.spec_watermark() == 0,
            r.spec_live().len() == 0,
            r.spec_pinned().len() == 0,
            r.wf(),
    {
        let (emitter, mut cache) = context.into_components();
        cache.clear();
        let probe = L::with_state(src, state.clone());
        let len = probe.source_len();
        Input {
            src,
            len,
            span: SimpleSpan::new(0, 0),
            state,
            cache,
            emitter,
            boundary: None,
            watermark: 0,
            pushes: 0,
            pops: 0,
            live: Vec::new(),
            pinned: Vec::new(),
            next_id: 0,
        }
    }

    /// An input over `src` starting in `state`, with a fail-fast emitter and the given cache.
    pub fn with_state_and_cache(
        src: L::Source,
        state: L::State,
        cache: TokenCache<L::Token, L::State>,
    ) -> (r: Input<L>)
        ensures
            r.spec_src() == src,
            r.spec_span() == (SimpleSpan { start: 0, end: 0 }),
            r.spec_state() == state,
            r.spec_cache().len() == 0,
            r.spec_capacity() == cache.spec_capacity(),
            r.spec_policy() == Policy::Fatal,
            r.spec_log().len() == 0,
            r.spec_boundary() is None,
            r.spec_live().len() == 0,
            r.wf(),
    {
        Self::with_state_and_context(src, state, InputContext::new(Emitter::fatal(), cache))
    }

    /// An input over `src` starting in `state`, with a fail-fast emitter and the default
    /// cache.
    pub fn with_state(src: L::Source, state: L::State) -> (r: Input<L>)
        ensures
            r.spec_src() == src,
            r.spec_span() == (SimpleSpan { start: 0, end: 0 }),
            r.spec_state() == state,
            r.spec_cache().len() == 0,
            r.spec_capacity() == crate::cache::DEFAULT_CAPACITY,
            r.spec_policy() == Policy::Fatal,
            r.spec_log().len() == 0,
            r.spec_boundary() is None,
            r.spec_live().len() == 0,
            r.wf(),
    {
        Self::with_state_and_cache(src, state, TokenCache::default())
    }

    /// An input over `src` starting in the default lexer state, with a fail-fast emitter and
    /// the default cache.
    pub fn new(src: L::Source) -> (r: Input<L>)
        where L::State: Default,
        ensures
            r.spec_src() == src,
            r.spec_span() == (SimpleSpan { start: 0, end: 0 }),
            r.spec_cache().len() == 0,
            r.spec_capacity() == crate::cache::DEFAULT_CAPACITY,
            r.spec_policy() == Policy::Fatal,
            r.spec_log().len() == 0,
            r.spec_boundary() is None,
            r.spec_live().len() == 0,
            r.wf(),
    {
        Self::with_state(src, L::State::default())
    }

    /// A handle to work on the input through.
    pub fn as_ref(&mut self) -> (r: InputRef<'_, L>)
        ensures
            r.inp() == *old(self),
            *r.handle() == r.inp(),
            *final(self) == *final(r.handle()),
    {
        InputRef { input: self }
    }

    /// The emitter, with the diagnostics it recorded.
    pub fn emitter(&self) -> (r: &Emitter<ErrorOf<L>>)
        ensures
            r.spec_policy() == self.spec_policy(),
            r.spec_log() == self.spec_log(),
    {
        &self.emitter
    }

    /// The emitter, with everything it recorded, giving up the input.
    pub fn into_emitter(self) -> (r: Emitter<ErrorOf<L>>)
        ensures
            r.spec_policy() == self.spec_policy(),
            r.spec_log() == self.spec_log(),
    {
        self.emitter
    }

    /// How many checkpoints running attempts and transactions hold.
    pub fn pinned_checkpoints_len(&self) -> (r: usize)
        ensures
            r == self.spec_pinned().len(),
    {
        self.pinned.len()
    }

    /// The lexer state after the last committed token.
    pub fn state(&self) -> (r: &L::State)
        ensures
            *r == self.spec_state(),
    {
        &self.state
    }

    /// The span of the last committed token.
    pub fn span(&self) -> (r: &SimpleSpan)
        ensures
            *r == self.spec_span(),
    {
        &self.span
    }
}

impl<L: Lexer> Clone for Input<L> {
    /// A copy of the input: the same source, position, poison boundary, dedup watermark,
    /// cache counters and checkpoint lineage, a clone of the lexer state, and clones of the
    /// cache and the emitter.
    fn clone(&self) -> (r: Self)
        ensures
            r.spec_src() == self.spec_src(),
            r.spec_len() == self.spec_len(),
            r.spec_span() == self.spec_span(),
            cloned(self.spec_state(), r.spec_state()),
            r.spec_boundary() == self.spec_boundary(),
            r.spec_watermark() == self.spec_watermark(),
            r.spec_pushes() == self.spec_pushes(),
            r.spec_pops() == self.spec_pops(),
            r.spec_live() == self.spec_live(),
            r.spec_pinned() == self.spec_pinned(),
            r.spec_next_id() == self.spec_next_id(),
    {
        Input {
            src: self.src,
            len: self.len,
            span: self.span,
            state: self.state.clone(),
            cache: self.cache.clone(),
            emitter: self.emitter.clone(),
            boundary: self.boundary,
            watermark: self.watermark,
            pushes: self.pushes,
            pops: self.pops,
            live: self.live.clone(),
            pinned: self.pinned.clone(),
            next_id: self.next_id,
        }
    }
}

/// A working handle on an [`Input`]: every lexing, lookahead, backtracking and recovery
/// operation goes through it.
pub struct InputRef<'r, L: Lexer> {
    input: &'r mut Input<L>,
}

impl<'r, L: Lexer> InputRef<'r, L> {
    /// The input as it stands.
    pub closed spec fn inp(&self) -> Input<L> {
        *self.input
    }

    /// The borrow of the input this handle holds.
    pub closed spec fn handle(&self) -> &'r mut Input<L> {
        self.input
    }

    /// The input as it stands is the one the handle's borrow points to.
    pub proof fn lemma_inp_is_handle(&self)
        ensures
            self.inp() == *self.handle(),
    {
    }
}

/// What one scan found.
enum Scan<T, E> {
    /// A token.
    Token(Spanned<T>),
    /// A resource-limit trip, accepted by the emitter.
    Tripped,
    /// The end of the input, or the poison boundary reached mid-scan.
    Eof,
    /// A lexer error the emitter refused, with its span.
    Rejected(SimpleSpan, E),
    /// A resource-limit trip the emitter refused.
    TripRejected(E),
}

/// What is at the head of the input.
enum Head<T, S, E> {
    /// The cache is not empty: the head is its front.
    Cached,
    /// A token lexed from the committed position, with the state after it; nothing is
    /// committed or cached yet.
    Scanned(Spanned<T>, S),
    /// The poison boundary is latched at the committed position: nothing was lexed.
    Latched,
    /// Lexing stopped at a resource-limit trip or at the poison boundary.
    Stopped,
    /// The input ended.
    Eof,
    /// The emitter refused a diagnostic.
    Failed(E),
}

/// What sits at the close position of a delimited list.
pub enum CloseStatus<T, S> {
    /// The closer is at hand, not yet committed; [`commit_probed`](InputRef::commit_probed)
    /// commits it.
    Close(ClosePayload<T, S>),
    /// Another token sits where the closer belongs; it stays in place, and this is a copy.
    WrongToken(Spanned<T>),
    /// The input genuinely ended with the list still open.
    Eof,
    /// A resource-limit trip or the poison boundary stopped lexing.
    Tripped,
}

/// Where a probed closer is held until it is committed.
pub enum ClosePayload<T, S> {
    /// Lexed by the probe and carried out with the state after it; nothing was cached.
    Scanned(CachedToken<T, S>),
    /// Left at the front of the cache.
    CacheFront,
}

/// The first `k` entries of `cache`, each token with the lexer state after it.
pub open spec fn cache_toks<T, S>(cache: Seq<CachedToken<T, S>>, k: int) -> Seq<(Spanned<T>, S)> {
    Seq::new(k as nat, |j: int| (cache[j].token, cache[j].state))
}

/// The reports of the skipped tokens `toks`, one each at its span with the matching error
/// of `errs`.
pub open spec fn report_log<T, S, E>(toks: Seq<(Spanned<T>, S)>, errs: Seq<E>) -> Seq<Emission<E>> {
    Seq::new(toks.len(), |j: int| Emission::Error { span: toks[j].0.span, error: errs[j] })
}

/// Each of the skipped tokens `toks` was refused by `pred`.
pub open spec fn all_refused<T, S, F: FnMut(&Spanned<T>) -> bool>(toks: Seq<(Spanned<T>, S)>, pred: F) -> bool {
    forall|i: int| #![trigger toks[i]] 0 <= i < toks.len() ==> call_ensures(pred, (&toks[i].0,), false)
}

/// The skipped tokens `toks` of a balanced synchronization: `ds[i]` is the nesting depth
/// before the `i`-th (starting at zero), `pred` refused it if that depth is zero, and
/// `classify` put its kind in the class `bs[i]`, which moved the depth to `ds[i + 1]`.
pub open spec fn balanced_skips<T: Token, S, D, F: FnMut(&Spanned<T>) -> bool, C: FnMut(&T::Kind) -> Balance<D>>(
    toks: Seq<(Spanned<T>, S)>,
    pred: F,
    classify: C,
    ds: Seq<usize>,
    bs: Seq<Balance<D>>,
) -> bool {
    &&& ds.len() == toks.len() + 1
    &&& bs.len() == toks.len()
    &&& ds[0] == 0
    &&& forall|i: int|
        #![trigger toks[i]]
        0 <= i < toks.len() ==> (ds[i] == 0 ==> call_ensures(pred, (&toks[i].0,), false))
            && call_ensures(classify, (&toks[i].0.data.spec_kind(),), bs[i]) && ds[i + 1] == next_depth(
            ds[i],
            bs[i],
        )
}

/// The nesting depth before each token a balanced synchronization skipped is the depth after
/// balancing the classes of the tokens before it from zero, so (with
/// [`lemma_depth_counts_unmatched_openers`](crate::recovery::lemma_depth_counts_unmatched_openers))
/// `pred` is only consulted on tokens where every opener skipped before them was closed.
pub proof fn lemma_balanced_depths<T: Token, S, D, F: FnMut(&Spanned<T>) -> bool, C: FnMut(&T::Kind) -> Balance<D>>(
    toks: Seq<(Spanned<T>, S)>,
    pred: F,
    classify: C,
    ds: Seq<usize>,
    bs: Seq<Balance<D>>,
    i: int,
)
    requires
        balanced_skips(toks, pred, classify, ds, bs),
        0 <= i <= toks.len(),
    ensures
        ds[i] == depth_after(bs.take(i)),
    decreases i,
{
    if i > 0 {
        lemma_balanced_depths(toks, pred, classify, ds, bs, i - 1);
        assert(toks[i - 1] == toks[i - 1]);
        assert(bs.take(i).drop_last() =~= bs.take(i - 1));
    } else {
        assert(bs.take(0).len() == 0);
    }
}

/// The tokens `toks` a synchronization in `mode` skipped.
spec fn sync_skips<T: Token, S, D, F: FnMut(&Spanned<T>) -> bool, C: FnMut(&T::Kind) -> Balance<D>>(
    mode: SyncMode,
    toks: Seq<(Spanned<T>, S)>,
    pred: F,
    classify: C,
    ds: Seq<usize>,
    bs: Seq<Balance<D>>,
) -> bool {
    if mode != SyncMode::Balanced {
        all_refused(toks, pred)
    } else {
        balanced_skips(toks, pred, classify, ds, bs)
    }
}

/// Whether how a synchronization run ended, `r0`, agrees with how the scan after its
/// skipped tokens ends, `o`: a match is a token `pred` accepts (at depth zero, balanced),
/// consumed through-style (the committed `span` and `state` are its) and otherwise staged
/// in `cache` (of capacity `cap`) with a copy returned; a failure is the end of the input; a
/// stop is the poison boundary or an accepted trip; a refusal is a refused diagnostic: of the
/// scan, or, where `reported` (tokens were skipped), possibly that of the last skipped token.
spec fn sync_end_agrees<T: Clone, S, E, F: FnMut(&Spanned<T>) -> bool>(
    through: bool,
    balanced: bool,
    reported: bool,
    o: ScanEnd<T, S>,
    r0: SyncEnd<T, E>,
    depth_end: usize,
    pred: F,
    cache: Seq<CachedToken<T, S>>,
    cap: usize,
    span: SimpleSpan,
    state: S,
) -> bool {
    match r0 {
        SyncEnd::Matched(u) => match o {
            ScanEnd::Token(t, st) => call_ensures(pred, (&t,), true) && (balanced ==> depth_end == 0) && (
            through ==> u == t && span == t.span && state == st) && (!through ==> cloned(t, u) && (0 < cap
                ==> cache == seq![CachedToken { token: t, state: st }])),
            _ => false,
        },
        SyncEnd::Failed => o is End,
        SyncEnd::Stopped => o is Stop || o matches ScanEnd::Trip(_, false),
        SyncEnd::Refused(_) => o is Refused || o matches ScanEnd::Trip(_, true) || reported,
    }
}

/// Which synchronization an engine run performs.
#[derive(PartialEq, Eq, Structural)]
enum SyncMode {
    /// Stop before the sync token, leaving it in place.
    To,
    /// Consume the sync token too.
    Through,
    /// Stop before a sync token at nesting depth zero, leaving it in place.
    Balanced,
}

/// How a synchronization run ended.
enum SyncEnd<T, E> {
    /// A sync token was found: consumed (and returned) through-style, or left in place with
    /// a copy returned.
    Matched(Spanned<T>),
    /// The input ended with no sync token: nothing was committed and every diagnostic of the
    /// run was taken back.
    Failed,
    /// A resource-limit trip or the poison boundary stopped the run; the skipped prefix was
    /// committed.
    Stopped,
    /// The emitter refused a diagnostic; the skipped prefix through the offending item was
    /// committed.
    Refused(E),
}

impl<'r, L: Lexer> InputRef<'r, L> {
    /// The span of the last committed token.
    pub fn span(&self) -> (r: &SimpleSpan)
        ensures
            *r == self.inp().spec_span(),
    {
        &self.input.span
    }

    /// The lexer state after the last committed token.
    pub fn state(&self) -> (r: &L::State)
        ensures
            *r == self.inp().spec_state(),
    {
        &self.input.state
    }

    /// Where the next token starts, as far as is known: the start of the first cached token,
    /// or the committed position when nothing is cached.
    pub fn cursor(&self) -> (r: Cursor)
        ensures
            r.spec_offset() == self.inp().spec_resume(),
    {
        match self.input.cache.front() {
            Some(f) => Cursor { offset: f.token.span.start },
            None => Cursor { offset: self.input.span.end },
        }
    }

    /// The position lexing resumes from: the end of the last cached token, or the
    /// committed position when nothing is cached.
    pub fn offset(&self) -> (r: usize)
        ensures
            r == self.inp().spec_frontier(),
    {
        match self.input.cache.back() {
            Some(b) => b.token.span.end,
            None => self.input.span.end,
        }
    }

    /// The lookahead cache.
    pub fn cache(&self) -> (r: &TokenCache<L::Token, L::State>)
        ensures
            r.spec_entries() == self.inp().spec_cache(),
            r.spec_capacity() == self.inp().spec_capacity(),
    {
        &self.input.cache
    }

    /// The emitter, with the diagnostics it recorded.
    pub fn emitter(&self) -> (r: &Emitter<ErrorOf<L>>)
        ensures
            r.spec_policy() == self.inp().spec_policy(),
            r.spec_log() == self.inp().spec_log(),
    {
        &self.input.emitter
    }

    /// Whether a resource-limit trip has latched a poison boundary.
    pub fn is_poisoned(&self) -> (r: bool)
        ensures
            r == (self.inp().spec_boundary() is Some),
    {
        self.input.boundary.is_some()
    }

    /// Whether the poison boundary is latched exactly at the committed position: every
    /// further read stops there.
    pub fn at_latched_boundary(&self) -> (r: bool)
        ensures
            r == self.inp().spec_at_latched_boundary(),
    {
        match self.input.boundary {
            Some(b) => b == self.input.span.end,
            None => false,
        }
    }

    /// The number of live checkpoints.
    pub fn live_checkpoints_len(&self) -> (r: usize)
        ensures
            r == self.inp().spec_live().len(),
    {
        self.input.live.len()
    }

    fn reached_boundary(&self, at: usize) -> (r: bool)
        ensures
            r == self.inp().spec_reached(at),
    {
        match self.input.boundary {
            Some(b) => b <= at,
            None => false,
        }
    }

    /// A lexer resumed at `at` (or at the end of the source, if `at` is past it) in
    /// `state`, and the position it resumes from.
    fn lexer_at(&self, at: usize, state: L::State) -> (r: (L, usize))
        ensures
            r.0.spec_offset() == r.1,
            r.0.spec_source() == self.inp().spec_src(),
            r.1 <= r.0.spec_len(),
            r.0.spec_len() == L::spec_source_len(self.inp().spec_src()),
            r.0.spec_state() == state,
            self.inp().wf() && at <= self.inp().spec_len() ==> r.1 == at,
            at <= r.0.spec_len() ==> r.1 == at,
    {
        let mut lx = L::with_state(self.input.src, state);
        let n = lx.source_len();
        let from = if at <= n {
            at
        } else {
            n
        };
        lx.bump(from);
        (lx, from)
    }

    /// Whether what `head` found agrees with how a scan from the committed position ends.
    spec fn head_agrees(r: Head<L::Token, L::State, ErrorOf<L>>, o: ScanEnd<L::Token, L::State>) -> bool {
        match r {
            Head::Scanned(t, s) => o == ScanEnd::<L::Token, L::State>::Token(t, s),
            Head::Stopped => o is Stop || o matches ScanEnd::Trip(_, false),
            Head::Eof => o is End,
            Head::Failed(_) => o is Refused || o matches ScanEnd::Trip(_, true),
            Head::Cached | Head::Latched => false,
        }
    }

    /// What is at the head of the input: the cache front, or else one token lexed from the
    /// committed position. Nothing is committed or cached.
    fn head(&mut self) -> (r: Head<L::Token, L::State, ErrorOf<L>>)
        ensures
            final(self).inp().grew_only(&old(self).inp()),
            final(self).inp().same_committed(&old(self).inp()),
            final(self).inp().latch_ok(&old(self).inp()),
            (old(self).inp().spec_cache().len() > 0) == (r is Cached),
            r is Cached || r is Latched ==> final(self).inp().same_stream(&old(self).inp()),
            old(self).inp().spec_cache().len() == 0 && old(self).inp().spec_reached(
                old(self).inp().spec_cursor(),
            ) ==> r is Latched,
            r is Latched ==> old(self).inp().spec_reached(old(self).inp().spec_cursor()),
            r matches Head::Scanned(t, _) ==> final(self).inp().spec_boundary() == old(self).inp().spec_boundary() && t.span.start < t.span.end && (old(self).inp().wf()
                ==> old(self).inp().spec_cursor() <= t.span.start && t.span.end <= old(self).inp().spec_len()),
            r is Eof ==> final(self).inp().spec_boundary() == old(self).inp().spec_boundary(),
            r is Stopped ==> final(self).inp().spec_boundary() is Some,
            r is Failed ==> old(self).inp().spec_policy() == Policy::Fatal,
            old(self).inp().wf() && old(self).inp().spec_cache().len() == 0 && !old(self).inp().spec_reached(
                old(self).inp().spec_cursor(),
            ) ==> exists|c: L::State|
                #[trigger] cloned(old(self).inp().spec_state(), c) && Self::head_agrees(r, head_end(old(self).inp(), c))
                    && (old(self).inp().spec_policy() == Policy::Verbose ==> final(self).inp().spec_log()
                    == old(self).inp().spec_log() + head_log(old(self).inp(), c)) && scan_settles(
                    old(self).inp(),
                    c,
                    final(self).inp(),
                ) && (r matches Head::Failed(e) ==> Some(e) == head_refusal(old(self).inp(), c)),
    {
        proof {
            lemma_extends_refl(self.inp().spec_log());
        }
        if self.input.cache.len() > 0 {
            return Head::Cached;
        }
        let cur = self.input.span.end;
        if self.reached_boundary(cur) {
            return Head::Latched;
        }
        let c = self.input.state.clone();
        let ghost gc = c;
        let (mut lx, from) = self.lexer_at(cur, c);
        let mut at = from;
        let scan = self.scan_with(&mut lx, &mut at, Ghost(true));
        proof {
            if old(self).inp().wf() {
                assert(cloned(old(self).inp().spec_state(), gc));
            }
        }
        match scan {
            Scan::Token(t) => Head::Scanned(t, lx.into_state()),
            Scan::Tripped => Head::Stopped,
            Scan::Eof => {
                if self.reached_boundary(at) {
                    Head::Stopped
                } else {
                    Head::Eof
                }
            },
            Scan::Rejected(_, e) => Head::Failed(e),
            Scan::TripRejected(e) => Head::Failed(e),
        }
    }

    /// Puts `t`, with the state `s` after it, at the back of the empty cache, if it has
    /// room.
    fn stage(&mut self, t: Spanned<L::Token>, s: L::State)
        requires
            old(self).inp().spec_cache().len() == 0,
            t.span.start < t.span.end,
            old(self).inp().wf() ==> old(self).inp().spec_cursor() <= t.span.start && t.span.end
                <= old(self).inp().spec_len(),
        ensures
            final(self).inp().staged(&old(self).inp(), t, s),
            final(self).inp().same_frame(&old(self).inp()),
            final(self).inp().same_lineage(&old(self).inp()),
            final(self).inp().spec_boundary() == old(self).inp().spec_boundary(),
            final(self).inp().spec_watermark() == old(self).inp().spec_watermark(),
            final(self).inp().spec_log() == old(self).inp().spec_log(),
            old(self).inp().wf() ==> final(self).inp().wf(),
    {
        let pushed = self.input.cache.push_back(CachedToken::new(t, s));
        match pushed {
            Ok(()) => {
                self.input.pushes = bump_count(self.input.pushes);
                assert(self.inp().spec_cache() =~= seq![CachedToken { token: t, state: s }]);
            },
            Err(_) => {},
        }
    }

    /// Commits the front of the cache.
    fn take_front(&mut self) -> (r: Spanned<L::Token>)
        requires
            old(self).inp().spec_cache().len() > 0,
        ensures
            final(self).inp().took_front(&old(self).inp(), r),
            final(self).inp().same_frame(&old(self).inp()),
            final(self).inp().same_lineage(&old(self).inp()),
            old(self).inp().wf() ==> final(self).inp().wf(),
    {
        let entry = self.input.cache.pop_front();
        match entry {
            Some(entry) => {
                self.input.pops = bump_count(self.input.pops);
                let (tok, st) = entry.into_components();
                self.input.span = tok.span;
                self.input.state = st;
                proof {
                    let o = old(self).inp();
                    if o.wf() {
                        assert forall|i: int|
                            0 <= i < self.inp().spec_cache().len() - 1 implies #[trigger] self.inp().spec_cache()[i].token.span.end
                                <= self.inp().spec_cache()[i + 1].token.span.start by {
                            assert(o.spec_cache()[i + 1].token.span.end <= o.spec_cache()[i + 2].token.span.start);
                        }
                        assert forall|i: int|
                            0 <= i < self.inp().spec_cache().len() implies ({
                                let s = #[trigger] self.inp().spec_cache()[i].token.span;
                                s.start < s.end <= self.inp().spec_len()
                            }) by {
                            let s0 = o.spec_cache()[i + 1].token.span;
                            assert(s0.start < s0.end <= o.spec_len());
                        }
                        if self.inp().spec_cache().len() > 0 {
                            assert(o.spec_cache()[0].token.span.end <= o.spec_cache()[1].token.span.start);
                        }
                        let s0 = o.spec_cache()[0].token.span;
                        assert(s0.start < s0.end <= o.spec_len());
                    }
                }
                tok
            },
            None => vstd::pervasive::unreached(),
        }
    }

    /// Commits `t`, freshly lexed from the committed position, with the state `s` after it.
    fn advance(&mut self, t: &Spanned<L::Token>, s: L::State)
        requires
            old(self).inp().spec_cache().len() == 0,
            t.span.start < t.span.end,
            old(self).inp().wf() ==> old(self).inp().spec_cursor() <= t.span.start && t.span.end
                <= old(self).inp().spec_len(),
        ensures
            final(self).inp().advanced_to(&old(self).inp(), *t),
            final(self).inp().spec_state() == s,
            final(self).inp().same_frame(&old(self).inp()),
            final(self).inp().same_lineage(&old(self).inp()),
            final(self).inp().spec_watermark() == old(self).inp().spec_watermark(),
            final(self).inp().spec_log() == old(self).inp().spec_log(),
            old(self).inp().wf() ==> final(self).inp().wf(),
    {
        self.input.span = t.span;
        self.input.state = s;
    }

    /// Commits the region `span`, freshly lexed from the committed position (whose cache is
    /// empty), with the state `s` after it.
    fn advance_span(&mut self, span: SimpleSpan, s: L::State)
        requires
            old(self).inp().spec_cache().len() == 0,
            span.start < span.end,
        ensures
            final(self).inp().spec_span() == span,
            final(self).inp().spec_state() == s,
            final(self).inp().spec_cache() == old(self).inp().spec_cache(),
            final(self).inp().spec_pushes() == old(self).inp().spec_pushes(),
            final(self).inp().spec_pops() == old(self).inp().spec_pops(),
            final(self).inp().same_frame(&old(self).inp()),
            final(self).inp().same_lineage(&old(self).inp()),
            final(self).inp().spec_boundary() == old(self).inp().spec_boundary(),
            final(self).inp().spec_watermark() == old(self).inp().spec_watermark(),
            final(self).inp().spec_log() == old(self).inp().spec_log(),
            old(self).inp().wf() && old(self).inp().spec_cursor() <= span.start && span.end <= old(self).inp().spec_len()
                ==> final(self).inp().wf(),
    {
        self.input.span = span;
        self.input.state = s;
    }

    /// Commits the first `k` cached tokens.
    /// Commits every cached token and then, where a token was skipped past the cache, that
    /// one too (`last`: its span and the state after it), leaving the cache empty.
    fn settle_prefix(&mut self, n0: usize, last: Option<(SimpleSpan, L::State)>)
        requires
            n0 == old(self).inp().spec_cache().len(),
            last matches Some(l) ==> l.0.start < l.0.end && (old(self).inp().wf() ==> old(self).inp().spec_frontier()
                <= l.0.start && l.0.end <= old(self).inp().spec_len()),
        ensures
            final(self).inp().same_frame(&old(self).inp()),
            final(self).inp().same_lineage(&old(self).inp()),
            final(self).inp().spec_boundary() == old(self).inp().spec_boundary(),
            final(self).inp().spec_watermark() == old(self).inp().spec_watermark(),
            final(self).inp().spec_log() == old(self).inp().spec_log(),
            final(self).inp().spec_pushes() == old(self).inp().spec_pushes(),
            final(self).inp().spec_cache().len() == 0,
            n0 == 0 ==> final(self).inp().spec_pops() == old(self).inp().spec_pops(),
            last is None && n0 == 0 ==> final(self).inp().same_committed(&old(self).inp()),
            last is None && n0 > 0 ==> final(self).inp().spec_span() == old(self).inp().spec_cache()[n0 - 1].token.span
                && final(self).inp().spec_state() == old(self).inp().spec_cache()[n0 - 1].state,
            last matches Some(l) ==> final(self).inp().spec_span() == l.0 && final(self).inp().spec_state() == l.1,
            old(self).inp().wf() ==> final(self).inp().wf() && old(self).inp().spec_cursor()
                <= final(self).inp().spec_cursor(),
            last matches Some(l) && old(self).inp().wf() ==> old(self).inp().spec_cursor() < final(self).inp().spec_cursor(),
            last is None && n0 > 0 && old(self).inp().wf() ==> old(self).inp().spec_cursor() < final(self).inp().spec_cursor(),
    {
        proof {
            if n0 > 0 && old(self).inp().wf() {
                old(self).inp().lemma_cache_ordered();
                let c0 = old(self).inp().spec_cache();
                assert(c0[n0 - 1].token.span.start < c0[n0 - 1].token.span.end);
                assert(old(self).inp().spec_cursor() <= c0[n0 - 1].token.span.start);
            }
        }
        let ghost o = old(self).inp();
        self.commit_cached(n0);
        proof {
            if n0 > 0 {
                assert(o.spec_frontier() == o.spec_cache()[n0 - 1].token.span.end);
            }
        }
        match last {
            Some((sp, ls)) => self.advance_span(sp, ls),
            None => {},
        }
    }

    fn commit_cached(&mut self, k: usize)
        requires
            k <= old(self).inp().spec_cache().len(),
        ensures
            final(self).inp().same_frame(&old(self).inp()),
            final(self).inp().same_lineage(&old(self).inp()),
            final(self).inp().spec_boundary() == old(self).inp().spec_boundary(),
            final(self).inp().spec_watermark() == old(self).inp().spec_watermark(),
            final(self).inp().spec_log() == old(self).inp().spec_log(),
            final(self).inp().spec_pushes() == old(self).inp().spec_pushes(),
            final(self).inp().spec_cache() == old(self).inp().spec_cache().subrange(
                k as int,
                old(self).inp().spec_cache().len() as int,
            ),
            k == 0 ==> final(self).inp().same_committed(&old(self).inp()),
            k > 0 ==> final(self).inp().spec_span() == old(self).inp().spec_cache()[k - 1].token.span
                && final(self).inp().spec_state() == old(self).inp().spec_cache()[k - 1].state,
            old(self).inp().wf() ==> final(self).inp().wf() && old(self).inp().spec_cursor()
                <= final(self).inp().spec_cursor(),
    {
        let mut j: usize = 0;
        while j < k
            invariant
                j <= k <= old(self).inp().spec_cache().len(),
                self.inp().same_frame(&old(self).inp()),
                self.inp().same_lineage(&old(self).inp()),
                self.inp().spec_boundary() == old(self).inp().spec_boundary(),
                self.inp().spec_watermark() == old(self).inp().spec_watermark(),
                self.inp().spec_log() == old(self).inp().spec_log(),
                self.inp().spec_pushes() == old(self).inp().spec_pushes(),
                self.inp().spec_cache() == old(self).inp().spec_cache().subrange(
                    j as int,
                    old(self).inp().spec_cache().len() as int,
                ),
                j == 0 ==> self.inp().same_committed(&old(self).inp()),
                j > 0 ==> self.inp().spec_span() == old(self).inp().spec_cache()[j - 1].token.span
                    && self.inp().spec_state() == old(self).inp().spec_cache()[j - 1].state,
                old(self).inp().wf() ==> self.inp().wf() && old(self).inp().spec_cursor()
                    <= self.inp().spec_cursor(),
            decreases k - j,
        {
            let ghost before = self.inp();
            proof {
                if old(self).inp().wf() {
                    let s0 = before.spec_cache()[0].token.span;
                    assert(s0.start < s0.end <= before.spec_len());
                }
            }
            let _ = self.take_front();
            j = j + 1;
            proof {
                assert(self.inp().spec_cache() =~= old(self).inp().spec_cache().subrange(
                    j as int,
                    old(self).inp().spec_cache().len() as int,
                ));
            }
        }
    }

    /// Consumes the next token; `None` at the end of the input, at the poison boundary, or
    /// when a resource-limit trip stops lexing.
    ///
    /// A cached token is consumed without lexing. Otherwise one token is lexed from the
    /// committed position; lexer errors crossed on the way are reported once each.
    pub fn next(&mut self) -> (r: Result<Option<Spanned<L::Token>>, ErrorOf<L>>)
        ensures
            final(self).inp().grew_only(&old(self).inp()),
            final(self).inp().latch_ok(&old(self).inp()),
            old(self).inp().spec_cache().len() > 0 ==> (r matches Ok(Some(t)) && final(self).inp().took_front(&old(self).inp(), t)),
            old(self).inp().spec_cache().len() == 0 ==> match r {
                Ok(Some(t)) => final(self).inp().advanced_to(&old(self).inp(), t),
                _ => final(self).inp().same_committed(&old(self).inp()),
            },
            old(self).inp().spec_cache().len() == 0 && old(self).inp().spec_reached(
                old(self).inp().spec_cursor(),
            ) ==> (r matches Ok(None) && final(self).inp().same_stream(&old(self).inp())),
            r is Err ==> old(self).inp().spec_policy() == Policy::Fatal,
            old(self).inp().wf() && old(self).inp().spec_cache().len() == 0 && !old(self).inp().spec_reached(
                old(self).inp().spec_cursor(),
            ) ==> exists|c: L::State|
                #[trigger] cloned(old(self).inp().spec_state(), c) && (old(self).inp().spec_policy() == Policy::Verbose ==> final(self).inp().spec_log() == old(self).inp().spec_log() + head_log(old(self).inp(), c)) && scan_settles(old(self).inp(), c, final(self).inp()) && refused_with(head_end(old(self).inp(), c), r, head_refusal(old(self).inp(), c)) && read_agrees(
                    head_end(old(self).inp(), c),
                    r,
                    final(self).inp().spec_state(),
                ),
    {
        let h = self.head();
        match h {
            Head::Cached => Ok(Some(self.take_front())),
            Head::Scanned(t, s) => {
                self.advance(&t, s);
                Ok(Some(t))
            },
            Head::Latched | Head::Stopped | Head::Eof => Ok(None),
            Head::Failed(e) => Err(e),
        }
    }

    /// The terminal end-of-input error at the committed position.
    fn terminal_eot(&self) -> (r: ErrorOf<L>)
        where ErrorOf<L>: From<UnexpectedEot>,
        ensures
            <ErrorOf<L> as vstd::std_specs::convert::FromSpec<UnexpectedEot>>::obeys_from_spec() ==> r
                == <ErrorOf<L> as vstd::std_specs::convert::FromSpec<UnexpectedEot>>::from_spec(
                UnexpectedEot::spec_new(self.inp().spec_cursor(), true),
            ),
    {
        ErrorOf::<L>::from(UnexpectedEot::eot_of(self.input.span.end).into_terminal())
    }

    /// Consumes the next token, like [`next`](InputRef::next), except that a stop at the
    /// poison boundary or at a resource-limit trip is the terminal end-of-input error rather
    /// than `None`: `Ok(None)` means the input genuinely ended.
    pub fn next_or_stop(&mut self) -> (r: Result<Option<Spanned<L::Token>>, ErrorOf<L>>)
        where ErrorOf<L>: From<UnexpectedEot>,
        ensures
            final(self).inp().grew_only(&old(self).inp()),
            final(self).inp().latch_ok(&old(self).inp()),
            old(self).inp().spec_cache().len() > 0 ==> (r matches Ok(Some(t)) && final(self).inp().took_front(&old(self).inp(), t)),
            old(self).inp().spec_cache().len() == 0 ==> match r {
                Ok(Some(t)) => final(self).inp().advanced_to(&old(self).inp(), t),
                _ => final(self).inp().same_committed(&old(self).inp()),
            },
            old(self).inp().spec_cache().len() == 0 && old(self).inp().spec_reached(
                old(self).inp().spec_cursor(),
            ) ==> r is Err && final(self).inp().same_stream(&old(self).inp()) && (terminal_eot_at::<L>(
                old(self).inp().spec_cursor(),
            ) matches Some(e) ==> r matches Err(x) && x == e),
            r matches Ok(None) ==> final(self).inp().spec_boundary() == old(self).inp().spec_boundary(),
            old(self).inp().wf() && old(self).inp().spec_cache().len() == 0 && !old(self).inp().spec_reached(
                old(self).inp().spec_cursor(),
            ) ==> exists|c: L::State|
                #[trigger] cloned(old(self).inp().spec_state(), c) && (old(self).inp().spec_policy() == Policy::Verbose ==> final(self).inp().spec_log() == old(self).inp().spec_log() + head_log(old(self).inp(), c)) && scan_settles(old(self).inp(), c, final(self).inp()) && refused_with(head_end(old(self).inp(), c), r, head_refusal(old(self).inp(), c)) && stopped_with(head_end(old(self).inp(), c), r, terminal_eot_at::<L>(old(self).inp().spec_cursor())) && read_or_stop_agrees(
                    head_end(old(self).inp(), c),
                    r,
                    final(self).inp().spec_state(),
                ),
    {
        let h = self.head();
        match h {
            Head::Cached => Ok(Some(self.take_front())),
            Head::Scanned(t, s) => {
                self.advance(&t, s);
                Ok(Some(t))
            },
            Head::Latched | Head::Stopped => Err(self.terminal_eot()),
            Head::Eof => Ok(None),
            Head::Failed(e) => Err(e),
        }
    }

    /// A copy of the next token, leaving it in place (staged in the cache when it had to be
    /// lexed); `None` at the end of the input, at the poison boundary, or at a trip.
    pub fn peek_one(&mut self) -> (r: Result<Option<Spanned<L::Token>>, ErrorOf<L>>)
        ensures
            final(self).inp().grew_only(&old(self).inp()),
            final(self).inp().latch_ok(&old(self).inp()),
            final(self).inp().kept_position(&old(self).inp()),
            old(self).inp().spec_cache().len() > 0 ==> (final(self).inp().same_stream(&old(self).inp())
                && (r matches Ok(Some(t)) && cloned(old(self).inp().spec_cache()[0].token, t))),
            old(self).inp().spec_cache().len() == 0 ==> match r {
                Ok(Some(t)) => exists|u: Spanned<L::Token>, s: L::State|
                    #![auto]
                    final(self).inp().staged(&old(self).inp(), u, s) && cloned(u, t),
                _ => final(self).inp().same_committed(&old(self).inp()),
            },
            old(self).inp().spec_cache().len() == 0 && old(self).inp().spec_reached(
                old(self).inp().spec_cursor(),
            ) ==> (r matches Ok(None) && final(self).inp().same_stream(&old(self).inp())),
            r is Err ==> old(self).inp().spec_policy() == Policy::Fatal,
            old(self).inp().wf() && old(self).inp().spec_cache().len() == 0 && !old(self).inp().spec_reached(
                old(self).inp().spec_cursor(),
            ) ==> exists|c: L::State|
                #[trigger] cloned(old(self).inp().spec_state(), c) && (old(self).inp().spec_policy() == Policy::Verbose ==> final(self).inp().spec_log() == old(self).inp().spec_log() + head_log(old(self).inp(), c)) && scan_settles(old(self).inp(), c, final(self).inp()) && refused_with(head_end(old(self).inp(), c), r, head_refusal(old(self).inp(), c)) && peek_agrees(
                    head_end(old(self).inp(), c),
                    r,
                    final(self).inp().spec_cache(),
                    final(self).inp().spec_capacity(),
                ),
    {
        let h = self.head();
        match h {
            Head::Cached => {
                match self.input.cache.front() {
                    Some(front) => Ok(Some(front.token.clone())),
                    None => vstd::pervasive::unreached(),
                }
            },
            Head::Scanned(t, s) => {
                let c = t.clone();
                let ghost gt = t;
                let ghost gs = s;
                self.stage(t, s);
                assert(final(self).inp().staged(&old(self).inp(), gt, gs) && cloned(gt, c));
                Ok(Some(c))
            },
            Head::Latched | Head::Stopped | Head::Eof => Ok(None),
            Head::Failed(e) => Err(e),
        }
    }

    /// Whether the front of the (nonempty) cache satisfies `pred`.
    fn front_satisfies<F: FnMut(&Spanned<L::Token>) -> bool>(&self, pred: &mut F) -> (r: bool)
        requires
            self.inp().spec_cache().len() > 0,
            forall|t: &Spanned<L::Token>| call_requires(*old(pred), (t,)),
        ensures
            call_ensures(*old(pred), (&self.inp().spec_cache()[0].token,), r),
            *final(pred) == *old(pred),
    {
        match self.input.cache.front() {
            Some(f) => pred(&f.token),
            None => vstd::pervasive::unreached(),
        }
    }

    /// Consumes the next token if it satisfies `pred`; otherwise leaves it in place (staged
    /// in the cache when it had to be lexed) and returns `None`. `None` also covers the end
    /// of the input, the poison boundary and a resource-limit trip; see
    /// [`try_expect_or_stop`](InputRef::try_expect_or_stop) to tell those apart.
    pub fn try_expect<F: FnMut(&Spanned<L::Token>) -> bool>(&mut self, mut pred: F) -> (r: Result<
        Option<Spanned<L::Token>>,
        ErrorOf<L>,
    >)
        requires
            forall|t: &Spanned<L::Token>| call_requires(pred, (t,)),
        ensures
            final(self).inp().grew_only(&old(self).inp()),
            final(self).inp().latch_ok(&old(self).inp()),
            r matches Ok(Some(t)) ==> call_ensures(pred, (&t,), true) && (final(self).inp().took_front(
                &old(self).inp(),
                t,
            ) || final(self).inp().advanced_to(&old(self).inp(), t)),
            old(self).inp().spec_cache().len() > 0 ==> r is Ok,
            old(self).inp().spec_cache().len() > 0 && declined(r) ==> final(self).inp().same_stream(
                &old(self).inp(),
            ) && call_ensures(pred, (&old(self).inp().spec_cache()[0].token,), false),
            old(self).inp().spec_cache().len() == 0 && declined(r) ==> (final(self).inp().same_committed(
                &old(self).inp(),
            ) || exists|u: Spanned<L::Token>, s: L::State|
                #[trigger] final(self).inp().staged(&old(self).inp(), u, s) && call_ensures(
                    pred,
                    (&u,),
                    false,
                )),
            old(self).inp().spec_cache().len() == 0 && old(self).inp().spec_reached(
                old(self).inp().spec_cursor(),
            ) ==> (r matches Ok(None) && final(self).inp().same_stream(&old(self).inp())),
            r is Err ==> old(self).inp().spec_policy() == Policy::Fatal && final(self).inp().same_committed(
                &old(self).inp(),
            ),
            old(self).inp().wf() && old(self).inp().spec_cache().len() == 0 && !old(self).inp().spec_reached(
                old(self).inp().spec_cursor(),
            ) ==> exists|c: L::State|
                #[trigger] cloned(old(self).inp().spec_state(), c) && (old(self).inp().spec_policy() == Policy::Verbose ==> final(self).inp().spec_log() == old(self).inp().spec_log() + head_log(old(self).inp(), c)) && scan_settles(old(self).inp(), c, final(self).inp()) && refused_with(head_end(old(self).inp(), c), r, head_refusal(old(self).inp(), c)) && expect_agrees(
                    head_end(old(self).inp(), c),
                    r,
                    final(self).inp().spec_state(),
                    final(self).inp().spec_cache(),
                    final(self).inp().spec_capacity(),
                    pred,
                    false,
                ),
    {
        let h = self.head();
        match h {
            Head::Cached => {
                if self.front_satisfies(&mut pred) {
                    Ok(Some(self.take_front()))
                } else {
                    Ok(None)
                }
            },
            Head::Scanned(t, s) => {
                if pred(&t) {
                    self.advance(&t, s);
                    Ok(Some(t))
                } else {
                    let ghost gt = t;
                    let ghost gs = s;
                    self.stage(t, s);
                    assert(self.inp().staged(&old(self).inp(), gt, gs));
                    Ok(None)
                }
            },
            Head::Latched | Head::Stopped | Head::Eof => Ok(None),
            Head::Failed(e) => Err(e),
        }
    }

    /// Consumes the next token if it satisfies `pred`, like [`try_expect`](InputRef::try_expect),
    /// except that a stop at the poison boundary or at a resource-limit trip is the terminal
    /// end-of-input error rather than a decline: `Ok(None)` means the token is definitely
    /// absent (it failed `pred`, or the input genuinely ended).
    pub fn try_expect_or_stop<F: FnMut(&Spanned<L::Token>) -> bool>(&mut self, mut pred: F) -> (r:
        Result<Option<Spanned<L::Token>>, ErrorOf<L>>)
        where ErrorOf<L>: From<UnexpectedEot>,
        requires
            forall|t: &Spanned<L::Token>| call_requires(pred, (t,)),
        ensures
            final(self).inp().grew_only(&old(self).inp()),
            final(self).inp().latch_ok(&old(self).inp()),
            r matches Ok(Some(t)) ==> call_ensures(pred, (&t,), true) && (final(self).inp().took_front(
                &old(self).inp(),
                t,
            ) || final(self).inp().advanced_to(&old(self).inp(), t)),
            old(self).inp().spec_cache().len() > 0 ==> r is Ok,
            old(self).inp().spec_cache().len() > 0 && declined(r) ==> final(self).inp().same_stream(
                &old(self).inp(),
            ) && call_ensures(pred, (&old(self).inp().spec_cache()[0].token,), false),
            old(self).inp().spec_cache().len() == 0 && declined(r) ==> final(self).inp().spec_boundary()
                == old(self).inp().spec_boundary() && (final(self).inp().same_committed(&old(self).inp())
                || exists|u: Spanned<L::Token>, s: L::State|
                #[trigger] final(self).inp().staged(&old(self).inp(), u, s) && call_ensures(
                    pred,
                    (&u,),
                    false,
                )),
            old(self).inp().spec_cache().len() == 0 && old(self).inp().spec_reached(
                old(self).inp().spec_cursor(),
            ) ==> r is Err && final(self).inp().same_stream(&old(self).inp()) && (terminal_eot_at::<L>(
                old(self).inp().spec_cursor(),
            ) matches Some(e) ==> r matches Err(x) && x == e),
            r is Err ==> final(self).inp().same_committed(&old(self).inp()),
            old(self).inp().wf() && old(self).inp().spec_cache().len() == 0 && !old(self).inp().spec_reached(
                old(self).inp().spec_cursor(),
            ) ==> exists|c: L::State|
                #[trigger] cloned(old(self).inp().spec_state(), c) && (old(self).inp().spec_policy() == Policy::Verbose ==> final(self).inp().spec_log() == old(self).inp().spec_log() + head_log(old(self).inp(), c)) && scan_settles(old(self).inp(), c, final(self).inp()) && refused_with(head_end(old(self).inp(), c), r, head_refusal(old(self).inp(), c)) && stopped_with(head_end(old(self).inp(), c), r, terminal_eot_at::<L>(old(self).inp().spec_cursor())) && expect_agrees(
                    head_end(old(self).inp(), c),
                    r,
                    final(self).inp().spec_state(),
                    final(self).inp().spec_cache(),
                    final(self).inp().spec_capacity(),
                    pred,
                    true,
                ),
    {
        let h = self.head();
        match h {
            Head::Cached => {
                if self.front_satisfies(&mut pred) {
                    Ok(Some(self.take_front()))
                } else {
                    Ok(None)
                }
            },
            Head::Scanned(t, s) => {
                if pred(&t) {
                    self.advance(&t, s);
                    Ok(Some(t))
                } else {
                    let ghost gt = t;
                    let ghost gs = s;
                    self.stage(t, s);
                    assert(self.inp().staged(&old(self).inp(), gt, gs));
                    Ok(None)
                }
            },
            Head::Latched | Head::Stopped => Err(self.terminal_eot()),
            Head::Eof => Ok(None),
            Head::Failed(e) => Err(e),
        }
    }

    /// What `pred` maps the front of the (nonempty) cache to.
    fn front_maps<O, F: FnMut(&Spanned<L::Token>) -> Option<O>>(&self, pred: &mut F) -> (r: Option<O>)
        requires
            self.inp().spec_cache().len() > 0,
            forall|t: &Spanned<L::Token>| call_requires(*old(pred), (t,)),
        ensures
            call_ensures(*old(pred), (&self.inp().spec_cache()[0].token,), r),
            *final(pred) == *old(pred),
    {
        match self.input.cache.front() {
            Some(f) => pred(&f.token),
            None => vstd::pervasive::unreached(),
        }
    }

    /// Consumes the next token if `pred` maps it to a value, returning both; otherwise
    /// leaves it in place and returns `None` (which also covers the end of the input, the
    /// poison boundary and a trip).
    pub fn try_expect_map<O, F: FnMut(&Spanned<L::Token>) -> Option<O>>(&mut self, mut pred: F) -> (r:
        Result<Option<(O, Spanned<L::Token>)>, ErrorOf<L>>)
        requires
            forall|t: &Spanned<L::Token>| call_requires(pred, (t,)),
        ensures
            final(self).inp().grew_only(&old(self).inp()),
            final(self).inp().latch_ok(&old(self).inp()),
            r matches Ok(Some((o, t))) ==> call_ensures(pred, (&t,), Some(o)) && (final(self).inp().took_front(
                &old(self).inp(),
                t,
            ) || final(self).inp().advanced_to(&old(self).inp(), t)),
            old(self).inp().spec_cache().len() > 0 ==> r is Ok,
            old(self).inp().spec_cache().len() > 0 && declined(r) ==> final(self).inp().same_stream(
                &old(self).inp(),
            ) && call_ensures(pred, (&old(self).inp().spec_cache()[0].token,), None::<O>),
            old(self).inp().spec_cache().len() == 0 && declined(r) ==> (final(self).inp().same_committed(
                &old(self).inp(),
            ) || exists|u: Spanned<L::Token>, s: L::State|
                #[trigger] final(self).inp().staged(&old(self).inp(), u, s) && call_ensures(
                    pred,
                    (&u,),
                    None::<O>,
                )),
            old(self).inp().spec_cache().len() == 0 && old(self).inp().spec_reached(
                old(self).inp().spec_cursor(),
            ) ==> (declined(r) && final(self).inp().same_stream(&old(self).inp())),
            r is Err ==> old(self).inp().spec_policy() == Policy::Fatal && final(self).inp().same_committed(
                &old(self).inp(),
            ),
            old(self).inp().wf() && old(self).inp().spec_cache().len() == 0 && !old(self).inp().spec_reached(
                old(self).inp().spec_cursor(),
            ) ==> exists|c: L::State|
                #[trigger] cloned(old(self).inp().spec_state(), c) && (old(self).inp().spec_policy() == Policy::Verbose ==> final(self).inp().spec_log() == old(self).inp().spec_log() + head_log(old(self).inp(), c)) && scan_settles(old(self).inp(), c, final(self).inp()) && refused_with(head_end(old(self).inp(), c), r, head_refusal(old(self).inp(), c)) && map_agrees(
                    head_end(old(self).inp(), c),
                    r,
                    final(self).inp().spec_state(),
                    final(self).inp().spec_cache(),
                    old(self).inp().spec_capacity(),
                    pred,
                    false,
                ),
    {
        let h = self.head();
        match h {
            Head::Cached => {
                match self.front_maps(&mut pred) {
                    Some(o) => Ok(Some((o, self.take_front()))),
                    None => Ok(None),
                }
            },
            Head::Scanned(t, s) => {
                match pred(&t) {
                    Some(o) => {
                        self.advance(&t, s);
                        Ok(Some((o, t)))
                    },
                    None => {
                        let ghost gt = t;
                        let ghost gs = s;
                        self.stage(t, s);
                        assert(self.inp().staged(&old(self).inp(), gt, gs));
                        Ok(None)
                    },
                }
            },
            Head::Latched | Head::Stopped | Head::Eof => Ok(None),
            Head::Failed(e) => Err(e),
        }
    }

    /// Consumes the next token if `pred` maps it to a value, like
    /// [`try_expect_map`](InputRef::try_expect_map), except that a stop at the poison
    /// boundary or at a trip is the terminal end-of-input error rather than a decline.
    pub fn try_expect_map_or_stop<O, F: FnMut(&Spanned<L::Token>) -> Option<O>>(
        &mut self,
        mut pred: F,
    ) -> (r: Result<Option<(O, Spanned<L::Token>)>, ErrorOf<L>>)
        where ErrorOf<L>: From<UnexpectedEot>,
        requires
            forall|t: &Spanned<L::Token>| call_requires(pred, (t,)),
        ensures
            final(self).inp().grew_only(&old(self).inp()),
            final(self).inp().latch_ok(&old(self).inp()),
            r matches Ok(Some((o, t))) ==> call_ensures(pred, (&t,), Some(o)) && (final(self).inp().took_front(
                &old(self).inp(),
                t,
            ) || final(self).inp().advanced_to(&old(self).inp(), t)),
            old(self).inp().spec_cache().len() > 0 ==> r is Ok,
            old(self).inp().spec_cache().len() > 0 && declined(r) ==> final(self).inp().same_stream(
                &old(self).inp(),
            ) && call_ensures(pred, (&old(self).inp().spec_cache()[0].token,), None::<O>),
            old(self).inp().spec_cache().len() == 0 && declined(r) ==> final(self).inp().spec_boundary()
                == old(self).inp().spec_boundary() && (final(self).inp().same_committed(&old(self).inp())
                || exists|u: Spanned<L::Token>, s: L::State|
                #[trigger] final(self).inp().staged(&old(self).inp(), u, s) && call_ensures(
                    pred,
                    (&u,),
                    None::<O>,
                )),
            old(self).inp().spec_cache().len() == 0 && old(self).inp().spec_reached(
                old(self).inp().spec_cursor(),
            ) ==> r is Err && final(self).inp().same_stream(&old(self).inp()) && (terminal_eot_at::<L>(
                old(self).inp().spec_cursor(),
            ) matches Some(e) ==> r matches Err(x) && x == e),
            r is Err ==> final(self).inp().same_committed(&old(self).inp()),
            old(self).inp().wf() && old(self).inp().spec_cache().len() == 0 && !old(self).inp().spec_reached(
                old(self).inp().spec_cursor(),
            ) ==> exists|c: L::State|
                #[trigger] cloned(old(self).inp().spec_state(), c) && (old(self).inp().spec_policy() == Policy::Verbose ==> final(self).inp().spec_log() == old(self).inp().spec_log() + head_log(old(self).inp(), c)) && scan_settles(old(self).inp(), c, final(self).inp()) && refused_with(head_end(old(self).inp(), c), r, head_refusal(old(self).inp(), c)) && stopped_with(head_end(old(self).inp(), c), r, terminal_eot_at::<L>(old(self).inp().spec_cursor())) && map_agrees(
                    head_end(old(self).inp(), c),
                    r,
                    final(self).inp().spec_state(),
                    final(self).inp().spec_cache(),
                    old(self).inp().spec_capacity(),
                    pred,
                    true,
                ),
    {
        let h = self.head();
        match h {
            Head::Cached => {
                match self.front_maps(&mut pred) {
                    Some(o) => Ok(Some((o, self.take_front()))),
                    None => Ok(None),
                }
            },
            Head::Scanned(t, s) => {
                match pred(&t) {
                    Some(o) => {
                        self.advance(&t, s);
                        Ok(Some((o, t)))
                    },
                    None => {
                        let ghost gt = t;
                        let ghost gs = s;
                        self.stage(t, s);
                        assert(self.inp().staged(&old(self).inp(), gt, gs));
                        Ok(None)
                    },
                }
            },
            Head::Latched | Head::Stopped => Err(self.terminal_eot()),
            Head::Eof => Ok(None),
            Head::Failed(e) => Err(e),
        }
    }

    /// Consumes the next token if `pred` maps it to `Some(Ok(value))` (returning both) or to
    /// `Some(Err(error))` (returning the error); leaves it in place when `pred` maps it to
    /// `None`.
    pub fn try_expect_and_then<O, F: FnMut(&Spanned<L::Token>) -> Option<Result<O, ErrorOf<L>>>>(
        &mut self,
        mut pred: F,
    ) -> (r: Result<Option<(O, Spanned<L::Token>)>, ErrorOf<L>>)
        requires
            forall|t: &Spanned<L::Token>| call_requires(pred, (t,)),
        ensures
            final(self).inp().grew_only(&old(self).inp()),
            final(self).inp().latch_ok(&old(self).inp()),
            r matches Ok(Some((o, t))) ==> call_ensures(pred, (&t,), Some(Ok::<O, ErrorOf<L>>(o)))
                && (final(self).inp().took_front(&old(self).inp(), t) || final(self).inp().advanced_to(&old(self).inp(), t)),
            r matches Err(e) ==> (old(self).inp().spec_policy() == Policy::Fatal && final(self).inp().same_committed(
                &old(self).inp(),
            )) || (exists|t: Spanned<L::Token>|
                call_ensures(pred, (&t,), Some(Err::<O, ErrorOf<L>>(e))) && #[trigger] final(self).inp().took_front(
                    &old(self).inp(),
                    t,
                )) || (exists|t: Spanned<L::Token>|
                call_ensures(pred, (&t,), Some(Err::<O, ErrorOf<L>>(e))) && #[trigger] final(self).inp().advanced_to(
                    &old(self).inp(),
                    t,
                )),
            old(self).inp().spec_cache().len() > 0 && r is Err ==> (r matches Err(e) && call_ensures(
                pred,
                (&old(self).inp().spec_cache()[0].token,),
                Some(Err::<O, ErrorOf<L>>(e)),
            ) && final(self).inp().took_front(&old(self).inp(), old(self).inp().spec_cache()[0].token)),
            old(self).inp().spec_cache().len() > 0 && declined(r) ==> final(self).inp().same_stream(
                &old(self).inp(),
            ) && call_ensures(pred, (&old(self).inp().spec_cache()[0].token,), None::<Result<O, ErrorOf<L>>>),
            old(self).inp().spec_cache().len() == 0 && declined(r) ==> (final(self).inp().same_committed(
                &old(self).inp(),
            ) || exists|u: Spanned<L::Token>, s: L::State|
                #[trigger] final(self).inp().staged(&old(self).inp(), u, s) && call_ensures(
                    pred,
                    (&u,),
                    None::<Result<O, ErrorOf<L>>>,
                )),
            old(self).inp().spec_cache().len() == 0 && old(self).inp().spec_reached(
                old(self).inp().spec_cursor(),
            ) ==> (declined(r) && final(self).inp().same_stream(&old(self).inp())),
            old(self).inp().wf() && old(self).inp().spec_cache().len() == 0 && !old(self).inp().spec_reached(
                old(self).inp().spec_cursor(),
            ) ==> exists|c: L::State|
                #[trigger] cloned(old(self).inp().spec_state(), c) && (old(self).inp().spec_policy() == Policy::Verbose ==> final(self).inp().spec_log() == old(self).inp().spec_log() + head_log(old(self).inp(), c)) && scan_settles(old(self).inp(), c, final(self).inp()) && refused_with(head_end(old(self).inp(), c), r, head_refusal(old(self).inp(), c)) && match head_end(old(self).inp(), c) {
                    ScanEnd::Token(t, st) => (r matches Ok(Some((o, u))) && u == t && final(self).inp().spec_span() == t.span
                        && final(self).inp().spec_state() == st && call_ensures(pred, (&t,), Some(Ok::<O, ErrorOf<L>>(o))))
                        || (r matches Err(e) && final(self).inp().spec_span() == t.span && final(self).inp().spec_state() == st
                        && call_ensures(pred, (&t,), Some(Err::<O, ErrorOf<L>>(e)))) || (r == Ok::<Option<(O, Spanned<L::Token>)>, ErrorOf<L>>(None)
                        && call_ensures(pred, (&t,), None::<Result<O, ErrorOf<L>>>) && (0 < old(self).inp().spec_capacity()
                        ==> final(self).inp().spec_cache() == seq![CachedToken { token: t, state: st }])),
                    ScanEnd::End(_) => r == Ok::<Option<(O, Spanned<L::Token>)>, ErrorOf<L>>(None),
                    ScanEnd::Stop(_) | ScanEnd::Trip(_, false) => r == Ok::<Option<(O, Spanned<L::Token>)>, ErrorOf<L>>(None),
                    _ => r is Err,
                },
    {
        let h = self.head();
        match h {
            Head::Cached => {
                match self.front_maps(&mut pred) {
                    Some(Ok(o)) => Ok(Some((o, self.take_front()))),
                    Some(Err(e)) => {
                        let t = self.take_front();
                        assert(call_ensures(pred, (&t,), Some(Err::<O, ErrorOf<L>>(e)))
                            && self.inp().took_front(&old(self).inp(), t));
                        Err(e)
                    },
                    None => Ok(None),
                }
            },
            Head::Scanned(t, s) => {
                match pred(&t) {
                    Some(Ok(o)) => {
                        self.advance(&t, s);
                        Ok(Some((o, t)))
                    },
                    Some(Err(e)) => {
                        self.advance(&t, s);
                        assert(call_ensures(pred, (&t,), Some(Err::<O, ErrorOf<L>>(e)))
                            && self.inp().advanced_to(&old(self).inp(), t));
                        Err(e)
                    },
                    None => {
                        let ghost gt = t;
                        let ghost gs = s;
                        self.stage(t, s);
                        assert(self.inp().staged(&old(self).inp(), gt, gs));
                        Ok(None)
                    },
                }
            },
            Head::Latched | Head::Stopped | Head::Eof => Ok(None),
            Head::Failed(e) => Err(e),
        }
    }

    /// Classifies the next token with `classify`; if it is accepted, consumes it and hands
    /// it to `project`, whose result is returned (an error from `project` comes after the
    /// token was consumed). A declined token stays in place.
    pub fn try_expect_take<O, C, P>(&mut self, mut classify: C, project: P) -> (r: Result<
        Option<O>,
        ErrorOf<L>,
    >)
        where
            C: FnMut(&Spanned<L::Token>) -> bool,
            P: FnOnce(Spanned<L::Token>) -> Result<O, ErrorOf<L>>,
        requires
            forall|t: &Spanned<L::Token>| call_requires(classify, (t,)),
            forall|t: Spanned<L::Token>| call_requires(project, (t,)),
        ensures
            final(self).inp().grew_only(&old(self).inp()),
            final(self).inp().latch_ok(&old(self).inp()),
            old(self).inp().spec_cache().len() > 0 ==> (r == Ok::<Option<O>, ErrorOf<L>>(None) && call_ensures(
                classify,
                (&old(self).inp().spec_cache()[0].token,),
                false,
            )) || (call_ensures(classify, (&old(self).inp().spec_cache()[0].token,), true) && final(self).inp().took_front(
                &old(self).inp(),
                old(self).inp().spec_cache()[0].token,
            ) && match r {
                Ok(Some(o)) => call_ensures(project, (old(self).inp().spec_cache()[0].token,), Ok::<O, ErrorOf<L>>(o)),
                Err(e) => call_ensures(project, (old(self).inp().spec_cache()[0].token,), Err::<O, ErrorOf<L>>(e)),
                Ok(None) => false,
            }),
            r matches Ok(Some(o)) ==> (exists|t: Spanned<L::Token>|
                call_ensures(classify, (&t,), true) && call_ensures(project, (t,), Ok::<O, ErrorOf<L>>(o))
                    && #[trigger] final(self).inp().took_front(&old(self).inp(), t)) || (exists|
                t: Spanned<L::Token>,
            |
                call_ensures(classify, (&t,), true) && call_ensures(project, (t,), Ok::<O, ErrorOf<L>>(o))
                    && #[trigger] final(self).inp().advanced_to(&old(self).inp(), t)),
            old(self).inp().spec_cache().len() > 0 && declined(r) ==> final(self).inp().same_stream(
                &old(self).inp(),
            ) && call_ensures(classify, (&old(self).inp().spec_cache()[0].token,), false),
            old(self).inp().spec_cache().len() == 0 && declined(r) ==> (final(self).inp().same_committed(
                &old(self).inp(),
            ) || exists|u: Spanned<L::Token>, s: L::State|
                #[trigger] final(self).inp().staged(&old(self).inp(), u, s) && call_ensures(
                    classify,
                    (&u,),
                    false,
                )),
            old(self).inp().spec_cache().len() == 0 && old(self).inp().spec_reached(
                old(self).inp().spec_cursor(),
            ) ==> (declined(r) && final(self).inp().same_stream(&old(self).inp())),
            old(self).inp().wf() && old(self).inp().spec_cache().len() == 0 && !old(self).inp().spec_reached(
                old(self).inp().spec_cursor(),
            ) ==> exists|c: L::State|
                #[trigger] cloned(old(self).inp().spec_state(), c) && (old(self).inp().spec_policy() == Policy::Verbose ==> final(self).inp().spec_log() == old(self).inp().spec_log() + head_log(old(self).inp(), c)) && scan_settles(old(self).inp(), c, final(self).inp()) && refused_with(head_end(old(self).inp(), c), r, head_refusal(old(self).inp(), c)) && match head_end(old(self).inp(), c) {
                    ScanEnd::Token(t, st) => (call_ensures(classify, (&t,), true) && final(self).inp().spec_span() == t.span
                        && final(self).inp().spec_state() == st && match r {
                        Ok(Some(o)) => call_ensures(project, (t,), Ok::<O, ErrorOf<L>>(o)),
                        Err(e) => call_ensures(project, (t,), Err::<O, ErrorOf<L>>(e)),
                        Ok(None) => false,
                    }) || (r == Ok::<Option<O>, ErrorOf<L>>(None) && call_ensures(classify, (&t,), false) && (0
                        < old(self).inp().spec_capacity() ==> final(self).inp().spec_cache() == seq![
                        CachedToken { token: t, state: st },
                    ])),
                    ScanEnd::End(_) => r == Ok::<Option<O>, ErrorOf<L>>(None),
                    ScanEnd::Stop(_) | ScanEnd::Trip(_, false) => r == Ok::<Option<O>, ErrorOf<L>>(None),
                    _ => r is Err,
                },
    {
        match self.try_expect(classify) {
            Ok(Some(t)) => {
                let ghost gt = t;
                match project(t) {
                    Ok(o) => Ok(Some(o)),
                    Err(e) => Err(e),
                }
            },
            Ok(None) => Ok(None),
            Err(e) => Err(e),
        }
    }

    /// Classifies and takes the next token like [`try_expect_take`](InputRef::try_expect_take),
    /// except that a stop at the poison boundary or at a trip is the terminal end-of-input
    /// error rather than a decline.
    pub fn try_expect_take_or_stop<O, C, P>(&mut self, mut classify: C, project: P) -> (r: Result<
        Option<O>,
        ErrorOf<L>,
    >)
        where
            C: FnMut(&Spanned<L::Token>) -> bool,
            P: FnOnce(Spanned<L::Token>) -> Result<O, ErrorOf<L>>,
            ErrorOf<L>: From<UnexpectedEot>,
        requires
            forall|t: &Spanned<L::Token>| call_requires(classify, (t,)),
            forall|t: Spanned<L::Token>| call_requires(project, (t,)),
        ensures
            final(self).inp().grew_only(&old(self).inp()),
            final(self).inp().latch_ok(&old(self).inp()),
            old(self).inp().spec_cache().len() > 0 ==> (r == Ok::<Option<O>, ErrorOf<L>>(None) && call_ensures(
                classify,
                (&old(self).inp().spec_cache()[0].token,),
                false,
            )) || (call_ensures(classify, (&old(self).inp().spec_cache()[0].token,), true) && final(self).inp().took_front(
                &old(self).inp(),
                old(self).inp().spec_cache()[0].token,
            ) && match r {
                Ok(Some(o)) => call_ensures(project, (old(self).inp().spec_cache()[0].token,), Ok::<O, ErrorOf<L>>(o)),
                Err(e) => call_ensures(project, (old(self).inp().spec_cache()[0].token,), Err::<O, ErrorOf<L>>(e)),
                Ok(None) => false,
            }),
            r matches Ok(Some(o)) ==> (exists|t: Spanned<L::Token>|
                call_ensures(classify, (&t,), true) && call_ensures(project, (t,), Ok::<O, ErrorOf<L>>(o))
                    && #[trigger] final(self).inp().took_front(&old(self).inp(), t)) || (exists|
                t: Spanned<L::Token>,
            |
                call_ensures(classify, (&t,), true) && call_ensures(project, (t,), Ok::<O, ErrorOf<L>>(o))
                    && #[trigger] final(self).inp().advanced_to(&old(self).inp(), t)),
            old(self).inp().spec_cache().len() > 0 && declined(r) ==> final(self).inp().same_stream(
                &old(self).inp(),
            ) && call_ensures(classify, (&old(self).inp().spec_cache()[0].token,), false),
            old(self).inp().spec_cache().len() == 0 && declined(r) ==> final(self).inp().spec_boundary()
                == old(self).inp().spec_boundary(),
            old(self).inp().spec_cache().len() == 0 && old(self).inp().spec_reached(
                old(self).inp().spec_cursor(),
            ) ==> r is Err && final(self).inp().same_stream(&old(self).inp()) && (terminal_eot_at::<L>(
                old(self).inp().spec_cursor(),
            ) matches Some(e) ==> r matches Err(x) && x == e),
            old(self).inp().wf() && old(self).inp().spec_cache().len() == 0 && !old(self).inp().spec_reached(
                old(self).inp().spec_cursor(),
            ) ==> exists|c: L::State|
                #[trigger] cloned(old(self).inp().spec_state(), c) && (old(self).inp().spec_policy() == Policy::Verbose ==> final(self).inp().spec_log() == old(self).inp().spec_log() + head_log(old(self).inp(), c)) && scan_settles(old(self).inp(), c, final(self).inp()) && refused_with(head_end(old(self).inp(), c), r, head_refusal(old(self).inp(), c)) && stopped_with(head_end(old(self).inp(), c), r, terminal_eot_at::<L>(old(self).inp().spec_cursor())) && match head_end(old(self).inp(), c) {
                    ScanEnd::Token(t, st) => (call_ensures(classify, (&t,), true) && final(self).inp().spec_span() == t.span
                        && final(self).inp().spec_state() == st && match r {
                        Ok(Some(o)) => call_ensures(project, (t,), Ok::<O, ErrorOf<L>>(o)),
                        Err(e) => call_ensures(project, (t,), Err::<O, ErrorOf<L>>(e)),
                        Ok(None) => false,
                    }) || (r == Ok::<Option<O>, ErrorOf<L>>(None) && call_ensures(classify, (&t,), false) && (0
                        < old(self).inp().spec_capacity() ==> final(self).inp().spec_cache() == seq![
                        CachedToken { token: t, state: st },
                    ])),
                    ScanEnd::End(_) => r == Ok::<Option<O>, ErrorOf<L>>(None),
                    ScanEnd::Stop(_) | ScanEnd::Trip(_, false) => r is Err,
                    _ => r is Err,
                },
    {
        match self.try_expect_or_stop(classify) {
            Ok(Some(t)) => {
                let ghost gt = t;
                match project(t) {
                    Ok(o) => Ok(Some(o)),
                    Err(e) => Err(e),
                }
            },
            Ok(None) => Ok(None),
            Err(e) => Err(e),
        }
    }

    /// The kind of the next token, leaving it in place (staged in the cache when it had to
    /// be lexed). `Ok(None)` means the input genuinely ended; a stop at the poison boundary
    /// or at a trip is the terminal end-of-input error.
    pub fn peek_kind(&mut self) -> (r: Result<Option<<L::Token as Token>::Kind>, ErrorOf<L>>)
        where ErrorOf<L>: From<UnexpectedEot>,
        ensures
            final(self).inp().grew_only(&old(self).inp()),
            final(self).inp().latch_ok(&old(self).inp()),
            final(self).inp().kept_position(&old(self).inp()),
            old(self).inp().spec_cache().len() > 0 ==> (final(self).inp().same_stream(&old(self).inp())
                && r == Ok::<_, ErrorOf<L>>(Some(old(self).inp().spec_cache()[0].token.data.spec_kind()))),
            old(self).inp().spec_cache().len() == 0 ==> match r {
                Ok(Some(k)) => exists|u: Spanned<L::Token>, s: L::State|
                    #[trigger] final(self).inp().staged(&old(self).inp(), u, s) && k == u.data.spec_kind(),
                Ok(None) => final(self).inp().same_committed(&old(self).inp()) && final(self).inp().spec_boundary()
                    == old(self).inp().spec_boundary(),
                Err(_) => final(self).inp().same_committed(&old(self).inp()),
            },
            old(self).inp().spec_cache().len() == 0 && old(self).inp().spec_reached(
                old(self).inp().spec_cursor(),
            ) ==> r is Err && final(self).inp().same_stream(&old(self).inp()) && (terminal_eot_at::<L>(
                old(self).inp().spec_cursor(),
            ) matches Some(e) ==> r matches Err(x) && x == e),
            old(self).inp().wf() && old(self).inp().spec_cache().len() == 0 && !old(self).inp().spec_reached(
                old(self).inp().spec_cursor(),
            ) ==> exists|c: L::State|
                #[trigger] cloned(old(self).inp().spec_state(), c) && (old(self).inp().spec_policy() == Policy::Verbose ==> final(self).inp().spec_log() == old(self).inp().spec_log() + head_log(old(self).inp(), c)) && scan_settles(old(self).inp(), c, final(self).inp()) && refused_with(head_end(old(self).inp(), c), r, head_refusal(old(self).inp(), c)) && stopped_with(head_end(old(self).inp(), c), r, terminal_eot_at::<L>(old(self).inp().spec_cursor())) && match head_end(old(self).inp(), c) {
                    ScanEnd::Token(t, st) => r == Ok::<_, ErrorOf<L>>(Some(t.data.spec_kind())) && (0
                        < old(self).inp().spec_capacity() ==> final(self).inp().spec_cache() == seq![
                        CachedToken { token: t, state: st },
                    ]),
                    ScanEnd::End(_) => r == Ok::<_, ErrorOf<L>>(None::<<L::Token as Token>::Kind>),
                    _ => r is Err,
                },
    {
        let h = self.head();
        match h {
            Head::Cached => {
                match self.input.cache.front() {
                    Some(f) => Ok(Some(f.token.data.kind())),
                    None => vstd::pervasive::unreached(),
                }
            },
            Head::Scanned(t, s) => {
                let k = t.data.kind();
                let ghost gt = t;
                let ghost gs = s;
                self.stage(t, s);
                assert(self.inp().staged(&old(self).inp(), gt, gs));
                Ok(Some(k))
            },
            Head::Latched | Head::Stopped => Err(self.terminal_eot()),
            Head::Eof => Ok(None),
            Head::Failed(e) => Err(e),
        }
    }

    /// Whether the next token satisfies `pred`, leaving it in place. `Ok(false)` at a
    /// genuine end of input; a stop at the poison boundary or at a trip is the terminal
    /// end-of-input error.
    pub fn head_satisfies<F: FnOnce(&Spanned<L::Token>) -> bool>(&mut self, pred: F) -> (r: Result<
        bool,
        ErrorOf<L>,
    >)
        where ErrorOf<L>: From<UnexpectedEot>,
        requires
            forall|t: &Spanned<L::Token>| call_requires(pred, (t,)),
        ensures
            final(self).inp().grew_only(&old(self).inp()),
            final(self).inp().latch_ok(&old(self).inp()),
            final(self).inp().kept_position(&old(self).inp()),
            old(self).inp().spec_cache().len() > 0 ==> (final(self).inp().same_stream(&old(self).inp())
                && (r matches Ok(b) && call_ensures(pred, (&old(self).inp().spec_cache()[0].token,), b))),
            old(self).inp().spec_cache().len() == 0 ==> match r {
                Ok(b) => (exists|u: Spanned<L::Token>, s: L::State|
                    #[trigger] final(self).inp().staged(&old(self).inp(), u, s) && call_ensures(pred, (&u,), b))
                    || (!b && final(self).inp().same_committed(&old(self).inp())
                    && final(self).inp().spec_boundary() == old(self).inp().spec_boundary()),
                Err(_) => final(self).inp().same_committed(&old(self).inp()),
            },
            old(self).inp().spec_cache().len() == 0 && old(self).inp().spec_reached(
                old(self).inp().spec_cursor(),
            ) ==> r is Err && final(self).inp().same_stream(&old(self).inp()) && (terminal_eot_at::<L>(
                old(self).inp().spec_cursor(),
            ) matches Some(e) ==> r matches Err(x) && x == e),
            old(self).inp().wf() && old(self).inp().spec_cache().len() == 0 && !old(self).inp().spec_reached(
                old(self).inp().spec_cursor(),
            ) ==> exists|c: L::State|
                #[trigger] cloned(old(self).inp().spec_state(), c) && (old(self).inp().spec_policy() == Policy::Verbose ==> final(self).inp().spec_log() == old(self).inp().spec_log() + head_log(old(self).inp(), c)) && scan_settles(old(self).inp(), c, final(self).inp()) && refused_with(head_end(old(self).inp(), c), r, head_refusal(old(self).inp(), c)) && stopped_with(head_end(old(self).inp(), c), r, terminal_eot_at::<L>(old(self).inp().spec_cursor())) && match head_end(old(self).inp(), c) {
                    ScanEnd::Token(t, st) => (r matches Ok(b) && call_ensures(pred, (&t,), b)) && (0
                        < old(self).inp().spec_capacity() ==> final(self).inp().spec_cache() == seq![
                        CachedToken { token: t, state: st },
                    ]),
                    ScanEnd::End(_) => r == Ok::<bool, ErrorOf<L>>(false),
                    _ => r is Err,
                },
    {
        let h = self.head();
        match h {
            Head::Cached => {
                match self.input.cache.front() {
                    Some(f) => Ok(pred(&f.token)),
                    None => vstd::pervasive::unreached(),
                }
            },
            Head::Scanned(t, s) => {
                let b = pred(&t);
                let ghost gt = t;
                let ghost gs = s;
                self.stage(t, s);
                assert(self.inp().staged(&old(self).inp(), gt, gs));
                Ok(b)
            },
            Head::Latched | Head::Stopped => Err(self.terminal_eot()),
            Head::Eof => Ok(false),
            Head::Failed(e) => Err(e),
        }
    }

    /// What `f` maps the next token to, leaving the token in place. `Ok(None)` at a genuine
    /// end of input; a stop at the poison boundary or at a trip is the terminal end-of-input
    /// error.
    pub fn peek_head_map<O, F: FnOnce(&Spanned<L::Token>) -> O>(&mut self, f: F) -> (r: Result<
        Option<O>,
        ErrorOf<L>,
    >)
        where ErrorOf<L>: From<UnexpectedEot>,
        requires
            forall|t: &Spanned<L::Token>| call_requires(f, (t,)),
        ensures
            final(self).inp().grew_only(&old(self).inp()),
            final(self).inp().latch_ok(&old(self).inp()),
            final(self).inp().kept_position(&old(self).inp()),
            old(self).inp().spec_cache().len() > 0 ==> (final(self).inp().same_stream(&old(self).inp())
                && (r matches Ok(Some(o)) && call_ensures(f, (&old(self).inp().spec_cache()[0].token,), o))),
            old(self).inp().spec_cache().len() == 0 ==> match r {
                Ok(Some(o)) => exists|u: Spanned<L::Token>, s: L::State|
                    #[trigger] final(self).inp().staged(&old(self).inp(), u, s) && call_ensures(f, (&u,), o),
                Ok(None) => final(self).inp().same_committed(&old(self).inp()) && final(self).inp().spec_boundary()
                    == old(self).inp().spec_boundary(),
                Err(_) => final(self).inp().same_committed(&old(self).inp()),
            },
            old(self).inp().spec_cache().len() == 0 && old(self).inp().spec_reached(
                old(self).inp().spec_cursor(),
            ) ==> r is Err && final(self).inp().same_stream(&old(self).inp()) && (terminal_eot_at::<L>(
                old(self).inp().spec_cursor(),
            ) matches Some(e) ==> r matches Err(x) && x == e),
            old(self).inp().wf() && old(self).inp().spec_cache().len() == 0 && !old(self).inp().spec_reached(
                old(self).inp().spec_cursor(),
            ) ==> exists|c: L::State|
                #[trigger] cloned(old(self).inp().spec_state(), c) && (old(self).inp().spec_policy() == Policy::Verbose ==> final(self).inp().spec_log() == old(self).inp().spec_log() + head_log(old(self).inp(), c)) && scan_settles(old(self).inp(), c, final(self).inp()) && refused_with(head_end(old(self).inp(), c), r, head_refusal(old(self).inp(), c)) && stopped_with(head_end(old(self).inp(), c), r, terminal_eot_at::<L>(old(self).inp().spec_cursor())) && match head_end(old(self).inp(), c) {
                    ScanEnd::Token(t, st) => (r matches Ok(Some(v)) && call_ensures(f, (&t,), v)) && (0
                        < old(self).inp().spec_capacity() ==> final(self).inp().spec_cache() == seq![
                        CachedToken { token: t, state: st },
                    ]),
                    ScanEnd::End(_) => r == Ok::<Option<O>, ErrorOf<L>>(None),
                    _ => r is Err,
                },
    {
        let h = self.head();
        match h {
            Head::Cached => {
                match self.input.cache.front() {
                    Some(t) => Ok(Some(f(&t.token))),
                    None => vstd::pervasive::unreached(),
                }
            },
            Head::Scanned(t, s) => {
                let o = f(&t);
                let ghost gt = t;
                let ghost gs = s;
                self.stage(t, s);
                assert(self.inp().staged(&old(self).inp(), gt, gs));
                Ok(Some(o))
            },
            Head::Latched | Head::Stopped => Err(self.terminal_eot()),
            Head::Eof => Ok(None),
            Head::Failed(e) => Err(e),
        }
    }

    /// Consumes tokens while they satisfy `pred`, returning how many were consumed. The
    /// first token that fails `pred` stays in place (staged in the cache when it had to be
    /// lexed). Stops at the end of the input, the poison boundary, or a trip.
    #[verifier::loop_isolation(false)]
    pub fn skip_while<F: FnMut(&Spanned<L::Token>) -> bool>(&mut self, pred: F) -> (r: Result<
        usize,
        ErrorOf<L>,
    >)
        requires
            forall|t: &Spanned<L::Token>| call_requires(pred, (t,)),
        ensures
            final(self).inp().grew_only(&old(self).inp()),
            final(self).inp().latch_ok(&old(self).inp()),
            old(self).inp().wf() ==> old(self).inp().spec_cursor() <= final(self).inp().spec_cursor(),
            r is Ok ==> front_refused(pred, final(self).inp().spec_cache()),
            old(self).inp().spec_cache().len() == 0 && old(self).inp().spec_reached(
                old(self).inp().spec_cursor(),
            ) ==> (r == Ok::<usize, ErrorOf<L>>(0) && final(self).inp().same_stream(&old(self).inp())),
            r is Err ==> old(self).inp().spec_policy() == Policy::Fatal,
            old(self).inp().spec_cache().len() > 0 ==> exists|k: int|
                #[trigger] prefix_accepted(pred, old(self).inp().spec_cache(), k) && (k < old(self).inp().spec_cache().len()
                    ==> r == Ok::<usize, ErrorOf<L>>(k as usize) && call_ensures(
                    pred,
                    (&old(self).inp().spec_cache()[k].token,),
                    false,
                ) && final(self).inp().spec_cache() == old(self).inp().spec_cache().subrange(
                    k,
                    old(self).inp().spec_cache().len() as int,
                ) && final(self).inp().spec_log() == old(self).inp().spec_log() && final(self).inp().spec_boundary()
                    == old(self).inp().spec_boundary() && (k > 0 ==> final(self).inp().spec_span()
                    == old(self).inp().spec_cache()[k - 1].token.span && final(self).inp().spec_state()
                    == old(self).inp().spec_cache()[k - 1].state) && (k == 0 ==> final(self).inp().kept_position(
                    &old(self).inp(),
                ))) && (k == old(self).inp().spec_cache().len() ==> (r matches Ok(m) ==> m >= k)),
            old(self).inp().wf() && !old(self).inp().spec_reached(old(self).inp().spec_frontier()) && !(r matches Ok(
                m,
            ) && m < old(self).inp().spec_cache().len()) ==> exists|
                c: L::State,
                toks: Seq<(Spanned<L::Token>, L::State)>,
                st_end: L::State,
                at_end: usize,
                wm_end: usize,
            |
                cloned(old(self).inp().spec_frontier_state(), c) && #[trigger] scan_chain::<L>(
                    old(self).inp().spec_src(),
                    c,
                    old(self).inp().spec_frontier(),
                    old(self).inp().spec_boundary(),
                    old(self).inp().spec_watermark(),
                    old(self).inp().spec_fatal(),
                    toks,
                    st_end,
                    at_end,
                    wm_end,
                ) && (forall|i: int| 0 <= i < toks.len() ==> call_ensures(pred, (&toks[i].0,), true)) && (r matches Ok(
                    k,
                ) ==> counts(k, (old(self).inp().spec_cache().len() + toks.len()) as nat)) && (toks.len() == 0 ==> final(self).inp().spec_state() == old(self).inp().spec_frontier_state() && (old(
                    self,
                ).inp().spec_cache().len() == 0 ==> final(self).inp().kept_position(&old(self).inp())) && (old(self).inp().spec_cache().len()
                    > 0 ==> final(self).inp().spec_span() == old(self).inp().spec_cache().last().token.span))
                && (toks.len() > 0 ==> final(self).inp().spec_span() == toks.last().0.span && cloned(
                    toks.last().1,
                    final(self).inp().spec_state(),
                )) && skip_stop_agrees(
                    scan_end::<L>(
                        old(self).inp().spec_src(),
                        st_end,
                        at_end,
                        old(self).inp().spec_boundary(),
                        wm_end,
                        old(self).inp().spec_fatal(),
                    ),
                    r,
                    final(self).inp().spec_cache(),
                    final(self).inp().spec_capacity(),
                    pred,
                ) && (old(self).inp().spec_policy() == Policy::Verbose ==> final(self).inp().spec_log() == old(self).inp().spec_log() + chain_log::<L>(
                    old(self).inp().spec_src(),
                    c,
                    old(self).inp().spec_frontier(),
                    old(self).inp().spec_boundary(),
                    old(self).inp().spec_watermark(),
                    toks,
                ) + scan_log::<L>(old(self).inp().spec_src(), st_end, at_end, old(self).inp().spec_boundary(), wm_end)),
    {
        let mut n: usize = 0;
        let ghost pred0 = pred;
        let mut pred = pred;
        let n0 = self.input.cache.len();
        proof {
            lemma_extends_refl(self.inp().spec_log());
        }
        while n < n0
            invariant
                pred == pred0,
                n0 == old(self).inp().spec_cache().len(),
                old(self).inp().spec_cache().len() == 0 ==> n == 0,
                prefix_accepted(pred0, old(self).inp().spec_cache(), n as int),
                self.inp().spec_cache() == old(self).inp().spec_cache().subrange(
                    n as int,
                    old(self).inp().spec_cache().len() as int,
                ),
                self.inp().spec_log() == old(self).inp().spec_log(),
                n > 0 ==> self.inp().spec_span() == old(self).inp().spec_cache()[n - 1].token.span
                    && self.inp().spec_state() == old(self).inp().spec_cache()[n - 1].state,
                n == 0 ==> self.inp().kept_position(&old(self).inp()),
                self.inp().spec_watermark() == old(self).inp().spec_watermark(),
                self.inp().grew_only(&old(self).inp()),
                self.inp().latch_ok(&old(self).inp()),
                self.inp().spec_boundary() == old(self).inp().spec_boundary(),
                old(self).inp().spec_cache().len() == 0 ==> self.inp().same_stream(&old(self).inp()),
                old(self).inp().wf() ==> old(self).inp().spec_cursor() <= self.inp().spec_cursor(),
                forall|t: &Spanned<L::Token>| call_requires(pred, (t,)),
            decreases self.inp().spec_cache().len(),
        {
            if self.front_satisfies(&mut pred) {
                let ghost before = self.inp();
                let _ = self.take_front();
                proof {
                    lemma_extends_refl(self.inp().spec_log());
                    if old(self).inp().wf() {
                        assert(before.wf());
                        assert(before.spec_cache()[0].token.span.start < before.spec_cache()[0].token.span.end);
                    }
                    let oc = old(self).inp().spec_cache();
                    assert(before.spec_cache()[0] == oc[n as int]);
                    assert(self.inp().spec_cache() =~= oc.subrange(n + 1, oc.len() as int));
                    assert forall|i: int| 0 <= i < n + 1 implies call_ensures(pred0, (&#[trigger] oc[i].token,), true) by {
                        if i < n {
                            assert(prefix_accepted(pred0, oc, n as int));
                        }
                    }
                }
                n = n + 1;
            } else {
                proof {
                    assert(prefix_accepted(pred0, old(self).inp().spec_cache(), n as int));
                    assert(self.inp().spec_cache()[0] == old(self).inp().spec_cache()[n as int]);
                }
                return Ok(n);
            }
        }
        let ghost n1 = n;
        proof {
            assert(n1 == old(self).inp().spec_cache().len());
            assert(prefix_accepted(pred0, old(self).inp().spec_cache(), n1 as int));
            assert(self.inp().spec_cursor() == old(self).inp().spec_frontier());
            assert(self.inp().spec_state() == old(self).inp().spec_frontier_state());
        }
        let cur = self.input.span.end;
        if self.reached_boundary(cur) {
            return Ok(n);
        }
        let c = self.input.state.clone();
        let ghost gc = c;
        let (mut lx, from) = self.lexer_at(cur, c);
        let mut at = from;
        let ghost g = old(self).inp().wf();
        let ghost mut toks: Seq<(Spanned<L::Token>, L::State)> = Seq::empty();
        proof {
            assert(self.inp().spec_log() + Seq::<Emission<ErrorOf<L>>>::empty() =~= self.inp().spec_log());
        }
        loop
            invariant
                pred == pred0,
                n1 <= n,
                g == old(self).inp().wf(),
                g ==> cloned(old(self).inp().spec_frontier_state(), gc),
                g ==> scan_chain::<L>(
                    old(self).inp().spec_src(),
                    gc,
                    old(self).inp().spec_frontier(),
                    old(self).inp().spec_boundary(),
                    old(self).inp().spec_watermark(),
                    old(self).inp().spec_fatal(),
                    toks,
                    lx.spec_state(),
                    at,
                    self.inp().spec_watermark(),
                ),
                g ==> forall|i: int| 0 <= i < toks.len() ==> call_ensures(pred, (&toks[i].0,), true),
                g ==> counts(n, (old(self).inp().spec_cache().len() + toks.len()) as nat),
                g && old(self).inp().spec_policy() == Policy::Verbose ==> self.inp().spec_log() == old(self).inp().spec_log() + chain_log::<L>(
                    old(self).inp().spec_src(),
                    gc,
                    old(self).inp().spec_frontier(),
                    old(self).inp().spec_boundary(),
                    old(self).inp().spec_watermark(),
                    toks,
                ),
                g ==> (toks.len() == 0 ==> self.inp().spec_state() == old(self).inp().spec_frontier_state() && (old(
                    self,
                ).inp().spec_cache().len() == 0 ==> self.inp().kept_position(&old(self).inp())) && (old(self).inp().spec_cache().len()
                    > 0 ==> self.inp().spec_span() == old(self).inp().spec_cache().last().token.span)),
                g ==> (toks.len() > 0 ==> self.inp().spec_span() == toks.last().0.span && cloned(
                    toks.last().1,
                    self.inp().spec_state(),
                )),
                self.inp().grew_only(&old(self).inp()),
                self.inp().spec_boundary() == old(self).inp().spec_boundary(),
                self.inp().spec_cache().len() == 0,
                old(self).inp().wf() ==> old(self).inp().spec_cursor() <= self.inp().spec_cursor(),
                self.inp().wf() ==> self.inp().spec_cursor() <= at,
                lx.spec_offset() <= lx.spec_len(),
                lx.spec_len() == L::spec_source_len(self.inp().spec_src()),
                lx.spec_source() == self.inp().spec_src(),
                at == lx.spec_offset(),
                forall|t: &Spanned<L::Token>| call_requires(pred, (t,)),
                old(self).inp().spec_reached(old(self).inp().spec_frontier()) ==> false,
            decreases lx.spec_len() - lx.spec_offset(),
        {
            let ghost before = self.inp();
            let ghost st_b = lx.spec_state();
            let ghost at_b = at;
            let scan = self.scan_with(&mut lx, &mut at, Ghost(false));
            proof {
                lemma_extends_trans(old(self).inp().spec_log(), before.spec_log(), self.inp().spec_log());
            }
            match scan {
                Scan::Token(t) => {
                    if pred(&t) {
                        let st = lx.state().clone();
                        self.advance(&t, st);
                        if n < usize::MAX {
                            n = n + 1;
                        }
                        proof {
                            if g {
                                lemma_scan_chain_push::<L>(
                                    old(self).inp().spec_src(),
                                    gc,
                                    old(self).inp().spec_frontier(),
                                    old(self).inp().spec_boundary(),
                                    old(self).inp().spec_watermark(),
                                    old(self).inp().spec_fatal(),
                                    toks,
                                    st_b,
                                    at_b,
                                    before.spec_watermark(),
                                    t,
                                    lx.spec_state(),
                                );
                                if old(self).inp().spec_policy() == Policy::Verbose {
                                    lemma_chain_log_push::<L>(
                                        old(self).inp().spec_src(),
                                        gc,
                                        old(self).inp().spec_frontier(),
                                        old(self).inp().spec_boundary(),
                                        old(self).inp().spec_watermark(),
                                        toks,
                                        st_b,
                                        at_b,
                                        before.spec_watermark(),
                                        t,
                                        lx.spec_state(),
                                    );
                                }
                                toks = toks.push((t, lx.spec_state()));
                            }
                        }
                    } else {
                        self.stage(t, lx.into_state());
                        return Ok(n);
                    }
                },
                Scan::Tripped | Scan::Eof => {
                    return Ok(n);
                },
                Scan::Rejected(_, e) => {
                    return Err(e);
                },
                Scan::TripRejected(e) => {
                    return Err(e);
                },
            }
        }
    }

    /// Whether a synchronization run that ended, `r0`, on the `k`-th cached token of `old`
    /// agrees with it: `pred` accepts it (at nesting depth `depth`, zero when `balanced`),
    /// `k` tokens were skipped, and it is consumed (`through`, the committed position and
    /// state are its) or left at the front of the cache (a copy returned, the committed
    /// position being the last skipped token's or unchanged).
    spec fn sync_cache_match<F: FnMut(&Spanned<L::Token>) -> bool>(
        through: bool,
        balanced: bool,
        r0: SyncEnd<L::Token, ErrorOf<L>>,
        count: usize,
        k: int,
        depth: usize,
        pred: F,
        old: Input<L>,
        new: Input<L>,
    ) -> bool {
        let c = old.spec_cache();
        &&& r0 matches SyncEnd::Matched(t) && call_ensures(pred, (&c[k].token,), true) && count == k && (
        balanced ==> depth == 0) && (through ==> t == c[k].token && new.spec_span() == t.span
            && new.spec_state() == c[k].state && new.spec_cache() == c.subrange(k + 1, c.len() as int)) && (
        !through ==> cloned(c[k].token, t) && new.spec_cache() == c.subrange(k, c.len() as int) && (k > 0
            ==> new.spec_span() == c[k - 1].token.span && new.spec_state() == c[k - 1].state) && (k == 0
            ==> new.kept_position(&old)))
    }

    /// Whether `t` is where a synchronization in `mode` stops, at nesting depth `depth`; the
    /// depth after `t` when it is skipped instead.
    fn sync_decide<F, C, D>(
        mode: &SyncMode,
        depth: usize,
        t: &Spanned<L::Token>,
        pred: &mut F,
        classify: &mut C,
    ) -> (r: (bool, usize))
        where
            F: FnMut(&Spanned<L::Token>) -> bool,
            C: FnMut(&<L::Token as Token>::Kind) -> Balance<D>,
        requires
            forall|u: &Spanned<L::Token>| call_requires(*old(pred), (u,)),
            forall|k: &<L::Token as Token>::Kind| call_requires(*old(classify), (k,)),
        ensures
            *final(pred) == *old(pred),
            *final(classify) == *old(classify),
            r.0 ==> call_ensures(*old(pred), (t,), true),
            r.0 ==> (*mode != SyncMode::Balanced || depth == 0),
            *mode != SyncMode::Balanced ==> r.1 == depth,
            !r.0 && *mode != SyncMode::Balanced ==> call_ensures(*old(pred), (t,), false),
            !r.0 && *mode == SyncMode::Balanced ==> (depth == 0 ==> call_ensures(*old(pred), (t,), false))
                && exists|b: Balance<D>|
                call_ensures(*old(classify), (&t.data.spec_kind(),), b) && r.1 == #[trigger] next_depth(depth, b),
    {
        match mode {
            SyncMode::Balanced => {
                if depth == 0 && pred(t) {
                    (true, depth)
                } else {
                    let k = t.data.kind();
                    let b = classify(&k);
                    (false, step_depth(depth, &b))
                }
            },
            _ => (pred(t), depth),
        }
    }

    /// Reports `err` at the skipped token's `span`, if there is an error to report.
    fn report_skip(&mut self, span: SimpleSpan, err: Option<ErrorOf<L>>) -> (r: Result<(), ErrorOf<L>>)
        ensures
            final(self).inp().same_frame(&old(self).inp()),
            final(self).inp().same_lineage(&old(self).inp()),
            final(self).inp().same_committed(&old(self).inp()),
            final(self).inp().spec_boundary() == old(self).inp().spec_boundary(),
            final(self).inp().spec_watermark() == old(self).inp().spec_watermark(),
            extends(old(self).inp().spec_log(), final(self).inp().spec_log()),
            old(self).inp().spec_policy() != Policy::Verbose ==> final(self).inp().spec_log()
                == old(self).inp().spec_log(),
            r is Err ==> old(self).inp().spec_policy() == Policy::Fatal,
            err is None ==> r is Ok && final(self).inp().spec_log() == old(self).inp().spec_log(),
            err matches Some(e) ==> (old(self).inp().spec_policy() == Policy::Verbose ==> r is Ok
                && final(self).inp().spec_log() == old(self).inp().spec_log().push(Emission::Error { span, error: e })),
    {
        proof {
            lemma_extends_refl(self.inp().spec_log());
        }
        match err {
            Some(e) => {
                proof {
                    lemma_extends_push(self.inp().spec_log(), Emission::Error { span, error: e });
                }
                self.input.emitter.emit_error(span, e)
            },
            None => Ok(()),
        }
    }

    /// Skips tokens until one where a synchronization in `mode` stops, reporting each
    /// skipped token through `report`; returns how the run ended, how many tokens it skipped
    /// (saturating) and the skipped region.
    ///
    /// The cache is examined in place and the rest is lexed with one lexer from the lex
    /// frontier; nothing is committed until the run ends. A match commits the skipped
    /// prefix (and, through-style, the match). The end of the input with no match commits
    /// nothing and takes back every diagnostic of the run, lifting no watermark. A trip or
    /// the poison boundary commits the skipped prefix; a refused diagnostic commits through
    /// the offending item.
    #[verifier::loop_isolation(false)]
    #[verifier::rlimit(100)]
    #[verifier::spinoff_prover]
    fn sync_engine<F, R, C, D>(&mut self, mode: SyncMode, pred: F, report: R, classify: C) -> (r: (
        SyncEnd<L::Token, ErrorOf<L>>,
        usize,
        SimpleSpan,
    ))
        where
            F: FnMut(&Spanned<L::Token>) -> bool,
            R: FnMut(&Spanned<L::Token>) -> Option<ErrorOf<L>>,
            C: FnMut(&<L::Token as Token>::Kind) -> Balance<D>,
        requires
            forall|u: &Spanned<L::Token>| call_requires(pred, (u,)),
            forall|u: &Spanned<L::Token>| call_requires(report, (u,)),
            forall|k: &<L::Token as Token>::Kind| call_requires(classify, (k,)),
            mode == SyncMode::Balanced ==> forall|u: &Spanned<L::Token>, e: Option<ErrorOf<L>>|
                call_ensures(report, (u,), e) ==> e is None,
            mode != SyncMode::Balanced ==> forall|u: &Spanned<L::Token>, e: Option<ErrorOf<L>>|
                call_ensures(report, (u,), e) ==> e is Some,
        ensures
            final(self).inp().same_frame(&old(self).inp()),
            final(self).inp().same_lineage(&old(self).inp()),
            extends(old(self).inp().spec_log(), final(self).inp().spec_log()),
            old(self).inp().spec_policy() != Policy::Verbose ==> final(self).inp().spec_log()
                == old(self).inp().spec_log(),
            old(self).inp().spec_watermark() <= final(self).inp().spec_watermark(),
            old(self).inp().wf() ==> final(self).inp().wf() && old(self).inp().spec_cursor()
                <= final(self).inp().spec_cursor(),
            final(self).inp().latch_ok(&old(self).inp()),
            r.0 is Failed ==> final(self).inp().same_stream(&old(self).inp()),
            r.0 is Stopped ==> final(self).inp().spec_boundary() is Some,
            r.0 is Refused ==> old(self).inp().spec_policy() == Policy::Fatal,
            r.0 is Refused && r.1 > 0 && old(self).inp().wf() ==> old(self).inp().spec_cursor() < final(self).inp().spec_cursor(),
            r.0 is Refused && old(self).inp().spec_cache().len() > 0 ==> r.1 > 0,
            old(self).inp().spec_cache().len() == 0 && old(self).inp().spec_reached(
                old(self).inp().spec_cursor(),
            ) ==> r.0 is Stopped && final(self).inp().same_stream(&old(self).inp()),
            r.0 is Matched ==> final(self).inp().spec_boundary() == old(self).inp().spec_boundary(),
            r.0 matches SyncEnd::Matched(t) ==> (mode == SyncMode::Through ==> call_ensures(
                pred,
                (&t,),
                true,
            ) && final(self).inp().spec_span() == t.span),
            r.0 matches SyncEnd::Matched(t) ==> (mode != SyncMode::Through
                && final(self).inp().spec_capacity() > 0 ==> final(self).inp().spec_cache().len()
                > 0 && call_ensures(pred, (&final(self).inp().spec_cache()[0].token,), true)
                && cloned(final(self).inp().spec_cache()[0].token, t)),
            r.0 is Matched && r.1 == 0 && mode != SyncMode::Through ==> final(self).inp().kept_position(
                &old(self).inp(),
            ),
            r.0 is Matched && r.1 == 0 && mode != SyncMode::Through && final(self).inp().spec_cache().len()
                > 0 ==> r.2.start == r.2.end && r.2.start == final(self).inp().spec_cache()[0].token.span.start,
            r.0 is Matched && r.1 > 0 && mode != SyncMode::Through ==> r.2.end == final(self).inp().spec_cursor(),
            r.0 is Matched && r.1 > 0 && old(self).inp().wf() ==> old(self).inp().spec_cursor() <= r.2.start
                <= r.2.end,
            old(self).inp().spec_cache().len() > 0 ==> exists|k: int, ds: Seq<usize>, bs: Seq<Balance<D>>|
                0 <= k <= old(self).inp().spec_cache().len() && #[trigger] sync_skips(
                    mode,
                    cache_toks(old(self).inp().spec_cache(), k),
                    pred,
                    classify,
                    ds,
                    bs,
                ) && (k == old(self).inp().spec_cache().len() ==> r.1 >= old(self).inp().spec_cache().len() || r.0 is Refused)
                    && (r.0 is Refused ==> 0 < k)
                    && (r.0 is Refused && 0 < k < old(self).inp().spec_cache().len() ==> final(self).inp().spec_span()
                    == old(self).inp().spec_cache()[k - 1].token.span && final(self).inp().spec_state()
                    == old(self).inp().spec_cache()[k - 1].state && final(self).inp().spec_cache()
                    == old(self).inp().spec_cache().subrange(k, old(self).inp().spec_cache().len() as int))
                    && (r.0 is Refused && k == old(self).inp().spec_cache().len() && old(self).inp().wf()
                    ==> old(self).inp().spec_cache()[k - 1].token.span.end <= final(self).inp().spec_cursor())
                    && (k < old(self).inp().spec_cache().len() ==> (mode != SyncMode::Balanced && r.0 is Refused)
                    || Self::sync_cache_match(
                    mode == SyncMode::Through,
                    mode == SyncMode::Balanced,
                    r.0,
                    r.1,
                    k,
                    ds.last(),
                    pred,
                    old(self).inp(),
                    final(self).inp(),
                )) && (k < old(self).inp().spec_cache().len() && r.0 is Matched && old(self).inp().spec_policy() == Policy::Verbose ==> (mode
                    != SyncMode::Balanced ==> exists|errs: Seq<ErrorOf<L>>|
                    final(self).inp().spec_log() == old(self).inp().spec_log() + #[trigger] report_log(cache_toks(old(self).inp().spec_cache(), k), errs))
                    && (mode == SyncMode::Balanced ==> final(self).inp().spec_log() == old(self).inp().spec_log())),
            old(self).inp().wf() && old(self).inp().spec_cache().len() == 0 && !old(self).inp().spec_reached(
                old(self).inp().spec_cursor(),
            ) ==> exists|
                c: L::State,
                toks: Seq<(Spanned<L::Token>, L::State)>,
                st_end: L::State,
                at_end: usize,
                wm_end: usize,
                ds: Seq<usize>,
                bs: Seq<Balance<D>>,
            |
                cloned(old(self).inp().spec_state(), c) && #[trigger] scan_chain::<L>(
                    old(self).inp().spec_src(),
                    c,
                    old(self).inp().spec_cursor(),
                    old(self).inp().spec_boundary(),
                    old(self).inp().spec_watermark(),
                    old(self).inp().spec_fatal(),
                    toks,
                    st_end,
                    at_end,
                    wm_end,
                ) && #[trigger] sync_skips(mode, toks, pred, classify, ds, bs) && counts(r.1, toks.len())
                && sync_end_agrees(
                    mode == SyncMode::Through,
                    mode == SyncMode::Balanced,
                    mode != SyncMode::Balanced && toks.len() > 0,
                    scan_end::<L>(
                        old(self).inp().spec_src(),
                        st_end,
                        at_end,
                        old(self).inp().spec_boundary(),
                        wm_end,
                        old(self).inp().spec_fatal(),
                    ),
                    r.0,
                    ds.last(),
                    pred,
                    final(self).inp().spec_cache(),
                    final(self).inp().spec_capacity(),
                    final(self).inp().spec_span(),
                    final(self).inp().spec_state(),
                ) && (r.0 is Stopped || (r.0 is Matched && mode != SyncMode::Through) ==> final(self).inp().committed_through::<L::State>(
                    &old(self).inp(),
                    toks,
                )) && (r.0 is Refused ==> final(self).inp().committed_through::<L::State>(&old(self).inp(), toks)
                    || (scan_end::<L>(
                    old(self).inp().spec_src(),
                    st_end,
                    at_end,
                    old(self).inp().spec_boundary(),
                    wm_end,
                    old(self).inp().spec_fatal(),
                ) matches ScanEnd::Refused(sp) && final(self).inp().spec_span() == sp)) && (mode != SyncMode::Balanced && old(self).inp().spec_policy() == Policy::Verbose && (r.0 is Matched || r.0 is Stopped) ==> exists|
                    errs: Seq<ErrorOf<L>>,
                |
                    final(self).inp().spec_log() == old(self).inp().spec_log() + #[trigger] sync_log::<L>(
                        old(self).inp().spec_src(),
                        c,
                        old(self).inp().spec_cursor(),
                        old(self).inp().spec_boundary(),
                        old(self).inp().spec_watermark(),
                        toks,
                        errs,
                        true,
                    ) + scan_log::<L>(old(self).inp().spec_src(), st_end, at_end, old(self).inp().spec_boundary(), wm_end)) && (mode == SyncMode::Balanced && old(self).inp().spec_policy() == Policy::Verbose && (r.0 is Matched || r.0 is Stopped) ==> exists|
                    errs: Seq<ErrorOf<L>>,
                |
                    final(self).inp().spec_log() == old(self).inp().spec_log() + #[trigger] sync_log::<L>(
                        old(self).inp().spec_src(),
                        c,
                        old(self).inp().spec_cursor(),
                        old(self).inp().spec_boundary(),
                        old(self).inp().spec_watermark(),
                        toks,
                        errs,
                        false,
                    ) + scan_log::<L>(old(self).inp().spec_src(), st_end, at_end, old(self).inp().spec_boundary(), wm_end)),
            old(self).inp().wf() && old(self).inp().spec_cache().len() > 0 && !old(self).inp().spec_reached(old(self).inp().spec_frontier()) && r.1
                >= old(self).inp().spec_cache().len() && !(r.0 is Refused) ==> exists|
                c: L::State,
                toks: Seq<(Spanned<L::Token>, L::State)>,
                st_end: L::State,
                at_end: usize,
                wm_end: usize,
                ds: Seq<usize>,
                bs: Seq<Balance<D>>,
            |
                cloned(old(self).inp().spec_frontier_state(), c) && #[trigger] scan_chain::<L>(
                    old(self).inp().spec_src(),
                    c,
                    old(self).inp().spec_frontier(),
                    old(self).inp().spec_boundary(),
                    old(self).inp().spec_watermark(),
                    old(self).inp().spec_fatal(),
                    toks,
                    st_end,
                    at_end,
                    wm_end,
                ) && #[trigger] sync_skips(mode, cache_toks(old(self).inp().spec_cache(), old(self).inp().spec_cache().len() as int) + toks, pred, classify, ds, bs) && counts(
                    r.1,
                    (old(self).inp().spec_cache().len() + toks.len()) as nat,
                ) && sync_end_agrees(
                    mode == SyncMode::Through,
                    mode == SyncMode::Balanced,
                    mode != SyncMode::Balanced,
                    scan_end::<L>(
                        old(self).inp().spec_src(),
                        st_end,
                        at_end,
                        old(self).inp().spec_boundary(),
                        wm_end,
                        old(self).inp().spec_fatal(),
                    ),
                    r.0,
                    ds.last(),
                    pred,
                    final(self).inp().spec_cache(),
                    final(self).inp().spec_capacity(),
                    final(self).inp().spec_span(),
                    final(self).inp().spec_state(),
                ) && (r.0 is Stopped || (r.0 is Matched && mode != SyncMode::Through) ==> final(self).inp().committed_through::<
                    L::State,
                >(&old(self).inp(), cache_toks(old(self).inp().spec_cache(), old(self).inp().spec_cache().len() as int) + toks)) && (mode != SyncMode::Balanced && old(self).inp().spec_policy() == Policy::Verbose && (r.0 is Matched
                    || r.0 is Stopped) ==> exists|cerrs: Seq<ErrorOf<L>>, errs: Seq<ErrorOf<L>>|
                    final(self).inp().spec_log() == old(self).inp().spec_log() + #[trigger] report_log(cache_toks(old(self).inp().spec_cache(), old(self).inp().spec_cache().len() as int), cerrs) + #[trigger] sync_log::<L>(
                        old(self).inp().spec_src(),
                        c,
                        old(self).inp().spec_frontier(),
                        old(self).inp().spec_boundary(),
                        old(self).inp().spec_watermark(),
                        toks,
                        errs,
                        true,
                    ) + scan_log::<L>(old(self).inp().spec_src(), st_end, at_end, old(self).inp().spec_boundary(), wm_end)) && (mode == SyncMode::Balanced
                    && old(self).inp().spec_policy() == Policy::Verbose && (r.0 is Matched || r.0 is Stopped) ==> exists|
                    errs: Seq<ErrorOf<L>>,
                |
                    final(self).inp().spec_log() == old(self).inp().spec_log() + #[trigger] sync_log::<L>(
                        old(self).inp().spec_src(),
                        c,
                        old(self).inp().spec_frontier(),
                        old(self).inp().spec_boundary(),
                        old(self).inp().spec_watermark(),
                        toks,
                        errs,
                        false,
                    ) + scan_log::<L>(old(self).inp().spec_src(), st_end, at_end, old(self).inp().spec_boundary(), wm_end)),
    {
        let ghost pred_in = pred;
        let ghost classify_in = classify;
        let mut pred = pred;
        let mut report = report;
        let mut classify = classify;
        let mark = self.input.emitter.checkpoint();
        let wm = self.input.watermark;
        let n0 = self.input.cache.len();
        let mut depth: usize = 0;
        let mut count: usize = 0;
        let mut hole_start: usize = 0;
        let mut hole_end: usize = 0;
        let mut i: usize = 0;
        let ghost mut cds: Seq<usize> = seq![0usize];
        let ghost mut cbs: Seq<Balance<D>> = Seq::empty();
        let ghost mut cerrs: Seq<ErrorOf<L>> = Seq::empty();
        proof {
            lemma_extends_refl(self.inp().spec_log());
            assert(cds.last() == 0);
            assert(cache_toks(old(self).inp().spec_cache(), 0) =~= Seq::<(Spanned<L::Token>, L::State)>::empty());
            assert(report_log(cache_toks(old(self).inp().spec_cache(), 0), cerrs) =~= Seq::<Emission<ErrorOf<L>>>::empty());
            assert(self.inp().spec_log() + Seq::<Emission<ErrorOf<L>>>::empty() =~= self.inp().spec_log());
        }
        while i < n0
            invariant
                i <= n0 == self.inp().spec_cache().len(),
                sync_skips(mode, cache_toks(old(self).inp().spec_cache(), i as int), pred_in, classify_in, cds, cbs),
                cerrs.len() == i,
                mode != SyncMode::Balanced && old(self).inp().spec_policy() == Policy::Verbose ==> self.inp().spec_log()
                    == old(self).inp().spec_log() + report_log(cache_toks(old(self).inp().spec_cache(), i as int), cerrs),
                mode == SyncMode::Balanced ==> self.inp().spec_log() == old(self).inp().spec_log(),
                cds.len() == i + 1 && cds.last() == depth,
                self.inp().same_frame(&old(self).inp()),
                self.inp().same_lineage(&old(self).inp()),
                self.inp().same_committed(&old(self).inp()),
                self.inp().spec_boundary() == old(self).inp().spec_boundary(),
                self.inp().spec_watermark() == old(self).inp().spec_watermark(),
                extends(old(self).inp().spec_log(), self.inp().spec_log()),
                old(self).inp().spec_policy() != Policy::Verbose ==> self.inp().spec_log()
                    == old(self).inp().spec_log(),
                mark == old(self).inp().spec_log().len(),
                wm == old(self).inp().spec_watermark(),
                count == i,
                i == 0 ==> depth == 0,
                pred == pred_in,
                classify == classify_in,
                i == 0 ==> self.inp().spec_log() == old(self).inp().spec_log(),
                i > 0 && old(self).inp().wf() ==> old(self).inp().spec_cursor() <= hole_start
                    && hole_start <= hole_end,
                i > 0 ==> hole_start == self.inp().spec_cache()[0].token.span.start
                    && hole_end == self.inp().spec_cache()[i - 1].token.span.end,
                forall|u: &Spanned<L::Token>| call_requires(pred, (u,)),
                forall|u: &Spanned<L::Token>| call_requires(report, (u,)),
                forall|k: &<L::Token as Token>::Kind| call_requires(classify, (k,)),
                mode == SyncMode::Balanced ==> forall|u: &Spanned<L::Token>, e: Option<ErrorOf<L>>|
                    call_ensures(report, (u,), e) ==> e is None,
                mode != SyncMode::Balanced ==> forall|u: &Spanned<L::Token>, e: Option<ErrorOf<L>>|
                    call_ensures(report, (u,), e) ==> e is Some,
            decreases n0 - i,
        {
            let ghost et = self.inp().spec_cache()[i as int].token;
            let ghost depth_b = depth;
            let (stop, nd, span, err) = match self.input.cache.get(i) {
                Some(e) => {
                    let (stop, nd) = Self::sync_decide(&mode, depth, &e.token, &mut pred, &mut classify);
                    assert(e.token == et);
                    if stop {
                        (stop, nd, e.token.span, None)
                    } else {
                        (stop, nd, e.token.span, report(&e.token))
                    }
                },
                None => vstd::pervasive::unreached(),
            };
            if stop {
                let ghost pre = self.inp();
                self.commit_cached(i);
                if mode == SyncMode::Through {
                    let ghost mid = self.inp();
                    let t = self.take_front();
                    proof {
                        let c0 = old(self).inp().spec_cache();
                        assert(mid.spec_cache()[0] == c0[i as int]);
                        assert(self.inp().spec_cache() =~= c0.subrange(i + 1, c0.len() as int));
                        assert(Self::sync_cache_match(
                            true,
                            false,
                            SyncEnd::Matched(t),
                            count,
                            i as int,
                            cds.last(),
                            pred,
                            old(self).inp(),
                            self.inp(),
                        ));
                        assert(sync_skips(mode, cache_toks(c0, i as int), pred, classify, cds, cbs));
                    }
                    return (SyncEnd::Matched(t), count, SimpleSpan::new(hole_start, hole_end));
                }
                let c = match self.input.cache.front() {
                    Some(f) => f.token.clone(),
                    None => vstd::pervasive::unreached(),
                };
                if count == 0 {
                    hole_start = span.start;
                    hole_end = span.start;
                }
                return (SyncEnd::Matched(c), count, SimpleSpan::new(hole_start, hole_end));
            }
            depth = nd;
            proof {
                let c0 = old(self).inp().spec_cache();
                let pt = cache_toks(c0, i as int);
                let nt = cache_toks(c0, i + 1);
                assert(nt[i as int].0 == et);
                if mode == SyncMode::Balanced {
                    let b = choose|b: Balance<D>|
                        call_ensures(classify, (&et.data.spec_kind(),), b) && nd == #[trigger] next_depth(depth_b, b);
                    let nds = cds.push(nd);
                    let nbs = cbs.push(b);
                    assert forall|k: int| #![trigger nt[k]] 0 <= k < nt.len() implies ((nds[k] == 0 ==> call_ensures(
                        pred_in,
                        (&nt[k].0,),
                        false,
                    )) && call_ensures(classify_in, (&nt[k].0.data.spec_kind(),), nbs[k]) && nds[k + 1]
                        == next_depth(nds[k], nbs[k])) by {
                        if k < i {
                            assert(nt[k] == pt[k]);
                            assert(nds[k] == cds[k] && nbs[k] == cbs[k]);
                            if k + 1 < cds.len() {
                                assert(nds[k + 1] == cds[k + 1]);
                            }
                        } else {
                            assert(nt[k].0 == et);
                            assert(nds[k] == depth_b);
                            assert(nds[k + 1] == nd);
                            assert(nbs[k] == b);
                        }
                    }
                    assert(sync_skips(mode, nt, pred_in, classify_in, nds, nbs));
                    cds = nds;
                    cbs = nbs;
                } else {
                    assert forall|k: int| #![trigger nt[k]] 0 <= k < nt.len() implies call_ensures(
                        pred_in,
                        (&nt[k].0,),
                        false,
                    ) by {
                        if k < i {
                            assert(nt[k] == pt[k]);
                        } else {
                            assert(nt[k].0 == et);
                        }
                    }
                    assert(sync_skips(mode, nt, pred_in, classify_in, cds.push(nd), cbs));
                    cds = cds.push(nd);
                }
            }
            let ghost before = self.inp();
            let rep = self.report_skip(span, err);
            proof {
                lemma_extends_trans(old(self).inp().spec_log(), before.spec_log(), self.inp().spec_log());
                let ge: ErrorOf<L> = err->Some_0;
                let c0 = old(self).inp().spec_cache();
                let ncerrs = cerrs.push(ge);
                if mode != SyncMode::Balanced && old(self).inp().spec_policy() == Policy::Verbose {
                    assert(report_log(cache_toks(c0, i + 1), ncerrs) =~= report_log(cache_toks(c0, i as int), cerrs).push(
                        Emission::Error { span, error: ge },
                    ));
                    assert(self.inp().spec_log() =~= old(self).inp().spec_log() + report_log(cache_toks(c0, i + 1), ncerrs));
                }
                cerrs = ncerrs;
            }
            if i == 0 {
                hole_start = span.start;
            }
            hole_end = span.end;
            count = count + 1;
            i = i + 1;
            match rep {
                Ok(()) => {},
                Err(e) => {
                    self.commit_cached(i);
                    return (SyncEnd::Refused(e), count, SimpleSpan::new(hole_start, hole_end));
                },
            }
        }
        let frontier = match self.input.cache.back() {
            Some(b) => b.token.span.end,
            None => self.input.span.end,
        };
        if self.reached_boundary(frontier) {
            self.commit_cached(n0);
            return (SyncEnd::Stopped, count, SimpleSpan::new(hole_start, hole_end));
        }
        let st0 = if n0 == 0 {
            self.input.state.clone()
        } else {
            match self.input.cache.back() {
                Some(b) => b.state.clone(),
                None => self.input.state.clone(),
            }
        };
        let ghost gc = st0;
        let ghost g = old(self).inp().wf();
        let ghost mut toks: Seq<(Spanned<L::Token>, L::State)> = Seq::empty();
        let ghost mut sk: Seq<(Spanned<L::Token>, L::State)> = cache_toks(old(self).inp().spec_cache(), n0 as int);
        let ghost mut ds: Seq<usize> = cds;
        let ghost mut bs: Seq<Balance<D>> = cbs;
        let ghost mut errs: Seq<ErrorOf<L>> = Seq::empty();
        let ghost pre_log = self.inp().spec_log();
        proof {
            assert(self.inp().spec_log() + Seq::<Emission<ErrorOf<L>>>::empty() =~= self.inp().spec_log());
            assert(sk + toks =~= sk);
            if n0 == 0 {
                assert(sk =~= toks);
            }
        }
        let (mut lx, from) = self.lexer_at(frontier, st0);
        let mut at = from;
        let mut last: Option<(SimpleSpan, L::State)> = None;
        loop
            invariant
                g == old(self).inp().wf(),
                g ==> cloned(old(self).inp().spec_frontier_state(), gc),
                g ==> scan_chain::<L>(
                    old(self).inp().spec_src(),
                    gc,
                    old(self).inp().spec_frontier(),
                    old(self).inp().spec_boundary(),
                    old(self).inp().spec_watermark(),
                    old(self).inp().spec_fatal(),
                    toks,
                    lx.spec_state(),
                    at,
                    self.inp().spec_watermark(),
                ),
                g ==> sk == cache_toks(old(self).inp().spec_cache(), n0 as int) + toks,
                n0 == 0 ==> sk == toks,
                g ==> sync_skips(mode, sk, pred, classify, ds, bs),
                g ==> ds.len() == sk.len() + 1 && ds.last() == depth,
                g ==> counts(count, sk.len()),
                g ==> errs.len() == toks.len(),
                cerrs.len() == n0,
                n0 == 0 ==> pre_log == old(self).inp().spec_log(),
                mode == SyncMode::Balanced ==> pre_log == old(self).inp().spec_log(),
                mode != SyncMode::Balanced && old(self).inp().spec_policy() == Policy::Verbose ==> pre_log == old(self).inp().spec_log()
                    + report_log(cache_toks(old(self).inp().spec_cache(), n0 as int), cerrs),
                g && old(self).inp().spec_policy() == Policy::Verbose ==> self.inp().spec_log() == pre_log + sync_log::<L>(
                    old(self).inp().spec_src(),
                    gc,
                    old(self).inp().spec_frontier(),
                    old(self).inp().spec_boundary(),
                    old(self).inp().spec_watermark(),
                    toks,
                    errs,
                    mode != SyncMode::Balanced,
                ),
                g ==> (toks.len() == 0 ==> last is None),
                g ==> (toks.len() > 0 ==> (last matches Some(l) && l.0 == toks.last().0.span && cloned(
                    toks.last().1,
                    l.1,
                ))),
                n0 == self.inp().spec_cache().len(),
                self.inp().same_frame(&old(self).inp()),
                self.inp().same_lineage(&old(self).inp()),
                self.inp().same_committed(&old(self).inp()),
                self.inp().spec_boundary() == old(self).inp().spec_boundary(),
                old(self).inp().spec_watermark() <= self.inp().spec_watermark(),
                extends(old(self).inp().spec_log(), self.inp().spec_log()),
                old(self).inp().spec_policy() != Policy::Verbose ==> self.inp().spec_log()
                    == old(self).inp().spec_log(),
                mark == old(self).inp().spec_log().len(),
                wm == old(self).inp().spec_watermark(),
                !old(self).inp().spec_reached(frontier),
                frontier == self.inp().spec_frontier(),
                lx.spec_offset() <= lx.spec_len(),
                lx.spec_len() == L::spec_source_len(self.inp().spec_src()),
                lx.spec_source() == self.inp().spec_src(),
                at == lx.spec_offset(),
                frontier <= lx.spec_len() ==> frontier <= at,
                pred == pred_in,
                classify == classify_in,
                count >= n0,
                n0 > 0 ==> hole_start == self.inp().spec_cache()[0].token.span.start,
                count > 0 && last is None ==> n0 > 0 && hole_end == frontier,
                last matches Some(l) ==> count > 0 && (frontier <= lx.spec_len() ==> frontier
                    <= l.0.start) && l.0.start < l.0.end && l.0.end == hole_end && hole_end <= at,
                count > 0 && old(self).inp().wf() ==> old(self).inp().spec_cursor() <= hole_start
                    && hole_start <= hole_end,
                forall|u: &Spanned<L::Token>| call_requires(pred, (u,)),
                forall|u: &Spanned<L::Token>| call_requires(report, (u,)),
                forall|k: &<L::Token as Token>::Kind| call_requires(classify, (k,)),
                mode == SyncMode::Balanced ==> forall|u: &Spanned<L::Token>, e: Option<ErrorOf<L>>|
                    call_ensures(report, (u,), e) ==> e is None,
                mode != SyncMode::Balanced ==> forall|u: &Spanned<L::Token>, e: Option<ErrorOf<L>>|
                    call_ensures(report, (u,), e) ==> e is Some,
            decreases lx.spec_len() - lx.spec_offset(),
        {
            let ghost before = self.inp();
            let ghost st_b = lx.spec_state();
            let ghost at_b = at;
            let scan = self.scan_with(&mut lx, &mut at, Ghost(false));
            proof {
                lemma_extends_trans(old(self).inp().spec_log(), before.spec_log(), self.inp().spec_log());
            }
            match scan {
                Scan::Token(t) => {
                    let ghost depth_b = depth;
                    let (stop, nd) = Self::sync_decide(&mode, depth, &t, &mut pred, &mut classify);
                    if stop {
                        self.settle_prefix(n0, last);
                        assert(self.inp().wf() ==> self.inp().spec_cursor() <= t.span.start
                            && t.span.end <= self.inp().spec_len());
                        if mode == SyncMode::Through {
                            self.advance(&t, lx.into_state());
                            return (SyncEnd::Matched(t), count, SimpleSpan::new(hole_start, hole_end));
                        }
                        let c = t.clone();
                        if count == 0 {
                            hole_start = t.span.start;
                            hole_end = t.span.start;
                        }
                        self.stage(t, lx.into_state());
                        return (SyncEnd::Matched(c), count, SimpleSpan::new(hole_start, hole_end));
                    }
                    depth = nd;
                    let err = report(&t);
                    let ghost before2 = self.inp();
                    let rep = self.report_skip(t.span, err);
                    proof {
                        lemma_extends_trans(old(self).inp().spec_log(), before2.spec_log(), self.inp().spec_log());
                    }
                    if count == 0 {
                        hole_start = t.span.start;
                    }
                    hole_end = t.span.end;
                    if count < usize::MAX {
                        count = count + 1;
                    }
                    let lst = lx.state().clone();
                    proof {
                        if g {
                            lemma_scan_chain_push::<L>(
                                old(self).inp().spec_src(),
                                gc,
                                old(self).inp().spec_frontier(),
                                old(self).inp().spec_boundary(),
                                old(self).inp().spec_watermark(),
                                old(self).inp().spec_fatal(),
                                toks,
                                st_b,
                                at_b,
                                before.spec_watermark(),
                                t,
                                lx.spec_state(),
                            );
                            let ge: ErrorOf<L> = err->Some_0;
                            if old(self).inp().spec_policy() == Policy::Verbose {
                                lemma_sync_log_push::<L>(
                                    old(self).inp().spec_src(),
                                    gc,
                                    old(self).inp().spec_frontier(),
                                    old(self).inp().spec_boundary(),
                                    old(self).inp().spec_watermark(),
                                    toks,
                                    errs,
                                    mode != SyncMode::Balanced,
                                    st_b,
                                    at_b,
                                    before.spec_watermark(),
                                    t,
                                    lx.spec_state(),
                                    ge,
                                );
                            }
                            errs = errs.push(ge);
                            let ntoks = toks.push((t, lx.spec_state()));
                            let nsk = sk.push((t, lx.spec_state()));
                            assert(nsk =~= cache_toks(old(self).inp().spec_cache(), n0 as int) + ntoks);
                            if mode == SyncMode::Balanced {
                                let b = choose|b: Balance<D>|
                                    call_ensures(classify, (&t.data.spec_kind(),), b) && nd == #[trigger] next_depth(depth_b, b);
                                let nds = ds.push(nd);
                                let nbs = bs.push(b);
                                assert forall|k: int| #![trigger nsk[k]] 0 <= k < nsk.len() implies ((nds[k] == 0 ==> call_ensures(
                                    pred,
                                    (&nsk[k].0,),
                                    false,
                                )) && call_ensures(classify, (&nsk[k].0.data.spec_kind(),), nbs[k]) && nds[k + 1]
                                    == next_depth(nds[k], nbs[k])) by {
                                    if k < sk.len() {
                                        assert(nsk[k] == sk[k]);
                                        assert(nds[k] == ds[k] && nbs[k] == bs[k]);
                                        if k + 1 < ds.len() {
                                            assert(nds[k + 1] == ds[k + 1]);
                                        }
                                    } else {
                                        assert(nsk[k].0 == t);
                                        assert(nds[k] == depth_b);
                                        assert(nds[k + 1] == nd);
                                        assert(nbs[k] == b);
                                    }
                                }
                                assert(sync_skips(mode, nsk, pred, classify, nds, nbs));
                                ds = nds;
                                bs = nbs;
                            } else {
                                assert forall|k: int| #![trigger nsk[k]] 0 <= k < nsk.len() implies call_ensures(
                                    pred,
                                    (&nsk[k].0,),
                                    false,
                                ) by {
                                    if k < sk.len() {
                                        assert(nsk[k] == sk[k]);
                                    } else {
                                        assert(nsk[k].0 == t);
                                    }
                                }
                                assert(sync_skips(mode, nsk, pred, classify, ds.push(nd), bs));
                                ds = ds.push(nd);
                            }
                            if n0 == 0 {
                                assert(nsk == ntoks);
                            }
                            toks = ntoks;
                            sk = nsk;
                        }
                    }
                    last = Some((t.span, lst));
                    match rep {
                        Ok(()) => {},
                        Err(e) => {
                            self.settle_prefix(n0, last);
                            return (SyncEnd::Refused(e), count, SimpleSpan::new(hole_start, hole_end));
                        },
                    }
                },
                Scan::Tripped => {
                    self.settle_prefix(n0, last);
                    return (SyncEnd::Stopped, count, SimpleSpan::new(hole_start, hole_end));
                },
                Scan::Eof => {
                    if self.reached_boundary(at) {
                        self.settle_prefix(n0, last);
                        return (SyncEnd::Stopped, count, SimpleSpan::new(hole_start, hole_end));
                    }
                    let ghost grown = self.inp().spec_log();
                    self.input.emitter.rewind(mark);
                    self.input.watermark = wm;
                    proof {
                        assert(grown.subrange(0, mark as int) =~= old(self).inp().spec_log());
                        assert(self.inp().spec_log() =~= old(self).inp().spec_log());
                    }
                    return (SyncEnd::Failed, count, SimpleSpan::new(hole_start, hole_end));
                },
                Scan::Rejected(span, e) => {
                    self.settle_prefix(n0, last);
                    self.advance_span(span, lx.into_state());
                    return (SyncEnd::Refused(e), count, SimpleSpan::new(hole_start, hole_end));
                },
                Scan::TripRejected(e) => {
                    self.settle_prefix(n0, last);
                    return (SyncEnd::Refused(e), count, SimpleSpan::new(hole_start, hole_end));
                },
            }
        }
    }

    /// Classifies the close position of a delimited list without moving the committed
    /// position: the closer (as judged by `pred`) is at hand, another token is there, the
    /// input genuinely ended, or a resource-limit trip or the poison boundary stopped
    /// lexing.
    pub fn probe_close<F: FnMut(&Spanned<L::Token>) -> bool>(&mut self, pred: F) -> (r: Result<
        CloseStatus<L::Token, L::State>,
        ErrorOf<L>,
    >)
        requires
            forall|t: &Spanned<L::Token>| call_requires(pred, (t,)),
        ensures
            final(self).inp().grew_only(&old(self).inp()),
            final(self).inp().latch_ok(&old(self).inp()),
            final(self).inp().kept_position(&old(self).inp()),
            old(self).inp().spec_cache().len() > 0 ==> final(self).inp().same_stream(&old(self).inp()),
            old(self).inp().spec_cache().len() > 0 ==> (r == Ok::<CloseStatus<L::Token, L::State>, ErrorOf<L>>(
                CloseStatus::Close(ClosePayload::CacheFront),
            ) && call_ensures(pred, (&old(self).inp().spec_cache()[0].token,), true)) || (r matches Ok(
                CloseStatus::WrongToken(w),
            ) && cloned(old(self).inp().spec_cache()[0].token, w) && call_ensures(
                pred,
                (&old(self).inp().spec_cache()[0].token,),
                false,
            )),
            r matches Ok(CloseStatus::Close(ClosePayload::CacheFront)) ==> old(self).inp().spec_cache().len() > 0
                && call_ensures(pred, (&old(self).inp().spec_cache()[0].token,), true),
            r matches Ok(CloseStatus::Close(ClosePayload::Scanned(ct))) ==> old(self).inp().spec_cache().len() == 0
                && final(self).inp().same_committed(&old(self).inp()) && call_ensures(pred, (&ct.token,), true)
                && ct.token.span.start < ct.token.span.end && (old(self).inp().wf() ==> old(self).inp().spec_cursor()
                <= ct.token.span.start && ct.token.span.end <= old(self).inp().spec_len()),
            r matches Ok(CloseStatus::WrongToken(w)) ==> (old(self).inp().spec_cache().len() > 0 ==> cloned(
                old(self).inp().spec_cache()[0].token,
                w,
            ) && call_ensures(pred, (&old(self).inp().spec_cache()[0].token,), false)),
            r matches Ok(CloseStatus::WrongToken(w)) ==> (old(self).inp().spec_cache().len() == 0 ==> exists|
                u: Spanned<L::Token>,
                s: L::State,
            | #[trigger] final(self).inp().staged(&old(self).inp(), u, s) && cloned(u, w) && call_ensures(pred, (&u,), false)),
            r matches Ok(CloseStatus::Eof) ==> final(self).inp().same_committed(&old(self).inp())
                && final(self).inp().spec_boundary() == old(self).inp().spec_boundary(),
            r matches Ok(CloseStatus::Tripped) ==> final(self).inp().same_committed(&old(self).inp())
                && final(self).inp().spec_boundary() is Some,
            old(self).inp().spec_cache().len() == 0 && old(self).inp().spec_reached(
                old(self).inp().spec_cursor(),
            ) ==> (r matches Ok(CloseStatus::Tripped) && final(self).inp().same_stream(&old(self).inp())),
            r is Err ==> old(self).inp().spec_policy() == Policy::Fatal && final(self).inp().same_committed(
                &old(self).inp(),
            ),
            old(self).inp().wf() && old(self).inp().spec_cache().len() == 0 && !old(self).inp().spec_reached(
                old(self).inp().spec_cursor(),
            ) ==> exists|c: L::State|
                #[trigger] cloned(old(self).inp().spec_state(), c) && (old(self).inp().spec_policy() == Policy::Verbose ==> final(self).inp().spec_log() == old(self).inp().spec_log() + head_log(old(self).inp(), c)) && scan_settles(old(self).inp(), c, final(self).inp()) && refused_with(head_end(old(self).inp(), c), r, head_refusal(old(self).inp(), c)) && probe_agrees(
                    head_end(old(self).inp(), c),
                    r,
                    final(self).inp().spec_cache(),
                    old(self).inp().spec_capacity(),
                    pred,
                ),
    {
        let mut pred = pred;
        let h = self.head();
        match h {
            Head::Cached => {
                match self.input.cache.front() {
                    Some(f) => {
                        if pred(&f.token) {
                            Ok(CloseStatus::Close(ClosePayload::CacheFront))
                        } else {
                            Ok(CloseStatus::WrongToken(f.token.clone()))
                        }
                    },
                    None => vstd::pervasive::unreached(),
                }
            },
            Head::Scanned(t, s) => {
                if pred(&t) {
                    Ok(CloseStatus::Close(ClosePayload::Scanned(CachedToken::new(t, s))))
                } else {
                    let w = t.clone();
                    let ghost gt = t;
                    let ghost gs = s;
                    self.stage(t, s);
                    assert(self.inp().staged(&old(self).inp(), gt, gs) && cloned(gt, w));
                    Ok(CloseStatus::WrongToken(w))
                }
            },
            Head::Latched | Head::Stopped => Ok(CloseStatus::Tripped),
            Head::Eof => Ok(CloseStatus::Eof),
            Head::Failed(e) => Err(e),
        }
    }

    /// Commits a closer classified by [`probe_close`](InputRef::probe_close), without lexing
    /// again: a carried-out closer is committed by value, a cached one is taken off the front.
    pub fn commit_probed(&mut self, payload: ClosePayload<L::Token, L::State>) -> (r: Spanned<L::Token>)
        requires
            payload is CacheFront ==> old(self).inp().spec_cache().len() > 0,
            payload matches ClosePayload::Scanned(ct) ==> old(self).inp().spec_cache().len() == 0
                && ct.token.span.start < ct.token.span.end && (old(self).inp().wf()
                ==> old(self).inp().spec_cursor() <= ct.token.span.start && ct.token.span.end
                <= old(self).inp().spec_len()),
        ensures
            payload is CacheFront ==> final(self).inp().took_front(&old(self).inp(), r),
            payload matches ClosePayload::Scanned(ct) ==> r == ct.token && final(self).inp().advanced_to(&old(self).inp(), r)
                && final(self).inp().spec_state() == ct.state,
            final(self).inp().same_frame(&old(self).inp()),
            final(self).inp().same_lineage(&old(self).inp()),
            final(self).inp().spec_watermark() == old(self).inp().spec_watermark(),
            final(self).inp().spec_log() == old(self).inp().spec_log(),
            old(self).inp().wf() ==> final(self).inp().wf(),
    {
        match payload {
            ClosePayload::Scanned(ct) => {
                let (t, s) = ct.into_components();
                self.advance(&t, s);
                t
            },
            ClosePayload::CacheFront => self.take_front(),
        }
    }

    /// Skips ahead to the next token that satisfies `pred`, leaving it in place (staged in
    /// the cache when it had to be lexed), and returns a copy of it. Every token skipped on
    /// the way is reported as unexpected, with what `expected` says was expected there.
    ///
    /// `None` when no such token comes: at the end of the input the call leaves no trace (no
    /// progress, no diagnostics); at a resource-limit trip or the poison boundary the skipped
    /// prefix is committed and the input is poisoned. A refused diagnostic is returned after
    /// committing through the offending item.
    pub fn sync_to<F, X>(&mut self, pred: F, expected: X) -> (r: Result<
        Option<Spanned<L::Token>>,
        ErrorOf<L>,
    >)
        where
            F: FnMut(&Spanned<L::Token>) -> bool,
            X: Fn() -> Option<<L::Token as Token>::Kind>,
            ErrorOf<L>: From<UnexpectedToken<L::Token, <L::Token as Token>::Kind>>,
        requires
            forall|u: &Spanned<L::Token>| call_requires(pred, (u,)),
            call_requires(expected, ()),
        ensures
            final(self).inp().grew_only(&old(self).inp()),
            final(self).inp().latch_ok(&old(self).inp()),
            old(self).inp().wf() ==> old(self).inp().spec_cursor() <= final(self).inp().spec_cursor(),
            r matches Ok(Some(t)) ==> final(self).inp().spec_boundary() == old(self).inp().spec_boundary()
                && (final(self).inp().spec_capacity() > 0 ==> final(self).inp().spec_cache().len() > 0
                && call_ensures(pred, (&final(self).inp().spec_cache()[0].token,), true)
                && cloned(final(self).inp().spec_cache()[0].token, t)),
            declined(r) ==> final(self).inp().same_stream(&old(self).inp())
                || final(self).inp().spec_boundary() is Some,
            r is Err ==> old(self).inp().spec_policy() == Policy::Fatal,
            old(self).inp().spec_cache().len() == 0 && old(self).inp().spec_reached(
                old(self).inp().spec_cursor(),
            ) ==> (r matches Ok(None) && final(self).inp().same_stream(&old(self).inp())),
            old(self).inp().wf() && old(self).inp().spec_cache().len() == 0 && !old(self).inp().spec_reached(
                old(self).inp().spec_cursor(),
            ) ==> exists|
                c: L::State,
                toks: Seq<(Spanned<L::Token>, L::State)>,
                st_end: L::State,
                at_end: usize,
                wm_end: usize,
            |
                cloned(old(self).inp().spec_state(), c) && #[trigger] scan_chain::<L>(
                    old(self).inp().spec_src(),
                    c,
                    old(self).inp().spec_cursor(),
                    old(self).inp().spec_boundary(),
                    old(self).inp().spec_watermark(),
                    old(self).inp().spec_fatal(),
                    toks,
                    st_end,
                    at_end,
                    wm_end,
                ) && #[trigger] all_refused(toks, pred) && match r {
                    Ok(Some(t)) => scan_end::<L>(
                        old(self).inp().spec_src(),
                        st_end,
                        at_end,
                        old(self).inp().spec_boundary(),
                        wm_end,
                        old(self).inp().spec_fatal(),
                    ) matches ScanEnd::Token(u, st) && call_ensures(pred, (&u,), true) && cloned(u, t)
                        && (0 < final(self).inp().spec_capacity() ==> final(self).inp().spec_cache() == seq![
                        CachedToken { token: u, state: st },
                    ]) && final(self).inp().committed_through::<L::State>(&old(self).inp(), toks) && (old(self).inp().spec_policy() == Policy::Verbose ==> exists|errs: Seq<ErrorOf<L>>|
                        final(self).inp().spec_log() == old(self).inp().spec_log() + #[trigger] sync_log::<L>(
                            old(self).inp().spec_src(),
                            c,
                            old(self).inp().spec_cursor(),
                            old(self).inp().spec_boundary(),
                            old(self).inp().spec_watermark(),
                            toks,
                            errs,
                            true,
                        ) + scan_log::<L>(old(self).inp().spec_src(), st_end, at_end, old(self).inp().spec_boundary(), wm_end)),
                    Ok(None) => match scan_end::<L>(
                        old(self).inp().spec_src(),
                        st_end,
                        at_end,
                        old(self).inp().spec_boundary(),
                        wm_end,
                        old(self).inp().spec_fatal(),
                    ) {
                        ScanEnd::End(_) => final(self).inp().same_stream(&old(self).inp()),
                        ScanEnd::Stop(_) | ScanEnd::Trip(_, false) => final(self).inp().committed_through::<
                            L::State,
                        >(&old(self).inp(), toks) && (old(self).inp().spec_policy() == Policy::Verbose ==> exists|errs: Seq<ErrorOf<L>>|
                        final(self).inp().spec_log() == old(self).inp().spec_log() + #[trigger] sync_log::<L>(
                            old(self).inp().spec_src(),
                            c,
                            old(self).inp().spec_cursor(),
                            old(self).inp().spec_boundary(),
                            old(self).inp().spec_watermark(),
                            toks,
                            errs,
                            true,
                        ) + scan_log::<L>(old(self).inp().spec_src(), st_end, at_end, old(self).inp().spec_boundary(), wm_end)),
                        _ => false,
                    },
                    Err(_) => (toks.len() > 0 || scan_end::<L>(
                        old(self).inp().spec_src(),
                        st_end,
                        at_end,
                        old(self).inp().spec_boundary(),
                        wm_end,
                        old(self).inp().spec_fatal(),
                    ) is Refused || scan_end::<L>(
                        old(self).inp().spec_src(),
                        st_end,
                        at_end,
                        old(self).inp().spec_boundary(),
                        wm_end,
                        old(self).inp().spec_fatal(),
                    ) matches ScanEnd::Trip(_, true))
                        && (final(self).inp().committed_through::<L::State>(&old(self).inp(), toks) || (scan_end::<L>(
                        old(self).inp().spec_src(),
                        st_end,
                        at_end,
                        old(self).inp().spec_boundary(),
                        wm_end,
                        old(self).inp().spec_fatal(),
                    ) matches ScanEnd::Refused(sp) && final(self).inp().spec_span() == sp)),
                },
            old(self).inp().spec_cache().len() > 0 ==> exists|k: int|
                0 <= k <= old(self).inp().spec_cache().len() && #[trigger] all_refused(cache_toks(old(self).inp().spec_cache(), k), pred) && (r is Err ==> 0 < k) && (r is Err && 0 < k < old(self).inp().spec_cache().len() ==> final(self).inp().spec_span()
                    == old(self).inp().spec_cache()[k - 1].token.span && final(self).inp().spec_state()
                    == old(self).inp().spec_cache()[k - 1].state && final(self).inp().spec_cache()
                    == old(self).inp().spec_cache().subrange(k, old(self).inp().spec_cache().len() as int)) && (r is Err
                    && k == old(self).inp().spec_cache().len() && old(self).inp().wf()
                    ==> old(self).inp().spec_cache()[k - 1].token.span.end <= final(self).inp().spec_cursor()) && (k
                < old(self).inp().spec_cache().len() ==> r is Err || (r matches Ok(Some(t)) && call_ensures(pred, (&old(self).inp().spec_cache()[k].token,), true)
                && cloned(old(self).inp().spec_cache()[k].token, t) && final(self).inp().spec_cache() == old(self).inp().spec_cache().subrange(
                k,
                old(self).inp().spec_cache().len() as int,
            ) && (k > 0 ==> final(self).inp().spec_span() == old(self).inp().spec_cache()[k - 1].token.span
                && final(self).inp().spec_state() == old(self).inp().spec_cache()[k - 1].state) && (k == 0 ==> final(self).inp().kept_position(
                &old(self).inp(),
            )) && (old(self).inp().spec_policy() == Policy::Verbose ==> exists|errs: Seq<ErrorOf<L>>|
                final(self).inp().spec_log() == old(self).inp().spec_log() + #[trigger] report_log(cache_toks(old(self).inp().spec_cache(), k), errs)))),
            old(self).inp().wf() && old(self).inp().spec_cache().len() > 0 && !old(self).inp().spec_reached(old(self).inp().spec_frontier()) && !(r is Err) ==> (exists|k: int|
                0 <= k < old(self).inp().spec_cache().len() && #[trigger] all_refused(cache_toks(old(self).inp().spec_cache(), k), pred) && call_ensures(pred, (&old(self).inp().spec_cache()[k].token,), true) && (r matches Ok(Some(t)) && cloned(old(self).inp().spec_cache()[k].token, t)
                    && final(self).inp().spec_cache() == old(self).inp().spec_cache().subrange(k, old(self).inp().spec_cache().len() as int))) || (exists|
                c: L::State,
                toks: Seq<(Spanned<L::Token>, L::State)>,
                st_end: L::State,
                at_end: usize,
                wm_end: usize,
            |
                cloned(old(self).inp().spec_frontier_state(), c) && #[trigger] scan_chain::<L>(
                    old(self).inp().spec_src(),
                    c,
                    old(self).inp().spec_frontier(),
                    old(self).inp().spec_boundary(),
                    old(self).inp().spec_watermark(),
                    old(self).inp().spec_fatal(),
                    toks,
                    st_end,
                    at_end,
                    wm_end,
                ) && #[trigger] all_refused(cache_toks(old(self).inp().spec_cache(), old(self).inp().spec_cache().len() as int) + toks, pred) && match r {
                    Ok(Some(t)) => scan_end::<L>(
                        old(self).inp().spec_src(),
                        st_end,
                        at_end,
                        old(self).inp().spec_boundary(),
                        wm_end,
                        old(self).inp().spec_fatal(),
                    ) matches ScanEnd::Token(u, st) && call_ensures(pred, (&u,), true) && cloned(u, t) && (0
                        < final(self).inp().spec_capacity() ==> final(self).inp().spec_cache() == seq![CachedToken { token: u, state: st }])
                        && final(self).inp().committed_through::<L::State>(&old(self).inp(), cache_toks(old(self).inp().spec_cache(), old(self).inp().spec_cache().len() as int) + toks) && (old(self).inp().spec_policy() == Policy::Verbose ==> exists|cerrs: Seq<ErrorOf<L>>, errs: Seq<ErrorOf<L>>|
                            final(self).inp().spec_log() == old(self).inp().spec_log() + #[trigger] report_log(cache_toks(old(self).inp().spec_cache(), old(self).inp().spec_cache().len() as int), cerrs) + #[trigger] sync_log::<L>(
                                old(self).inp().spec_src(),
                                c,
                                old(self).inp().spec_frontier(),
                                old(self).inp().spec_boundary(),
                                old(self).inp().spec_watermark(),
                                toks,
                                errs,
                                true,
                            ) + scan_log::<L>(old(self).inp().spec_src(), st_end, at_end, old(self).inp().spec_boundary(), wm_end)),
                    Ok(None) => match scan_end::<L>(
                        old(self).inp().spec_src(),
                        st_end,
                        at_end,
                        old(self).inp().spec_boundary(),
                        wm_end,
                        old(self).inp().spec_fatal(),
                    ) {
                        ScanEnd::End(_) => final(self).inp().same_stream(&old(self).inp()),
                        ScanEnd::Stop(_) | ScanEnd::Trip(_, false) => final(self).inp().committed_through::<L::State>(
                            &old(self).inp(),
                            cache_toks(old(self).inp().spec_cache(), old(self).inp().spec_cache().len() as int) + toks,
                        ) && (old(self).inp().spec_policy() == Policy::Verbose ==> exists|cerrs: Seq<ErrorOf<L>>, errs: Seq<ErrorOf<L>>|
                            final(self).inp().spec_log() == old(self).inp().spec_log() + #[trigger] report_log(cache_toks(old(self).inp().spec_cache(), old(self).inp().spec_cache().len() as int), cerrs) + #[trigger] sync_log::<L>(
                                old(self).inp().spec_src(),
                                c,
                                old(self).inp().spec_frontier(),
                                old(self).inp().spec_boundary(),
                                old(self).inp().spec_watermark(),
                                toks,
                                errs,
                                true,
                            ) + scan_log::<L>(old(self).inp().spec_src(), st_end, at_end, old(self).inp().spec_boundary(), wm_end)),
                        _ => false,
                    },
                    Err(_) => false,
                }),
    {
        let ex = &expected;
        let report = |t: &Spanned<L::Token>| -> (e: Option<ErrorOf<L>>)
            requires
                call_requires(ex, ()),
            ensures
                e is Some,
            {
                let exp = ex();
                Some(
                    ErrorOf::<L>::from(
                        UnexpectedToken::of(t.span).with_found(t.data.clone()).with_expected(exp),
                    ),
                )
            };
        let ghost n0 = self.inp().spec_cache().len();
        let (end, count, _) = self.sync_engine(SyncMode::To, pred, report, |_k: &<L::Token as Token>::Kind| Balance::<()>::Neutral);
        proof {
            if count < n0 && !(end is Refused) {
                assert(count < old(self).inp().spec_cache().len());
            }
        }
        match end {
            SyncEnd::Matched(t) => Ok(Some(t)),
            SyncEnd::Failed | SyncEnd::Stopped => Ok(None),
            SyncEnd::Refused(e) => Err(e),
        }
    }

    /// Skips ahead to the next token that satisfies `pred` and consumes it too, returning
    /// it. Every token skipped on the way is reported as unexpected, with what `expected`
    /// says was expected there.
    ///
    /// `None` when no such token comes: at the end of the input the call leaves no trace (no
    /// progress, no diagnostics); at a resource-limit trip or the poison boundary the skipped
    /// prefix is committed and the input is poisoned. A refused diagnostic is returned after
    /// committing through the offending item.
    pub fn sync_through<F, X>(&mut self, pred: F, expected: X) -> (r: Result<
        Option<Spanned<L::Token>>,
        ErrorOf<L>,
    >)
        where
            F: FnMut(&Spanned<L::Token>) -> bool,
            X: Fn() -> Option<<L::Token as Token>::Kind>,
            ErrorOf<L>: From<UnexpectedToken<L::Token, <L::Token as Token>::Kind>>,
        requires
            forall|u: &Spanned<L::Token>| call_requires(pred, (u,)),
            call_requires(expected, ()),
        ensures
            final(self).inp().grew_only(&old(self).inp()),
            final(self).inp().latch_ok(&old(self).inp()),
            old(self).inp().wf() ==> old(self).inp().spec_cursor() <= final(self).inp().spec_cursor(),
            r matches Ok(Some(t)) ==> final(self).inp().spec_boundary() == old(self).inp().spec_boundary()
                && call_ensures(pred, (&t,), true) && final(self).inp().spec_span() == t.span,
            declined(r) ==> final(self).inp().same_stream(&old(self).inp())
                || final(self).inp().spec_boundary() is Some,
            r is Err ==> old(self).inp().spec_policy() == Policy::Fatal,
            old(self).inp().spec_cache().len() == 0 && old(self).inp().spec_reached(
                old(self).inp().spec_cursor(),
            ) ==> (r matches Ok(None) && final(self).inp().same_stream(&old(self).inp())),
            old(self).inp().wf() && old(self).inp().spec_cache().len() == 0 && !old(self).inp().spec_reached(
                old(self).inp().spec_cursor(),
            ) ==> exists|
                c: L::State,
                toks: Seq<(Spanned<L::Token>, L::State)>,
                st_end: L::State,
                at_end: usize,
                wm_end: usize,
            |
                cloned(old(self).inp().spec_state(), c) && #[trigger] scan_chain::<L>(
                    old(self).inp().spec_src(),
                    c,
                    old(self).inp().spec_cursor(),
                    old(self).inp().spec_boundary(),
                    old(self).inp().spec_watermark(),
                    old(self).inp().spec_fatal(),
                    toks,
                    st_end,
                    at_end,
                    wm_end,
                ) && #[trigger] all_refused(toks, pred) && match r {
                    Ok(Some(t)) => scan_end::<L>(
                        old(self).inp().spec_src(),
                        st_end,
                        at_end,
                        old(self).inp().spec_boundary(),
                        wm_end,
                        old(self).inp().spec_fatal(),
                    ) == ScanEnd::Token(t, final(self).inp().spec_state())
                        && call_ensures(pred, (&t,), true) && final(self).inp().spec_span() == t.span && (old(self).inp().spec_policy() == Policy::Verbose ==> exists|errs: Seq<ErrorOf<L>>|
                        final(self).inp().spec_log() == old(self).inp().spec_log() + #[trigger] sync_log::<L>(
                            old(self).inp().spec_src(),
                            c,
                            old(self).inp().spec_cursor(),
                            old(self).inp().spec_boundary(),
                            old(self).inp().spec_watermark(),
                            toks,
                            errs,
                            true,
                        ) + scan_log::<L>(old(self).inp().spec_src(), st_end, at_end, old(self).inp().spec_boundary(), wm_end)),
                    Ok(None) => match scan_end::<L>(
                        old(self).inp().spec_src(),
                        st_end,
                        at_end,
                        old(self).inp().spec_boundary(),
                        wm_end,
                        old(self).inp().spec_fatal(),
                    ) {
                        ScanEnd::End(_) => final(self).inp().same_stream(&old(self).inp()),
                        ScanEnd::Stop(_) | ScanEnd::Trip(_, false) => final(self).inp().committed_through::<
                            L::State,
                        >(&old(self).inp(), toks) && (old(self).inp().spec_policy() == Policy::Verbose ==> exists|errs: Seq<ErrorOf<L>>|
                        final(self).inp().spec_log() == old(self).inp().spec_log() + #[trigger] sync_log::<L>(
                            old(self).inp().spec_src(),
                            c,
                            old(self).inp().spec_cursor(),
                            old(self).inp().spec_boundary(),
                            old(self).inp().spec_watermark(),
                            toks,
                            errs,
                            true,
                        ) + scan_log::<L>(old(self).inp().spec_src(), st_end, at_end, old(self).inp().spec_boundary(), wm_end)),
                        _ => false,
                    },
                    Err(_) => (toks.len() > 0 || scan_end::<L>(
                        old(self).inp().spec_src(),
                        st_end,
                        at_end,
                        old(self).inp().spec_boundary(),
                        wm_end,
                        old(self).inp().spec_fatal(),
                    ) is Refused || scan_end::<L>(
                        old(self).inp().spec_src(),
                        st_end,
                        at_end,
                        old(self).inp().spec_boundary(),
                        wm_end,
                        old(self).inp().spec_fatal(),
                    ) matches ScanEnd::Trip(_, true))
                        && (final(self).inp().committed_through::<L::State>(&old(self).inp(), toks) || (scan_end::<L>(
                        old(self).inp().spec_src(),
                        st_end,
                        at_end,
                        old(self).inp().spec_boundary(),
                        wm_end,
                        old(self).inp().spec_fatal(),
                    ) matches ScanEnd::Refused(sp) && final(self).inp().spec_span() == sp)),
                },
            old(self).inp().spec_cache().len() > 0 ==> exists|k: int|
                0 <= k <= old(self).inp().spec_cache().len() && #[trigger] all_refused(cache_toks(old(self).inp().spec_cache(), k), pred) && (r is Err ==> 0 < k) && (r is Err && 0 < k < old(self).inp().spec_cache().len() ==> final(self).inp().spec_span()
                    == old(self).inp().spec_cache()[k - 1].token.span && final(self).inp().spec_state()
                    == old(self).inp().spec_cache()[k - 1].state && final(self).inp().spec_cache()
                    == old(self).inp().spec_cache().subrange(k, old(self).inp().spec_cache().len() as int)) && (r is Err
                    && k == old(self).inp().spec_cache().len() && old(self).inp().wf()
                    ==> old(self).inp().spec_cache()[k - 1].token.span.end <= final(self).inp().spec_cursor()) && (k
                < old(self).inp().spec_cache().len() ==> r is Err || (r matches Ok(Some(t)) && t == old(self).inp().spec_cache()[k].token && call_ensures(pred, (&t,), true)
                && final(self).inp().spec_span() == t.span && final(self).inp().spec_state() == old(self).inp().spec_cache()[k].state
                && final(self).inp().spec_cache() == old(self).inp().spec_cache().subrange(k + 1, old(self).inp().spec_cache().len() as int) && (old(self).inp().spec_policy() == Policy::Verbose ==> exists|errs: Seq<ErrorOf<L>>|
                final(self).inp().spec_log() == old(self).inp().spec_log() + #[trigger] report_log(cache_toks(old(self).inp().spec_cache(), k), errs)))),
            old(self).inp().wf() && old(self).inp().spec_cache().len() > 0 && !old(self).inp().spec_reached(old(self).inp().spec_frontier()) && !(r is Err) ==> (exists|k: int|
                0 <= k < old(self).inp().spec_cache().len() && #[trigger] all_refused(cache_toks(old(self).inp().spec_cache(), k), pred) && (r matches Ok(Some(t)) && t == old(self).inp().spec_cache()[k].token && call_ensures(pred, (&t,), true)
                    && final(self).inp().spec_span() == t.span && final(self).inp().spec_state() == old(self).inp().spec_cache()[k].state && final(self).inp().spec_cache()
                    == old(self).inp().spec_cache().subrange(k + 1, old(self).inp().spec_cache().len() as int))) || (exists|
                c: L::State,
                toks: Seq<(Spanned<L::Token>, L::State)>,
                st_end: L::State,
                at_end: usize,
                wm_end: usize,
            |
                cloned(old(self).inp().spec_frontier_state(), c) && #[trigger] scan_chain::<L>(
                    old(self).inp().spec_src(),
                    c,
                    old(self).inp().spec_frontier(),
                    old(self).inp().spec_boundary(),
                    old(self).inp().spec_watermark(),
                    old(self).inp().spec_fatal(),
                    toks,
                    st_end,
                    at_end,
                    wm_end,
                ) && #[trigger] all_refused(cache_toks(old(self).inp().spec_cache(), old(self).inp().spec_cache().len() as int) + toks, pred) && match r {
                    Ok(Some(t)) => scan_end::<L>(
                        old(self).inp().spec_src(),
                        st_end,
                        at_end,
                        old(self).inp().spec_boundary(),
                        wm_end,
                        old(self).inp().spec_fatal(),
                    ) == ScanEnd::Token(t, final(self).inp().spec_state()) && call_ensures(pred, (&t,), true)
                        && final(self).inp().spec_span() == t.span && (old(self).inp().spec_policy() == Policy::Verbose ==> exists|cerrs: Seq<ErrorOf<L>>, errs: Seq<ErrorOf<L>>|
                            final(self).inp().spec_log() == old(self).inp().spec_log() + #[trigger] report_log(cache_toks(old(self).inp().spec_cache(), old(self).inp().spec_cache().len() as int), cerrs) + #[trigger] sync_log::<L>(
                                old(self).inp().spec_src(),
                                c,
                                old(self).inp().spec_frontier(),
                                old(self).inp().spec_boundary(),
                                old(self).inp().spec_watermark(),
                                toks,
                                errs,
                                true,
                            ) + scan_log::<L>(old(self).inp().spec_src(), st_end, at_end, old(self).inp().spec_boundary(), wm_end)),
                    Ok(None) => match scan_end::<L>(
                        old(self).inp().spec_src(),
                        st_end,
                        at_end,
                        old(self).inp().spec_boundary(),
                        wm_end,
                        old(self).inp().spec_fatal(),
                    ) {
                        ScanEnd::End(_) => final(self).inp().same_stream(&old(self).inp()),
                        ScanEnd::Stop(_) | ScanEnd::Trip(_, false) => final(self).inp().committed_through::<L::State>(
                            &old(self).inp(),
                            cache_toks(old(self).inp().spec_cache(), old(self).inp().spec_cache().len() as int) + toks,
                        ) && (old(self).inp().spec_policy() == Policy::Verbose ==> exists|cerrs: Seq<ErrorOf<L>>, errs: Seq<ErrorOf<L>>|
                            final(self).inp().spec_log() == old(self).inp().spec_log() + #[trigger] report_log(cache_toks(old(self).inp().spec_cache(), old(self).inp().spec_cache().len() as int), cerrs) + #[trigger] sync_log::<L>(
                                old(self).inp().spec_src(),
                                c,
                                old(self).inp().spec_frontier(),
                                old(self).inp().spec_boundary(),
                                old(self).inp().spec_watermark(),
                                toks,
                                errs,
                                true,
                            ) + scan_log::<L>(old(self).inp().spec_src(), st_end, at_end, old(self).inp().spec_boundary(), wm_end)),
                        _ => false,
                    },
                    Err(_) => false,
                }),
    {
        let ex = &expected;
        let report = |t: &Spanned<L::Token>| -> (e: Option<ErrorOf<L>>)
            requires
                call_requires(ex, ()),
            ensures
                e is Some,
            {
                let exp = ex();
                Some(
                    ErrorOf::<L>::from(
                        UnexpectedToken::of(t.span).with_found(t.data.clone()).with_expected(exp),
                    ),
                )
            };
        let ghost n0 = self.inp().spec_cache().len();
        let (end, count, _) = self.sync_engine(SyncMode::Through, pred, report, |_k: &<L::Token as Token>::Kind| Balance::<()>::Neutral);
        proof {
            if count < n0 && !(end is Refused) {
                assert(count < old(self).inp().spec_cache().len());
            }
        }
        match end {
            SyncEnd::Matched(t) => Ok(Some(t)),
            SyncEnd::Failed | SyncEnd::Stopped => Ok(None),
            SyncEnd::Refused(e) => Err(e),
        }
    }

    /// [`sync_through`](InputRef::sync_through), then, when it consumed a match, a
    /// [`peek`](InputRef::peek) of `n` tokens past it. A declined or refused synchronization
    /// peeks nothing.
    pub fn sync_through_then_peek<F, X>(&mut self, pred: F, expected: X, n: usize) -> (r: Result<
        (Option<Spanned<L::Token>>, Vec<Spanned<L::Token>>),
        ErrorOf<L>,
    >)
        where
            F: FnMut(&Spanned<L::Token>) -> bool,
            X: Fn() -> Option<<L::Token as Token>::Kind>,
            ErrorOf<L>: From<UnexpectedToken<L::Token, <L::Token as Token>::Kind>>,
        requires
            forall|u: &Spanned<L::Token>| call_requires(pred, (u,)),
            call_requires(expected, ()),
        ensures
            final(self).inp().same_frame(&old(self).inp()),
            final(self).inp().same_lineage(&old(self).inp()),
            extends(old(self).inp().spec_log(), final(self).inp().spec_log()),
            old(self).inp().wf() ==> final(self).inp().wf() && old(self).inp().spec_cursor()
                <= final(self).inp().spec_cursor(),
            r matches Ok((None, w)) ==> w.len() == 0 && (final(self).inp().same_stream(&old(self).inp())
                || final(self).inp().spec_boundary() is Some),
            r matches Ok((Some(t), w)) ==> call_ensures(pred, (&t,), true) && final(self).inp().spec_span()
                == t.span && w.len() <= n && window(n, final(self).inp().spec_cache().len()) <= w.len()
                && forall|i: int|
                0 <= i < window(n, final(self).inp().spec_cache().len()) ==> cloned(
                    final(self).inp().spec_cache()[i].token,
                    #[trigger] w[i],
                ),
            r matches Ok((Some(t), w)) ==> exists|mid: Input<L>|
                mid.spec_span() == t.span && mid.same_frame(&old(self).inp()) && (old(self).inp().wf() ==> mid.wf())
                    && #[trigger] peeked(mid, final(self).inp(), n, Ok::<Vec<Spanned<L::Token>>, ErrorOf<L>>(w)),
            r is Err ==> old(self).inp().spec_policy() == Policy::Fatal,
            old(self).inp().spec_cache().len() == 0 && old(self).inp().spec_reached(
                old(self).inp().spec_cursor(),
            ) ==> (r matches Ok((None, _)) && final(self).inp().same_stream(&old(self).inp())),
    {
        let ghost entry = self.inp();
        match self.sync_through(pred, expected) {
            Ok(Some(t)) => {
                let ghost mid = self.inp();
                let w = self.peek(n);
                proof {
                    lemma_extends_trans(entry.spec_log(), mid.spec_log(), self.inp().spec_log());
                    assert(peeked(mid, self.inp(), n, w));
                    assert(mid.spec_span() == t.span && mid.same_frame(&entry) && (entry.wf() ==> mid.wf()));
                }
                match w {
                    Ok(wv) => {
                        let res: Result<(Option<Spanned<L::Token>>, Vec<Spanned<L::Token>>), ErrorOf<L>> = Ok((Some(t), wv));
                        assert(peeked(mid, self.inp(), n, Ok::<Vec<Spanned<L::Token>>, ErrorOf<L>>(res->Ok_0.1)));
                        res
                    },
                    Err(e) => Err(e),
                }
            },
            Ok(None) => Ok((None, Vec::new())),
            Err(e) => Err(e),
        }
    }

    /// Skips ahead, balancing delimiters, to the next token at nesting depth zero that
    /// satisfies `pred`, leaving it in place (staged in the cache when it had to be lexed),
    /// and returns the hole: the skipped region and how many tokens it held.
    ///
    /// At depth zero `pred` is consulted first; a token it refuses is classified by its kind
    /// with `classify`: an opener deepens the nesting, a closer shallows it (saturating at
    /// zero, so a stray closer is skipped as garbage). Deeper tokens are skipped without
    /// consulting `pred`. The skipped tokens are not reported one by one: a nonempty hole is
    /// reported once, as a skipped region.
    ///
    /// `None` when no such token comes: at the end of the input the call leaves no trace; at
    /// a resource-limit trip or the poison boundary the skipped prefix is committed, the
    /// input is poisoned, and no hole is reported. A refused lexer diagnostic is returned
    /// after committing through the offending item.
    pub fn sync_balanced<C, D, F>(&mut self, classify: C, pred: F) -> (r: Result<Option<Hole>, ErrorOf<L>>)
        where
            C: FnMut(&<L::Token as Token>::Kind) -> Balance<D>,
            F: FnMut(&Spanned<L::Token>) -> bool,
        requires
            forall|k: &<L::Token as Token>::Kind| call_requires(classify, (k,)),
            forall|u: &Spanned<L::Token>| call_requires(pred, (u,)),
        ensures
            final(self).inp().grew_only(&old(self).inp()),
            final(self).inp().latch_ok(&old(self).inp()),
            old(self).inp().wf() ==> old(self).inp().spec_cursor() <= final(self).inp().spec_cursor(),
            r matches Ok(Some(h)) ==> final(self).inp().spec_boundary() == old(self).inp().spec_boundary()
                && (final(self).inp().spec_capacity() > 0 ==> final(self).inp().spec_cache().len() > 0
                && call_ensures(pred, (&final(self).inp().spec_cache()[0].token,), true)),
            r matches Ok(Some(h)) ==> (h.spec_skipped() == 0 ==> final(self).inp().kept_position(&old(self).inp())),
            r matches Ok(Some(h)) ==> (h.spec_skipped() == 0 && final(self).inp().spec_cache().len() > 0
                ==> h.spec_span().start == h.spec_span().end && h.spec_span().start
                == final(self).inp().spec_cache()[0].token.span.start),
            r matches Ok(Some(h)) ==> (h.spec_skipped() > 0 ==> h.spec_span().end
                == final(self).inp().spec_cursor() && (old(self).inp().wf() ==> old(self).inp().spec_cursor()
                <= h.spec_span().start <= h.spec_span().end)),
            r matches Ok(Some(h)) ==> (h.spec_skipped() > 0 && old(self).inp().spec_policy()
                == Policy::Verbose ==> final(self).inp().spec_log().len() > 0
                && final(self).inp().spec_log().last() == Emission::<ErrorOf<L>>::Skipped {
                span: h.spec_span(),
                count: h.spec_skipped(),
            }),
            declined(r) ==> final(self).inp().same_stream(&old(self).inp())
                || final(self).inp().spec_boundary() is Some,
            r is Err ==> old(self).inp().spec_policy() == Policy::Fatal,
            old(self).inp().spec_cache().len() == 0 && old(self).inp().spec_reached(
                old(self).inp().spec_cursor(),
            ) ==> (r matches Ok(None) && final(self).inp().same_stream(&old(self).inp())),
            old(self).inp().wf() && old(self).inp().spec_cache().len() == 0 && !old(self).inp().spec_reached(
                old(self).inp().spec_cursor(),
            ) ==> exists|
                c: L::State,
                toks: Seq<(Spanned<L::Token>, L::State)>,
                st_end: L::State,
                at_end: usize,
                wm_end: usize,
                ds: Seq<usize>,
                bs: Seq<Balance<D>>,
            |
                cloned(old(self).inp().spec_state(), c) && #[trigger] scan_chain::<L>(
                    old(self).inp().spec_src(),
                    c,
                    old(self).inp().spec_cursor(),
                    old(self).inp().spec_boundary(),
                    old(self).inp().spec_watermark(),
                    old(self).inp().spec_fatal(),
                    toks,
                    st_end,
                    at_end,
                    wm_end,
                ) && #[trigger] balanced_skips(toks, pred, classify, ds, bs) && match r {
                    Ok(Some(h)) => scan_end::<L>(
                        old(self).inp().spec_src(),
                        st_end,
                        at_end,
                        old(self).inp().spec_boundary(),
                        wm_end,
                        old(self).inp().spec_fatal(),
                    ) matches ScanEnd::Token(u, st) && call_ensures(pred, (&u,), true)
                        && ds.last() == 0 && counts(h.spec_skipped(), toks.len()) && (0
                        < final(self).inp().spec_capacity() ==> final(self).inp().spec_cache() == seq![
                        CachedToken { token: u, state: st },
                    ]) && final(self).inp().committed_through::<L::State>(&old(self).inp(), toks) && (old(self).inp().spec_policy() == Policy::Verbose ==> exists|errs: Seq<ErrorOf<L>>|
                        final(self).inp().spec_log() == old(self).inp().spec_log() + #[trigger] sync_log::<L>(
                            old(self).inp().spec_src(),
                            c,
                            old(self).inp().spec_cursor(),
                            old(self).inp().spec_boundary(),
                            old(self).inp().spec_watermark(),
                            toks,
                            errs,
                            false,
                        ) + scan_log::<L>(old(self).inp().spec_src(), st_end, at_end, old(self).inp().spec_boundary(), wm_end) + (if h.spec_skipped() > 0 {
                            seq![Emission::Skipped { span: h.spec_span(), count: h.spec_skipped() }]
                        } else {
                            Seq::empty()
                        })),
                    Ok(None) => match scan_end::<L>(
                        old(self).inp().spec_src(),
                        st_end,
                        at_end,
                        old(self).inp().spec_boundary(),
                        wm_end,
                        old(self).inp().spec_fatal(),
                    ) {
                        ScanEnd::End(_) => final(self).inp().same_stream(&old(self).inp()),
                        ScanEnd::Stop(_) | ScanEnd::Trip(_, false) => final(self).inp().committed_through::<
                            L::State,
                        >(&old(self).inp(), toks) && (old(self).inp().spec_policy() == Policy::Verbose ==> exists|errs: Seq<ErrorOf<L>>|
                        final(self).inp().spec_log() == old(self).inp().spec_log() + #[trigger] sync_log::<L>(
                            old(self).inp().spec_src(),
                            c,
                            old(self).inp().spec_cursor(),
                            old(self).inp().spec_boundary(),
                            old(self).inp().spec_watermark(),
                            toks,
                            errs,
                            false,
                        ) + scan_log::<L>(old(self).inp().spec_src(), st_end, at_end, old(self).inp().spec_boundary(), wm_end)),
                        _ => false,
                    },
                    Err(_) => scan_end::<L>(
                        old(self).inp().spec_src(),
                        st_end,
                        at_end,
                        old(self).inp().spec_boundary(),
                        wm_end,
                        old(self).inp().spec_fatal(),
                    ) is Refused || scan_end::<L>(
                        old(self).inp().spec_src(),
                        st_end,
                        at_end,
                        old(self).inp().spec_boundary(),
                        wm_end,
                        old(self).inp().spec_fatal(),
                    ) matches ScanEnd::Trip(_, true),
                },
            old(self).inp().spec_cache().len() > 0 ==> exists|k: int, ds: Seq<usize>, bs: Seq<Balance<D>>|
                0 <= k <= old(self).inp().spec_cache().len() && #[trigger] balanced_skips(
                    cache_toks(old(self).inp().spec_cache(), k),
                    pred,
                    classify,
                    ds,
                    bs,
                ) && (k < old(self).inp().spec_cache().len() ==> (r matches Ok(Some(h)) && call_ensures(
                    pred,
                    (&old(self).inp().spec_cache()[k].token,),
                    true,
                ) && ds.last() == 0 && h.spec_skipped() == k && final(self).inp().spec_cache() == old(self).inp().spec_cache().subrange(
                    k,
                    old(self).inp().spec_cache().len() as int,
                ) && (k > 0 ==> final(self).inp().spec_span() == old(self).inp().spec_cache()[k - 1].token.span
                    && final(self).inp().spec_state() == old(self).inp().spec_cache()[k - 1].state) && (k == 0 ==> final(self).inp().kept_position(
                    &old(self).inp(),
                )) && (old(self).inp().spec_policy() == Policy::Verbose ==> final(self).inp().spec_log() == old(self).inp().spec_log() + (if k > 0 {
                    seq![Emission::Skipped { span: h.spec_span(), count: h.spec_skipped() }]
                } else {
                    Seq::empty()
                })))),
            old(self).inp().wf() && old(self).inp().spec_cache().len() > 0 && !old(self).inp().spec_reached(old(self).inp().spec_frontier()) && !(r is Err) ==> (exists|k: int, ds: Seq<usize>, bs: Seq<Balance<D>>|
                0 <= k < old(self).inp().spec_cache().len() && #[trigger] balanced_skips(cache_toks(old(self).inp().spec_cache(), k), pred, classify, ds, bs) && ds.last() == 0 && (r matches Ok(Some(h)) && call_ensures(pred, (&old(self).inp().spec_cache()[k].token,), true) && h.spec_skipped() == k
                    && final(self).inp().spec_cache() == old(self).inp().spec_cache().subrange(k, old(self).inp().spec_cache().len() as int))) || (exists|
                c: L::State,
                toks: Seq<(Spanned<L::Token>, L::State)>,
                st_end: L::State,
                at_end: usize,
                wm_end: usize,
                ds: Seq<usize>,
                bs: Seq<Balance<D>>,
            |
                cloned(old(self).inp().spec_frontier_state(), c) && #[trigger] scan_chain::<L>(
                    old(self).inp().spec_src(),
                    c,
                    old(self).inp().spec_frontier(),
                    old(self).inp().spec_boundary(),
                    old(self).inp().spec_watermark(),
                    old(self).inp().spec_fatal(),
                    toks,
                    st_end,
                    at_end,
                    wm_end,
                ) && #[trigger] balanced_skips(cache_toks(old(self).inp().spec_cache(), old(self).inp().spec_cache().len() as int) + toks, pred, classify, ds, bs) && match r {
                    Ok(Some(h)) => scan_end::<L>(
                        old(self).inp().spec_src(),
                        st_end,
                        at_end,
                        old(self).inp().spec_boundary(),
                        wm_end,
                        old(self).inp().spec_fatal(),
                    ) matches ScanEnd::Token(u, st) && call_ensures(pred, (&u,), true) && ds.last() == 0
                        && counts(h.spec_skipped(), (old(self).inp().spec_cache().len() + toks.len()) as nat) && (0 < final(self).inp().spec_capacity()
                        ==> final(self).inp().spec_cache() == seq![CachedToken { token: u, state: st }]) && final(self).inp().committed_through::<
                        L::State,
                    >(&old(self).inp(), cache_toks(old(self).inp().spec_cache(), old(self).inp().spec_cache().len() as int) + toks) && (old(self).inp().spec_policy() == Policy::Verbose ==> exists|errs: Seq<ErrorOf<L>>|
                            final(self).inp().spec_log() == old(self).inp().spec_log() + #[trigger] sync_log::<L>(
                                old(self).inp().spec_src(),
                                c,
                                old(self).inp().spec_frontier(),
                                old(self).inp().spec_boundary(),
                                old(self).inp().spec_watermark(),
                                toks,
                                errs,
                                false,
                            ) + scan_log::<L>(old(self).inp().spec_src(), st_end, at_end, old(self).inp().spec_boundary(), wm_end) + (if h.spec_skipped() > 0 {
                            seq![Emission::Skipped { span: h.spec_span(), count: h.spec_skipped() }]
                        } else {
                            Seq::empty()
                        })),
                    Ok(None) => match scan_end::<L>(
                        old(self).inp().spec_src(),
                        st_end,
                        at_end,
                        old(self).inp().spec_boundary(),
                        wm_end,
                        old(self).inp().spec_fatal(),
                    ) {
                        ScanEnd::End(_) => final(self).inp().same_stream(&old(self).inp()),
                        ScanEnd::Stop(_) | ScanEnd::Trip(_, false) => final(self).inp().committed_through::<L::State>(
                            &old(self).inp(),
                            cache_toks(old(self).inp().spec_cache(), old(self).inp().spec_cache().len() as int) + toks,
                        ) && (old(self).inp().spec_policy() == Policy::Verbose ==> exists|errs: Seq<ErrorOf<L>>|
                            final(self).inp().spec_log() == old(self).inp().spec_log() + #[trigger] sync_log::<L>(
                                old(self).inp().spec_src(),
                                c,
                                old(self).inp().spec_frontier(),
                                old(self).inp().spec_boundary(),
                                old(self).inp().spec_watermark(),
                                toks,
                                errs,
                                false,
                            ) + scan_log::<L>(old(self).inp().spec_src(), st_end, at_end, old(self).inp().spec_boundary(), wm_end)),
                        _ => false,
                    },
                    Err(_) => false,
                }),
    {
        let report = |_t: &Spanned<L::Token>| -> (e: Option<ErrorOf<L>>)
            ensures
                e is None,
        { None };
        let ghost entry_log = self.inp().spec_log();
        let (end, count, hole) = self.sync_engine(SyncMode::Balanced, pred, report, classify);
        match end {
            SyncEnd::Matched(_) => {
                if count > 0 {
                    let ghost before = self.inp().spec_log();
                    self.input.emitter.emit_skipped_region(hole, count);
                    proof {
                        lemma_extends_push(before, Emission::Skipped { span: hole, count });
                        lemma_extends_trans(entry_log, before, self.inp().spec_log());
                    }
                }
                Ok(Some(Hole::new(hole, count)))
            },
            SyncEnd::Failed | SyncEnd::Stopped => Ok(None),
            SyncEnd::Refused(e) => Err(e),
        }
    }

    /// Commits every cached token at once and returns the last of them; `None`, with
    /// nothing changed, when nothing is cached.
    pub fn consume_all_cached(&mut self) -> (r: Option<Spanned<L::Token>>)
        ensures
            final(self).inp().same_frame(&old(self).inp()),
            final(self).inp().same_lineage(&old(self).inp()),
            final(self).inp().spec_boundary() == old(self).inp().spec_boundary(),
            final(self).inp().spec_watermark() == old(self).inp().spec_watermark(),
            final(self).inp().spec_log() == old(self).inp().spec_log(),
            old(self).inp().spec_cache().len() == 0 ==> r is None && final(self).inp().same_stream(&old(self).inp()),
            old(self).inp().spec_cache().len() > 0 ==> r == Some(old(self).inp().spec_cache().last().token)
                && final(self).inp().spec_span() == old(self).inp().spec_cache().last().token.span
                && final(self).inp().spec_state() == old(self).inp().spec_cache().last().state
                && final(self).inp().spec_cache().len() == 0,
            old(self).inp().wf() ==> final(self).inp().wf(),
    {
        let n = self.input.cache.len();
        if n == 0 {
            return None;
        }
        self.commit_cached(n - 1);
        let t = self.take_front();
        proof {
            assert(old(self).inp().spec_cache().subrange((n - 1) as int, n as int)[0] == old(self).inp().spec_cache().last());
        }
        Some(t)
    }

    /// Takes a checkpoint: a snapshot of the committed position, lexer state, poison
    /// boundary, dedup watermark and diagnostics, registered as the newest live checkpoint.
    /// Hand it back to [`restore`](InputRef::restore) to return here, or to
    /// [`commit`](InputRef::commit) to keep the progress made since.
    pub fn save(&mut self) -> (r: Checkpoint<L::State>)
        requires
            old(self).inp().spec_next_id() < u64::MAX,
        ensures
            saved_from(r, old(self).inp()),
            final(self).inp().same_stream(&old(self).inp()),
            final(self).inp().same_frame(&old(self).inp()),
            final(self).inp().spec_live() == old(self).inp().spec_live().push(old(self).inp().spec_next_id()),
            final(self).inp().spec_pinned() == old(self).inp().spec_pinned(),
            final(self).inp().spec_next_id() == old(self).inp().spec_next_id() + 1,
            old(self).inp().wf() ==> final(self).inp().wf(),
    {
        let id = self.input.next_id;
        self.input.live.push(id);
        self.input.next_id = id + 1;
        Checkpoint {
            id,
            span: self.input.span,
            state: self.input.state.clone(),
            boundary: self.input.boundary,
            watermark: self.input.watermark,
            mark: self.input.emitter.checkpoint(),
            pushes: self.input.pushes,
            pops: self.input.pops,
        }
    }

    /// The position of the first occurrence of `id` in the live lineage.
    fn live_position(&self, id: u64) -> (r: Option<usize>)
        ensures
            r matches Some(p) ==> p < self.inp().spec_live().len() && self.inp().spec_live()[p as int]
                == id && forall|j: int| 0 <= j < p ==> self.inp().spec_live()[j] != id,
            r is None ==> !self.inp().spec_live().contains(id),
    {
        let mut p: usize = 0;
        while p < self.input.live.len()
            invariant
                p <= self.inp().spec_live().len(),
                forall|j: int| 0 <= j < p ==> self.inp().spec_live()[j] != id,
            decreases self.inp().spec_live().len() - p,
        {
            if self.input.live[p] == id {
                return Some(p);
            }
            p = p + 1;
        }
        None
    }

    /// Whether `id` is held by a running attempt or transaction.
    fn is_pinned(&self, id: u64) -> (r: bool)
        ensures
            r == self.inp().spec_pinned().contains(id),
    {
        let mut k: usize = 0;
        while k < self.input.pinned.len()
            invariant
                k <= self.inp().spec_pinned().len(),
                forall|j: int| 0 <= j < k ==> self.inp().spec_pinned()[j] != id,
            decreases self.inp().spec_pinned().len() - k,
        {
            if self.input.pinned[k] == id {
                return true;
            }
            k = k + 1;
        }
        false
    }

    /// Whether `ckp` can be restored: it is live, and no checkpoint held by a running attempt
    /// or transaction was taken at or after it.
    pub fn can_restore(&self, ckp: &Checkpoint<L::State>) -> (r: bool)
        ensures
            r == restorable(self.inp().spec_live(), self.inp().spec_pinned(), ckp.spec_id()),
    {
        match self.live_position(ckp.id) {
            None => false,
            Some(p) => {
                let mut j: usize = p;
                while j < self.input.live.len()
                    invariant
                        p <= j <= self.inp().spec_live().len(),
                        self.inp().spec_live()[p as int] == ckp.spec_id(),
                        forall|k: int| 0 <= k < p ==> self.inp().spec_live()[k] != ckp.spec_id(),
                        forall|k: int|
                            p <= k < j ==> !self.inp().spec_pinned().contains(#[trigger] self.inp().spec_live()[k]),
                    decreases self.inp().spec_live().len() - j,
                {
                    if self.is_pinned(self.input.live[j]) {
                        return false;
                    }
                    j = j + 1;
                }
                true
            },
        }
    }

    /// Keeps the progress made since `ckp` was taken and releases it from the lineage. A
    /// checkpoint that is no longer live (a restore below it invalidated it) is ignored.
    pub fn commit(&mut self, ckp: Checkpoint<L::State>)
        ensures
            final(self).inp().same_stream(&old(self).inp()),
            final(self).inp().same_frame(&old(self).inp()),
            final(self).inp().spec_pinned() == old(self).inp().spec_pinned(),
            final(self).inp().spec_next_id() == old(self).inp().spec_next_id(),
            !old(self).inp().spec_live().contains(ckp.spec_id()) ==> final(self).inp().spec_live()
                == old(self).inp().spec_live(),
            old(self).inp().spec_live().contains(ckp.spec_id()) ==> exists|i: int|
                0 <= i < old(self).inp().spec_live().len() && old(self).inp().spec_live()[i] == ckp.spec_id()
                && final(self).inp().spec_live() == #[trigger] old(self).inp().spec_live().remove(i),
            old(self).inp().wf() ==> final(self).inp().wf() && !final(self).inp().spec_live().contains(ckp.spec_id()),
    {
        match self.live_position(ckp.id) {
            Some(p) => {
                self.input.live.remove(p);
                proof {
                    let o = old(self).inp().spec_live();
                    let n = self.inp().spec_live();
                    assert(n == o.remove(p as int));
                    if old(self).inp().wf() {
                        assert forall|i: int, j: int| 0 <= i < j < n.len() implies n[i] < n[j] by {
                            if j < p {
                            } else if i < p {
                                assert(n[j] == o[j + 1]);
                            } else {
                                assert(n[i] == o[i + 1] && n[j] == o[j + 1]);
                            }
                        }
                        assert forall|i: int| 0 <= i < n.len() implies n[i] != ckp.spec_id() by {
                            if i < p {
                                assert(o[i] < o[p as int]);
                            } else {
                                assert(n[i] == o[i + 1]);
                                assert(o[p as int] < o[i + 1]);
                            }
                        }
                    }
                }
            },
            None => {},
        }
    }

    /// Returns to `ckp`: the committed position, lexer state, dedup watermark and diagnostics
    /// are those of the snapshot, and so is the poison boundary; cached tokens lexed after
    /// the snapshot are dropped (all of them when a token was consumed since); the lineage is
    /// cut back to before `ckp`.
    pub fn restore(&mut self, ckp: Checkpoint<L::State>)
        requires
            restorable(old(self).inp().spec_live(), old(self).inp().spec_pinned(), ckp.spec_id()),
        ensures
            restored_to(final(self).inp(), old(self).inp(), ckp),
            old(self).inp().wf() && ckp.spec_span().start <= ckp.spec_span().end <= old(self).inp().spec_len()
                ==> final(self).inp().wf(),
    {
        let p = match self.live_position(ckp.id) {
            Some(p) => p,
            None => vstd::pervasive::unreached(),
        };
        let ghost o = self.inp();
        self.input.live.truncate(p);
        proof {
            assert(self.inp().spec_live() =~= o.spec_live().subrange(0, p as int));
            if self.inp().spec_live().contains(ckp.spec_id()) {
                let k = choose|k: int| 0 <= k < self.inp().spec_live().len() && self.inp().spec_live()[k] == ckp.spec_id();
                assert(o.spec_live()[k] == ckp.spec_id());
            }
        }
        self.rewind_to(ckp);
    }

    /// Puts back everything `ckp` snapshotted, leaving the lineage alone.
    fn rewind_to(&mut self, ckp: Checkpoint<L::State>)
        ensures
            final(self).inp().same_frame(&old(self).inp()),
            final(self).inp().same_lineage(&old(self).inp()),
            final(self).inp().spec_span() == ckp.spec_span(),
            final(self).inp().spec_state() == ckp.spec_state(),
            final(self).inp().spec_boundary() == ckp.spec_boundary(),
            final(self).inp().spec_watermark() == ckp.spec_watermark(),
            ckp.spec_mark() < old(self).inp().spec_log().len() ==> final(self).inp().spec_log()
                == old(self).inp().spec_log().subrange(0, ckp.spec_mark() as int),
            ckp.spec_mark() >= old(self).inp().spec_log().len() ==> final(self).inp().spec_log()
                == old(self).inp().spec_log(),
            final(self).inp().spec_pushes() == ckp.spec_pushes(),
            final(self).inp().spec_pops() == ckp.spec_pops(),
            final(self).inp().spec_cache() == old(self).inp().spec_cache().subrange(
                0,
                final(self).inp().spec_cache().len() as int,
            ),
            old(self).inp().spec_pops() != ckp.spec_pops() ==> final(self).inp().spec_cache().len() == 0,
            cache_kept(old(self).inp(), ckp) ==> final(self).inp().spec_cache() == old(self).inp().spec_cache().subrange(
                0,
                old(self).inp().spec_cache().len() - (old(self).inp().spec_pushes() - ckp.spec_pushes()),
            ),
            old(self).inp().wf() && ckp.spec_span().start <= ckp.spec_span().end <= old(self).inp().spec_len()
                ==> final(self).inp().wf(),
    {
        let ghost o = self.inp();
        let Checkpoint { id: _, span, state, boundary, watermark, mark, pushes, pops } = ckp;
        if self.input.pops != pops || self.input.pushes < pushes {
            self.input.cache.clear();
        } else {
            let n = self.input.pushes - pushes;
            let cl = self.input.cache.len();
            proof {
                if cache_kept(o, ckp) {
                    assert(n <= cl);
                    assert(n as usize == n);
                }
            }
            self.input.cache.drop_back(n as usize);
        }
        let stale = match self.input.cache.front() {
            Some(f) => f.token.span.start < span.end,
            None => false,
        };
        proof {
            if cache_kept(o, ckp) {
                let n = self.inp().spec_cache();
                assert(n.len() > 0 ==> n[0] == o.spec_cache()[0]);
            }
        }
        if stale {
            self.input.cache.clear();
        }
        self.input.span = span;
        self.input.state = state;
        self.input.boundary = boundary;
        self.input.watermark = watermark;
        self.input.emitter.rewind(mark);
        self.input.pushes = pushes;
        self.input.pops = pops;
        proof {
            let n = self.inp();
            assert(n.spec_cache() =~= o.spec_cache().subrange(0, n.spec_cache().len() as int));
        }
    }

    /// Marks `id` as held by a running attempt or transaction.
    pub(crate) fn pin(&mut self, id: u64)
        ensures
            final(self).inp().same_stream(&old(self).inp()),
            final(self).inp().same_frame(&old(self).inp()),
            final(self).inp().spec_live() == old(self).inp().spec_live(),
            final(self).inp().spec_next_id() == old(self).inp().spec_next_id(),
            final(self).inp().spec_pinned() == old(self).inp().spec_pinned().push(id),
            old(self).inp().wf() ==> final(self).inp().wf(),
    {
        self.input.pinned.push(id);
    }

    /// Releases one hold on `id`.
    pub(crate) fn unpin(&mut self, id: u64)
        ensures
            final(self).inp().same_stream(&old(self).inp()),
            final(self).inp().same_frame(&old(self).inp()),
            final(self).inp().spec_live() == old(self).inp().spec_live(),
            final(self).inp().spec_next_id() == old(self).inp().spec_next_id(),
            old(self).inp().wf() ==> final(self).inp().wf(),
            released_hold(final(self).inp().spec_pinned(), old(self).inp().spec_pinned(), id),
    {
        let mut k: usize = 0;
        while k < self.input.pinned.len()
            invariant
                k <= self.inp().spec_pinned().len(),
                self.inp() == old(self).inp(),
                forall|j: int| 0 <= j < k ==> old(self).inp().spec_pinned()[j] != id,
            decreases self.inp().spec_pinned().len() - k,
        {
            if self.input.pinned[k] == id {
                self.input.pinned.remove(k);
                return;
            }
            k = k + 1;
        }
    }

    /// Settles a declined speculation on `ckp`: restores it when that is allowed, and
    /// otherwise (the lineage was disturbed under it) puts the snapshot back without touching
    /// the lineage.
    pub(crate) fn settle_declined(&mut self, ckp: Checkpoint<L::State>)
        ensures
            final(self).inp().same_frame(&old(self).inp()),
            final(self).inp().spec_span() == ckp.spec_span(),
            final(self).inp().spec_state() == ckp.spec_state(),
            final(self).inp().spec_boundary() == ckp.spec_boundary(),
            final(self).inp().spec_watermark() == ckp.spec_watermark(),
            ckp.spec_mark() < old(self).inp().spec_log().len() ==> final(self).inp().spec_log()
                == old(self).inp().spec_log().subrange(0, ckp.spec_mark() as int),
            ckp.spec_mark() >= old(self).inp().spec_log().len() ==> final(self).inp().spec_log()
                == old(self).inp().spec_log(),
            final(self).inp().spec_pushes() == ckp.spec_pushes(),
            final(self).inp().spec_pops() == ckp.spec_pops(),
            old(self).inp().wf() && ckp.spec_span().start <= ckp.spec_span().end <= old(self).inp().spec_len()
                ==> final(self).inp().wf(),
            restored_to(final(self).inp(), old(self).inp(), ckp) || (!restorable(
                old(self).inp().spec_live(),
                old(self).inp().spec_pinned(),
                ckp.spec_id(),
            ) && rewound_to(final(self).inp(), old(self).inp(), ckp)),
    {
        if self.can_restore(&ckp) {
            self.restore(ckp);
        } else {
            self.rewind_to(ckp);
        }
    }

    /// Runs `f` speculatively and returns what it returned. A checkpoint is taken and held
    /// for the duration, so `f` cannot restore below it. When `f` returns `Some`, its progress
    /// is kept and the checkpoint is released and forgotten. When `f` returns `None`, the
    /// checkpoint is released and restored from what `f` left: the committed position, the
    /// lexer state (a clone of the one at entry), the poison boundary, the dedup watermark and
    /// the cache counters are the entry ones, the diagnostics are cut back to the entry length,
    /// the cache is cut back to a prefix of what `f` left (empty when `f` took a token off it,
    /// and without the tokens `f` looked ahead at), and the lineage is cut back to before the
    /// checkpoint. When `f` left the input's frame and lineage as it found them, this
    /// is the input at entry ([`lemma_declined_attempt_returns_to_entry`]).
    pub fn attempt<O, F: FnOnce(&mut InputRef<'r, L>) -> Option<O>>(&mut self, f: F) -> (r: Option<O>)
        requires
            old(self).inp().spec_next_id() < u64::MAX,
            forall|x: &mut InputRef<'r, L>| call_requires(f, (x,)),
        ensures
            r is None ==> final(self).inp().spec_span() == old(self).inp().spec_span()
                && cloned(old(self).inp().spec_state(), final(self).inp().spec_state())
                && final(self).inp().spec_watermark() == old(self).inp().spec_watermark()
                && final(self).inp().spec_pushes() == old(self).inp().spec_pushes()
                && final(self).inp().spec_pops() == old(self).inp().spec_pops()
                && final(self).inp().spec_log().len() <= old(self).inp().spec_log().len()
                && final(self).inp().spec_boundary() == old(self).inp().spec_boundary(),
            exists|x: &mut InputRef<'r, L>, c: Checkpoint<L::State>|
                #[trigger] call_ensures(f, (x,), r) && #[trigger] saved_from(c, old(self).inp()) && (*x).inp().same_stream(
                    &old(self).inp(),
                ) && (*x).inp().same_frame(&old(self).inp()) && (*x).inp().spec_live() == old(
                    self,
                ).inp().spec_live().push(c.spec_id()) && (*x).inp().spec_pinned() == old(self).inp().spec_pinned().push(
                    c.spec_id(),
                ) && (*x).inp().spec_next_id() == old(self).inp().spec_next_id() + 1 && (old(self).inp().wf()
                    ==> (*x).inp().wf()) && (r is Some ==> kept_from(final(self).inp(), (*final(x)).inp(), c))
                    && (r is None ==> declined_to(final(self).inp(), (*final(x)).inp(), c) && (old(self).inp().wf()
                    && (*final(x)).inp().wf() && (*final(x)).inp().same_frame(&old(self).inp())
                    ==> final(self).inp().wf())),
    {
        let ckp = self.save();
        let id = ckp.id;
        self.pin(id);
        let r = f(self);
        self.unpin(id);
        match r {
            Some(o) => {
                self.commit(ckp);
                Some(o)
            },
            None => {
                self.settle_declined(ckp);
                None
            },
        }
    }

    /// Runs `f` speculatively and returns what it returned: its progress is kept when it
    /// returns `Ok`, and the input goes back to where it was, as [`attempt`](InputRef::attempt) describes, when it returns
    /// `Err`, which is handed on.
    pub fn try_attempt<O, E, F: FnOnce(&mut InputRef<'r, L>) -> Result<O, E>>(&mut self, f: F) -> (r: Result<O, E>)
        requires
            old(self).inp().spec_next_id() < u64::MAX,
            forall|x: &mut InputRef<'r, L>| call_requires(f, (x,)),
        ensures
            r is Err ==> final(self).inp().spec_span() == old(self).inp().spec_span()
                && cloned(old(self).inp().spec_state(), final(self).inp().spec_state())
                && final(self).inp().spec_watermark() == old(self).inp().spec_watermark()
                && final(self).inp().spec_pushes() == old(self).inp().spec_pushes()
                && final(self).inp().spec_pops() == old(self).inp().spec_pops()
                && final(self).inp().spec_log().len() <= old(self).inp().spec_log().len()
                && final(self).inp().spec_boundary() == old(self).inp().spec_boundary(),
            exists|x: &mut InputRef<'r, L>, c: Checkpoint<L::State>|
                #[trigger] call_ensures(f, (x,), r) && #[trigger] saved_from(c, old(self).inp()) && (*x).inp().same_stream(
                    &old(self).inp(),
                ) && (*x).inp().same_frame(&old(self).inp()) && (*x).inp().spec_live() == old(
                    self,
                ).inp().spec_live().push(c.spec_id()) && (*x).inp().spec_pinned() == old(self).inp().spec_pinned().push(
                    c.spec_id(),
                ) && (*x).inp().spec_next_id() == old(self).inp().spec_next_id() + 1 && (old(self).inp().wf()
                    ==> (*x).inp().wf()) && (r is Ok ==> kept_from(final(self).inp(), (*final(x)).inp(), c))
                    && (r is Err ==> declined_to(final(self).inp(), (*final(x)).inp(), c) && (old(self).inp().wf()
                    && (*final(x)).inp().wf() && (*final(x)).inp().same_frame(&old(self).inp())
                    ==> final(self).inp().wf())),
    {
        let ckp = self.save();
        let id = ckp.id;
        self.pin(id);
        let r = f(self);
        self.unpin(id);
        match r {
            Ok(o) => {
                self.commit(ckp);
                Ok(o)
            },
            Err(e) => {
                self.settle_declined(ckp);
                Err(e)
            },
        }
    }

    /// Replaces the lexer state. Replacing it re-keys every forward-scanning fact: the cache
    /// is emptied, the dedup watermark moves to the committed position and the poison
    /// boundary is dropped, so scanning resumes under the new state. Diagnostics already
    /// recorded stay. A checkpoint taken before undoes it.
    pub fn set_state(&mut self, state: L::State)
        ensures
            final(self).inp().spec_state() == state,
            final(self).inp().spec_span() == old(self).inp().spec_span(),
            final(self).inp().spec_cache().len() == 0,
            final(self).inp().spec_boundary() is None,
            final(self).inp().spec_watermark() == old(self).inp().spec_cursor(),
            final(self).inp().spec_log() == old(self).inp().spec_log(),
            final(self).inp().spec_pushes() == old(self).inp().spec_pushes(),
            final(self).inp().spec_pops() == old(self).inp().spec_pops(),
            final(self).inp().same_frame(&old(self).inp()),
            final(self).inp().same_lineage(&old(self).inp()),
            old(self).inp().wf() ==> final(self).inp().wf(),
    {
        self.input.state = state;
        self.input.cache.clear();
        self.input.boundary = None;
        self.input.watermark = self.input.span.end;
    }

    /// The lexer state, mutably. Taking it re-keys at once, as [`set_state`](InputRef::set_state)
    /// does: the cache is emptied, the dedup watermark moves to the committed position and the
    /// poison boundary is dropped.
    pub fn state_mut(&mut self) -> (r: &mut L::State)
        ensures
            *r == old(self).inp().spec_state(),
            final(self).inp().spec_state() == *final(r),
            final(self).inp().spec_span() == old(self).inp().spec_span(),
            final(self).inp().spec_cache().len() == 0,
            final(self).inp().spec_boundary() is None,
            final(self).inp().spec_watermark() == old(self).inp().spec_cursor(),
            final(self).inp().spec_log() == old(self).inp().spec_log(),
            final(self).inp().same_frame(&old(self).inp()),
            final(self).inp().same_lineage(&old(self).inp()),
            old(self).inp().wf() ==> final(self).inp().wf(),
    {
        self.input.cache.clear();
        self.input.boundary = None;
        self.input.watermark = self.input.span.end;
        &mut self.input.state
    }

    /// Puts `t`, lexed from the lex frontier, with the state `s` after it, at the back of the
    /// cache if it has room.
    fn push_lexed(&mut self, t: Spanned<L::Token>, s: L::State)
        requires
            t.span.start < t.span.end,
            old(self).inp().wf() ==> old(self).inp().spec_frontier() <= t.span.start && t.span.end
                <= old(self).inp().spec_len(),
        ensures
            final(self).inp().same_frame(&old(self).inp()),
            final(self).inp().same_lineage(&old(self).inp()),
            final(self).inp().kept_position(&old(self).inp()),
            final(self).inp().spec_pops() == old(self).inp().spec_pops(),
            final(self).inp().spec_boundary() == old(self).inp().spec_boundary(),
            final(self).inp().spec_watermark() == old(self).inp().spec_watermark(),
            final(self).inp().spec_log() == old(self).inp().spec_log(),
            old(self).inp().spec_cache().len() < old(self).inp().spec_capacity() ==> final(self).inp().spec_cache()
                == old(self).inp().spec_cache().push(CachedToken { token: t, state: s }),
            old(self).inp().spec_cache().len() >= old(self).inp().spec_capacity() ==> final(self).inp().spec_cache()
                == old(self).inp().spec_cache(),
            old(self).inp().wf() ==> final(self).inp().wf(),
    {
        let ghost mid = self.inp();
        let pushed = self.input.cache.push_back(CachedToken::new(t, s));
        match pushed {
            Ok(()) => {
                self.input.pushes = bump_count(self.input.pushes);
            },
            Err(_) => {},
        }
        proof {
            let c = self.inp().spec_cache();
            if mid.wf() && mid.spec_cache().len() < mid.spec_capacity() {
                let k = c.len() - 1;
                assert(c[k].token == t);
                assert forall|i: int|
                    0 <= i < c.len() - 1 implies #[trigger] c[i].token.span.end
                        <= c[i + 1].token.span.start by {
                    if i < k - 1 {
                        assert(c[i] == mid.spec_cache()[i] && c[i + 1] == mid.spec_cache()[i + 1]);
                    } else {
                        assert(c[i] == mid.spec_cache()[i]);
                    }
                }
                assert forall|i: int| 0 <= i < c.len() implies ({
                    let s = #[trigger] c[i].token.span;
                    s.start < s.end <= self.inp().spec_len()
                }) by {
                    if i < k {
                        assert(c[i] == mid.spec_cache()[i]);
                    }
                }
            }
        }
    }

    /// Lexes ahead from the lex frontier into the cache until it holds `want` tokens (or is
    /// full), the input ends, a resource-limit trip or the poison boundary stops lexing, or
    /// the emitter refuses a diagnostic.
    #[verifier::rlimit(100)]
    #[verifier::spinoff_prover]
    fn fill(&mut self, want: usize) -> (r: Result<(), ErrorOf<L>>)
        ensures
            final(self).inp().grew_only(&old(self).inp()),
            final(self).inp().latch_ok(&old(self).inp()),
            final(self).inp().kept_position(&old(self).inp()),
            final(self).inp().spec_pops() == old(self).inp().spec_pops(),
            old(self).inp().spec_cache().len() <= final(self).inp().spec_cache().len(),
            final(self).inp().spec_cache().subrange(0, old(self).inp().spec_cache().len() as int)
                == old(self).inp().spec_cache(),
            old(self).inp().spec_reached(old(self).inp().spec_frontier()) ==> final(self).inp().same_stream(
                &old(self).inp(),
            ),
            old(self).inp().spec_cache().len() >= want ==> final(self).inp().same_stream(&old(self).inp()),
            final(self).inp().spec_cache().len() > old(self).inp().spec_cache().len() ==> final(self).inp().spec_cache().len()
                <= want,
            final(self).inp().spec_boundary() != old(self).inp().spec_boundary() ==> final(self).inp().spec_cache().len()
                < final(self).inp().spec_capacity(),
            r is Err ==> old(self).inp().spec_policy() == Policy::Fatal,
            old(self).inp().wf() && !old(self).inp().spec_reached(old(self).inp().spec_frontier())
                && old(self).inp().spec_cache().len() < want ==> exists|
                c: L::State,
                toks: Seq<(Spanned<L::Token>, L::State)>,
                st_end: L::State,
                at_end: usize,
                wm_end: usize,
            |
                cloned(old(self).inp().spec_frontier_state(), c) && #[trigger] scan_chain::<L>(
                    old(self).inp().spec_src(),
                    c,
                    old(self).inp().spec_frontier(),
                    old(self).inp().spec_boundary(),
                    old(self).inp().spec_watermark(),
                    old(self).inp().spec_fatal(),
                    toks,
                    st_end,
                    at_end,
                    wm_end,
                ) && cached_as(final(self).inp().spec_cache(), old(self).inp().spec_cache(), toks) && (
                final(self).inp().spec_cache().len() < want && final(self).inp().spec_cache().len()
                < final(self).inp().spec_capacity() ==> fill_stop_agrees(
                    scan_end::<L>(
                        old(self).inp().spec_src(),
                        st_end,
                        at_end,
                        old(self).inp().spec_boundary(),
                        wm_end,
                        old(self).inp().spec_fatal(),
                    ),
                    r is Err,
                )) && (old(self).inp().spec_policy() == Policy::Verbose ==> final(self).inp().spec_log()
                == old(self).inp().spec_log() + chain_log::<L>(
                    old(self).inp().spec_src(),
                    c,
                    old(self).inp().spec_frontier(),
                    old(self).inp().spec_boundary(),
                    old(self).inp().spec_watermark(),
                    toks,
                ) + (if final(self).inp().spec_cache().len() < want && final(self).inp().spec_cache().len()
                < final(self).inp().spec_capacity() {
                    scan_log::<L>(old(self).inp().spec_src(), st_end, at_end, old(self).inp().spec_boundary(), wm_end)
                } else {
                    Seq::empty()
                })) && (!(final(self).inp().spec_cache().len() < want && final(self).inp().spec_cache().len()
                < final(self).inp().spec_capacity()) ==> final(self).inp().spec_watermark() == wm_end),
    {
        proof {
            lemma_extends_refl(self.inp().spec_log());
        }
        if self.input.cache.len() >= want {
            return Ok(());
        }
        let frontier = match self.input.cache.back() {
            Some(b) => b.token.span.end,
            None => self.input.span.end,
        };
        if self.reached_boundary(frontier) {
            return Ok(());
        }
        let st0 = match self.input.cache.back() {
            Some(b) => b.state.clone(),
            None => self.input.state.clone(),
        };
        let ghost c = st0;
        let (mut lx, from) = self.lexer_at(frontier, st0);
        let mut at = from;
        let ghost n0 = self.inp().spec_cache().len();
        let ghost fatal = self.inp().spec_policy() == Policy::Fatal;
        let ghost mut toks: Seq<(Spanned<L::Token>, L::State)> = Seq::empty();
        proof {
            if old(self).inp().wf() {
                old(self).inp().lemma_cache_ordered();
                assert(self.inp().spec_cache().subrange(0, n0 as int) =~= old(self).inp().spec_cache());
            }
            assert(self.inp().spec_log() + Seq::<Emission<ErrorOf<L>>>::empty() =~= self.inp().spec_log());
        }
        loop
            invariant
                cloned(old(self).inp().spec_frontier_state(), c),
                fatal == (old(self).inp().spec_policy() == Policy::Fatal),
                old(self).inp().wf() ==> scan_chain::<L>(
                    old(self).inp().spec_src(),
                    c,
                    frontier,
                    old(self).inp().spec_boundary(),
                    old(self).inp().spec_watermark(),
                    fatal,
                    toks,
                    lx.spec_state(),
                    at,
                    self.inp().spec_watermark(),
                ),
                old(self).inp().wf() ==> cached_as(self.inp().spec_cache(), old(self).inp().spec_cache(), toks),
                old(self).inp().wf() && old(self).inp().spec_policy() == Policy::Verbose ==> self.inp().spec_log()
                    == old(self).inp().spec_log() + chain_log::<L>(
                    old(self).inp().spec_src(),
                    c,
                    frontier,
                    old(self).inp().spec_boundary(),
                    old(self).inp().spec_watermark(),
                    toks,
                ),
                self.inp().same_frame(&old(self).inp()),
                self.inp().same_lineage(&old(self).inp()),
                self.inp().kept_position(&old(self).inp()),
                self.inp().spec_pops() == old(self).inp().spec_pops(),
                self.inp().spec_boundary() == old(self).inp().spec_boundary(),
                old(self).inp().spec_watermark() <= self.inp().spec_watermark(),
                extends(old(self).inp().spec_log(), self.inp().spec_log()),
                old(self).inp().spec_policy() != Policy::Verbose ==> self.inp().spec_log()
                    == old(self).inp().spec_log(),
                n0 == old(self).inp().spec_cache().len(),
                n0 < want,
                n0 <= self.inp().spec_cache().len() <= want,
                self.inp().spec_cache().subrange(0, n0 as int) == old(self).inp().spec_cache(),
                old(self).inp().wf() ==> self.inp().wf(),
                !old(self).inp().spec_reached(frontier),
                frontier == old(self).inp().spec_frontier(),
                self.inp().spec_frontier() <= lx.spec_len() ==> self.inp().spec_frontier() <= at,
                old(self).inp().wf() ==> frontier <= self.inp().spec_frontier(),
                old(self).inp().wf() ==> old(self).inp().spec_cursor() <= frontier,
                lx.spec_offset() <= lx.spec_len(),
                lx.spec_len() == L::spec_source_len(self.inp().spec_src()),
                lx.spec_source() == self.inp().spec_src(),
                at == lx.spec_offset(),
            decreases lx.spec_len() - lx.spec_offset(),
        {
            if self.input.cache.len() >= want || self.input.cache.remaining() == 0 {
                proof {
                    if old(self).inp().wf() {
                        assert(scan_chain::<L>(
                            old(self).inp().spec_src(),
                            c,
                            old(self).inp().spec_frontier(),
                            old(self).inp().spec_boundary(),
                            old(self).inp().spec_watermark(),
                            old(self).inp().spec_fatal(),
                            toks,
                            lx.spec_state(),
                            at,
                            self.inp().spec_watermark(),
                        ));
                        assert(cached_as(self.inp().spec_cache(), old(self).inp().spec_cache(), toks));
                    }
                }
                return Ok(());
            }
            let ghost before = self.inp();
            let ghost st_b = lx.spec_state();
            let ghost at_b = at;
            let scan = self.scan_with(&mut lx, &mut at, Ghost(false));
            proof {
                lemma_extends_trans(old(self).inp().spec_log(), before.spec_log(), self.inp().spec_log());
            }
            match scan {
                Scan::Token(t) => {
                    let st = lx.state().clone();
                    let ghost gst = st;
                    let ghost mid = self.inp();
                    self.push_lexed(t, st);
                    proof {
                        assert(self.inp().spec_cache().subrange(0, n0 as int) =~= old(self).inp().spec_cache());
                        if old(self).inp().wf() {
                            lemma_scan_chain_push::<L>(
                                old(self).inp().spec_src(),
                                c,
                                frontier,
                                old(self).inp().spec_boundary(),
                                old(self).inp().spec_watermark(),
                                fatal,
                                toks,
                                st_b,
                                at_b,
                                before.spec_watermark(),
                                t,
                                lx.spec_state(),
                            );
                            if old(self).inp().spec_policy() == Policy::Verbose {
                                lemma_chain_log_push::<L>(
                                    old(self).inp().spec_src(),
                                    c,
                                    frontier,
                                    old(self).inp().spec_boundary(),
                                    old(self).inp().spec_watermark(),
                                    toks,
                                    st_b,
                                    at_b,
                                    before.spec_watermark(),
                                    t,
                                    lx.spec_state(),
                                );
                            }
                            let nt = toks.push((t, lx.spec_state()));
                            let cc = self.inp().spec_cache();
                            assert(cc == mid.spec_cache().push(CachedToken { token: t, state: gst }));
                            assert forall|i: int| 0 <= i < nt.len() implies #[trigger] cc[n0 + i].token == nt[i].0
                                && cloned(nt[i].1, cc[n0 + i].state) by {
                                if i < toks.len() {
                                    assert(cc[n0 + i] == mid.spec_cache()[n0 + i]);
                                }
                            }
                            toks = nt;
                        }
                    }
                },
                Scan::Tripped | Scan::Eof => {
                    proof {
                        if old(self).inp().wf() {
                            assert(scan_chain::<L>(
                                old(self).inp().spec_src(),
                                c,
                                old(self).inp().spec_frontier(),
                                old(self).inp().spec_boundary(),
                                old(self).inp().spec_watermark(),
                                old(self).inp().spec_fatal(),
                                toks,
                                st_b,
                                at_b,
                                before.spec_watermark(),
                            ));
                        }
                    }
                    return Ok(());
                },
                Scan::Rejected(_, e) => {
                    proof {
                        if old(self).inp().wf() {
                            assert(scan_chain::<L>(
                                old(self).inp().spec_src(),
                                c,
                                old(self).inp().spec_frontier(),
                                old(self).inp().spec_boundary(),
                                old(self).inp().spec_watermark(),
                                old(self).inp().spec_fatal(),
                                toks,
                                st_b,
                                at_b,
                                before.spec_watermark(),
                            ));
                        }
                    }
                    return Err(e);
                },
                Scan::TripRejected(e) => {
                    proof {
                        if old(self).inp().wf() {
                            assert(scan_chain::<L>(
                                old(self).inp().spec_src(),
                                c,
                                old(self).inp().spec_frontier(),
                                old(self).inp().spec_boundary(),
                                old(self).inp().spec_watermark(),
                                old(self).inp().spec_fatal(),
                                toks,
                                st_b,
                                at_b,
                                before.spec_watermark(),
                            ));
                        }
                    }
                    return Err(e);
                },
            }
        }
    }

    /// Whether what an overflow scan returned, `r`, agrees with the tokens `toks` it lexed
    /// and how the scan after them ends, `o`: the copies are `toks`, fewer than `more` only
    /// at the end of the input or the poison boundary; a resource-limit trip (`tripped`)
    /// yields no copies; a failure is a refused diagnostic.
    spec fn overflow_agrees(
        r: Result<Vec<Spanned<L::Token>>, ErrorOf<L>>,
        tripped: bool,
        more: usize,
        toks: Seq<(Spanned<L::Token>, L::State)>,
        o: ScanEnd<L::Token, L::State>,
    ) -> bool {
        match r {
            Ok(v) => if tripped {
                v.len() == 0 && o matches ScanEnd::Trip(_, false)
            } else {
                &&& v.len() == toks.len()
                &&& v.len() <= more
                &&& forall|i: int| 0 <= i < v.len() ==> #[trigger] v@[i] == toks[i].0
                &&& v.len() < more ==> (o is End || o is Stop)
            },
            Err(_) => o is Refused || o matches ScanEnd::Trip(_, true),
        }
    }

    /// Whether an overflow scan that returned `r` stopped on a scan rather than on having
    /// lexed `more` tokens.
    spec fn overflow_scanned(r: Result<Vec<Spanned<L::Token>>, ErrorOf<L>>, more: usize) -> bool {
        match r {
            Ok(v) => v.len() < more,
            Err(_) => true,
        }
    }

    /// Lexes up to `more` tokens past the lex frontier without caching them or keeping the
    /// lexer state, and returns them. Lexer errors on the way are reported as in any scan; a
    /// resource-limit trip latches the poison boundary at the lex frontier (the end of what is
    /// durably cached) and yields nothing.
    fn overflow(&mut self, more: usize) -> (r: Result<Vec<Spanned<L::Token>>, ErrorOf<L>>)
        ensures
            final(self).inp().same_frame(&old(self).inp()),
            final(self).inp().same_lineage(&old(self).inp()),
            final(self).inp().same_committed(&old(self).inp()),
            extends(old(self).inp().spec_log(), final(self).inp().spec_log()),
            old(self).inp().spec_policy() != Policy::Verbose ==> final(self).inp().spec_log()
                == old(self).inp().spec_log(),
            old(self).inp().spec_watermark() <= final(self).inp().spec_watermark(),
            final(self).inp().spec_boundary() == old(self).inp().spec_boundary() || final(self).inp().spec_boundary()
                == Some(old(self).inp().spec_frontier()),
            r is Err ==> old(self).inp().spec_policy() == Policy::Fatal,
            r matches Ok(v) ==> v.len() <= more && (final(self).inp().spec_boundary() != old(self).inp().spec_boundary()
                ==> v.len() == 0),
            old(self).inp().spec_reached(old(self).inp().spec_frontier()) || more == 0 ==> (r matches Ok(v) && v.len()
                == 0 && final(self).inp().same_stream(&old(self).inp())),
            old(self).inp().wf() && !old(self).inp().spec_reached(old(self).inp().spec_frontier()) ==> exists|
                c: L::State,
                toks: Seq<(Spanned<L::Token>, L::State)>,
                st_end: L::State,
                at_end: usize,
                wm_end: usize,
            |
                cloned(old(self).inp().spec_frontier_state(), c) && #[trigger] scan_chain::<L>(
                    old(self).inp().spec_src(),
                    c,
                    old(self).inp().spec_frontier(),
                    old(self).inp().spec_boundary(),
                    old(self).inp().spec_watermark(),
                    old(self).inp().spec_fatal(),
                    toks,
                    st_end,
                    at_end,
                    wm_end,
                ) && Self::overflow_agrees(
                    r,
                    final(self).inp().spec_boundary() != old(self).inp().spec_boundary(),
                    more,
                    toks,
                    scan_end::<L>(
                        old(self).inp().spec_src(),
                        st_end,
                        at_end,
                        old(self).inp().spec_boundary(),
                        wm_end,
                        old(self).inp().spec_fatal(),
                    ),
                ) && (old(self).inp().spec_policy() == Policy::Verbose ==> final(self).inp().spec_log()
                    == old(self).inp().spec_log() + chain_log::<L>(
                    old(self).inp().spec_src(),
                    c,
                    old(self).inp().spec_frontier(),
                    old(self).inp().spec_boundary(),
                    old(self).inp().spec_watermark(),
                    toks,
                ) + (if Self::overflow_scanned(r, more) {
                    scan_log::<L>(old(self).inp().spec_src(), st_end, at_end, old(self).inp().spec_boundary(), wm_end)
                } else {
                    Seq::empty()
                })),
    {
        proof {
            lemma_extends_refl(self.inp().spec_log());
        }
        let frontier = match self.input.cache.back() {
            Some(b) => b.token.span.end,
            None => self.input.span.end,
        };
        let mut out: Vec<Spanned<L::Token>> = Vec::new();
        let st0 = match self.input.cache.back() {
            Some(b) => b.state.clone(),
            None => self.input.state.clone(),
        };
        let ghost c = st0;
        if more == 0 || self.reached_boundary(frontier) {
            proof {
                let e = Seq::<(Spanned<L::Token>, L::State)>::empty();
                assert(scan_chain::<L>(
                    old(self).inp().spec_src(),
                    c,
                    frontier,
                    old(self).inp().spec_boundary(),
                    old(self).inp().spec_watermark(),
                    old(self).inp().spec_fatal(),
                    e,
                    c,
                    frontier,
                    old(self).inp().spec_watermark(),
                ));
                assert(out@ =~= Seq::<Spanned<L::Token>>::empty());
                assert(self.inp().spec_log() + Seq::<Emission<ErrorOf<L>>>::empty() =~= self.inp().spec_log());
                assert(self.inp().spec_log() + Seq::<Emission<ErrorOf<L>>>::empty() + Seq::<Emission<ErrorOf<L>>>::empty()
                    =~= self.inp().spec_log());
            }
            return Ok(out);
        }
        let (mut lx, from) = self.lexer_at(frontier, st0);
        let mut at = from;
        let ghost fatal = old(self).inp().spec_fatal();
        let ghost mut toks: Seq<(Spanned<L::Token>, L::State)> = Seq::empty();
        proof {
            if old(self).inp().wf() {
                old(self).inp().lemma_cache_ordered();
            }
            assert(self.inp().spec_log() + Seq::<Emission<ErrorOf<L>>>::empty() =~= self.inp().spec_log());
        }
        loop
            invariant
                cloned(old(self).inp().spec_frontier_state(), c),
                fatal == old(self).inp().spec_fatal(),
                old(self).inp().wf() ==> scan_chain::<L>(
                    old(self).inp().spec_src(),
                    c,
                    frontier,
                    old(self).inp().spec_boundary(),
                    old(self).inp().spec_watermark(),
                    fatal,
                    toks,
                    lx.spec_state(),
                    at,
                    self.inp().spec_watermark(),
                ),
                out@.len() == toks.len(),
                out@.len() <= more,
                more > 0,
                old(self).inp().wf() && old(self).inp().spec_policy() == Policy::Verbose ==> self.inp().spec_log()
                    == old(self).inp().spec_log() + chain_log::<L>(
                    old(self).inp().spec_src(),
                    c,
                    frontier,
                    old(self).inp().spec_boundary(),
                    old(self).inp().spec_watermark(),
                    toks,
                ),
                forall|i: int| 0 <= i < out@.len() ==> #[trigger] out@[i] == toks[i].0,
                self.inp().same_frame(&old(self).inp()),
                self.inp().same_lineage(&old(self).inp()),
                self.inp().same_committed(&old(self).inp()),
                self.inp().spec_boundary() == old(self).inp().spec_boundary(),
                old(self).inp().spec_watermark() <= self.inp().spec_watermark(),
                extends(old(self).inp().spec_log(), self.inp().spec_log()),
                old(self).inp().spec_policy() != Policy::Verbose ==> self.inp().spec_log()
                    == old(self).inp().spec_log(),
                !old(self).inp().spec_reached(frontier),
                frontier == old(self).inp().spec_frontier(),
                lx.spec_offset() <= lx.spec_len(),
                lx.spec_len() == L::spec_source_len(self.inp().spec_src()),
                lx.spec_source() == self.inp().spec_src(),
                at == lx.spec_offset(),
                old(self).inp().wf() ==> frontier == from,
            decreases lx.spec_len() - lx.spec_offset(),
        {
            if out.len() >= more {
                return Ok(out);
            }
            let ghost before = self.inp();
            let ghost st_b = lx.spec_state();
            let ghost at_b = at;
            let scan = self.scan_with(&mut lx, &mut at, Ghost(false));
            proof {
                lemma_extends_trans(old(self).inp().spec_log(), before.spec_log(), self.inp().spec_log());
            }
            match scan {
                Scan::Token(t) => {
                    proof {
                        if old(self).inp().wf() {
                            lemma_scan_chain_push::<L>(
                                old(self).inp().spec_src(),
                                c,
                                frontier,
                                old(self).inp().spec_boundary(),
                                old(self).inp().spec_watermark(),
                                fatal,
                                toks,
                                st_b,
                                at_b,
                                before.spec_watermark(),
                                t,
                                lx.spec_state(),
                            );
                            if old(self).inp().spec_policy() == Policy::Verbose {
                                lemma_chain_log_push::<L>(
                                    old(self).inp().spec_src(),
                                    c,
                                    frontier,
                                    old(self).inp().spec_boundary(),
                                    old(self).inp().spec_watermark(),
                                    toks,
                                    st_b,
                                    at_b,
                                    before.spec_watermark(),
                                    t,
                                    lx.spec_state(),
                                );
                            }
                        }
                        toks = toks.push((t, lx.spec_state()));
                    }
                    out.push(t);
                },
                Scan::Eof => {
                    return Ok(out);
                },
                Scan::Tripped => {
                    self.input.boundary = Some(frontier);
                    return Ok(Vec::new());
                },
                Scan::TripRejected(e) => {
                    self.input.boundary = Some(frontier);
                    return Err(e);
                },
                Scan::Rejected(_, e) => {
                    return Err(e);
                },
            }
        }
    }

    /// Copies of up to `n` next tokens, leaving them in place: the cache is filled to hold
    /// them (as far as it has room, the input goes, and no resource-limit trip or poison
    /// boundary stops lexing), and the copies are of its first `n` tokens. A window wider than
    /// a full cache overflows: the tokens past it are lexed and returned without being
    /// cached; a resource-limit trip there latches the poison boundary at the lex frontier
    /// and cuts the window back to the cached tokens.
    #[verifier::rlimit(100)]
    pub fn peek(&mut self, n: usize) -> (r: Result<Vec<Spanned<L::Token>>, ErrorOf<L>>)
        ensures
            final(self).inp().grew_only(&old(self).inp()),
            final(self).inp().latch_ok(&old(self).inp()),
            final(self).inp().kept_position(&old(self).inp()),
            old(self).inp().spec_cache().len() <= final(self).inp().spec_cache().len(),
            final(self).inp().spec_cache().subrange(0, old(self).inp().spec_cache().len() as int)
                == old(self).inp().spec_cache(),
            old(self).inp().spec_reached(old(self).inp().spec_frontier()) ==> final(self).inp().same_stream(
                &old(self).inp(),
            ),
            old(self).inp().spec_cache().len() >= n ==> final(self).inp().same_stream(&old(self).inp()),
            r matches Ok(v) ==> v.len() <= n && window(n, final(self).inp().spec_cache().len()) <= v.len()
                && forall|i: int|
                0 <= i < window(n, final(self).inp().spec_cache().len()) ==> cloned(
                    final(self).inp().spec_cache()[i].token,
                    #[trigger] v[i],
                ),
            r matches Ok(v) && v.len() > window(n, final(self).inp().spec_cache().len()) ==> final(self).inp().spec_cache().len()
                >= final(self).inp().spec_capacity() && final(self).inp().spec_boundary() == old(self).inp().spec_boundary(),
            r matches Ok(v) ==> (final(self).inp().spec_boundary() != old(self).inp().spec_boundary() ==> v.len()
                == window(n, final(self).inp().spec_cache().len())),
            final(self).inp().spec_cache().len() >= final(self).inp().spec_capacity() && final(self).inp().spec_boundary()
                != old(self).inp().spec_boundary() ==> final(self).inp().spec_boundary() == Some(
                final(self).inp().spec_frontier(),
            ),
            old(self).inp().wf() && !old(self).inp().spec_reached(old(self).inp().spec_frontier())
                && old(self).inp().spec_cache().len() < n ==> exists|
                c: L::State,
                toks: Seq<(Spanned<L::Token>, L::State)>,
                st_end: L::State,
                at_end: usize,
                wm_end: usize,
            |
                cloned(old(self).inp().spec_frontier_state(), c) && #[trigger] scan_chain::<L>(
                    old(self).inp().spec_src(),
                    c,
                    old(self).inp().spec_frontier(),
                    old(self).inp().spec_boundary(),
                    old(self).inp().spec_watermark(),
                    old(self).inp().spec_fatal(),
                    toks,
                    st_end,
                    at_end,
                    wm_end,
                ) && cached_as(final(self).inp().spec_cache(), old(self).inp().spec_cache(), toks) && (
                final(self).inp().spec_cache().len() < n && final(self).inp().spec_cache().len()
                < final(self).inp().spec_capacity() ==> fill_stop_agrees(
                    scan_end::<L>(
                        old(self).inp().spec_src(),
                        st_end,
                        at_end,
                        old(self).inp().spec_boundary(),
                        wm_end,
                        old(self).inp().spec_fatal(),
                    ),
                    r is Err,
                )) && (old(self).inp().spec_policy() == Policy::Verbose && (final(self).inp().spec_cache().len() >= n
                || final(self).inp().spec_cache().len() < final(self).inp().spec_capacity() || old(self).inp().spec_reached(final(self).inp().spec_frontier()))
                ==> final(self).inp().spec_log() == old(self).inp().spec_log() + chain_log::<L>(
                    old(self).inp().spec_src(),
                    c,
                    old(self).inp().spec_frontier(),
                    old(self).inp().spec_boundary(),
                    old(self).inp().spec_watermark(),
                    toks,
                ) + (if final(self).inp().spec_cache().len() < n && final(self).inp().spec_cache().len() < final(self).inp().spec_capacity() {
                    scan_log::<L>(old(self).inp().spec_src(), st_end, at_end, old(self).inp().spec_boundary(), wm_end)
                } else {
                    Seq::empty()
                })),
            r matches Ok(v) ==> (old(self).inp().wf() && !old(self).inp().spec_reached(old(self).inp().spec_frontier()) && old(self).inp().spec_cache().len() < n
                && !old(self).inp().spec_reached(final(self).inp().spec_frontier()) && final(self).inp().spec_cache().len() < n && final(self).inp().spec_cache().len()
                >= final(self).inp().spec_capacity() ==> exists|
                c: L::State,
                toks: Seq<(Spanned<L::Token>, L::State)>,
                st_end: L::State,
                at_end: usize,
                wm_end: usize,
                c2: L::State,
                toks2: Seq<(Spanned<L::Token>, L::State)>,
                st2: L::State,
                at2: usize,
                wm2: usize,
            |
                cloned(old(self).inp().spec_frontier_state(), c) && #[trigger] scan_chain::<L>(
                    old(self).inp().spec_src(),
                    c,
                    old(self).inp().spec_frontier(),
                    old(self).inp().spec_boundary(),
                    old(self).inp().spec_watermark(),
                    old(self).inp().spec_fatal(),
                    toks,
                    st_end,
                    at_end,
                    wm_end,
                ) && cached_as(final(self).inp().spec_cache(), old(self).inp().spec_cache(), toks) && cloned(final(self).inp().spec_frontier_state(), c2)
                    && #[trigger] scan_chain::<L>(
                    old(self).inp().spec_src(),
                    c2,
                    final(self).inp().spec_frontier(),
                    old(self).inp().spec_boundary(),
                    wm_end,
                    old(self).inp().spec_fatal(),
                    toks2,
                    st2,
                    at2,
                    wm2,
                ) && (final(self).inp().spec_boundary() == old(self).inp().spec_boundary() ==> v.len() == final(self).inp().spec_cache().len() + toks2.len()
                    && (forall|i: int| 0 <= i < toks2.len() ==> v[final(self).inp().spec_cache().len() + i] == #[trigger] toks2[i].0)
                    && (v.len() < n ==> (scan_end::<L>(
                    old(self).inp().spec_src(),
                    st2,
                    at2,
                    old(self).inp().spec_boundary(),
                    wm2,
                    old(self).inp().spec_fatal(),
                ) is End || scan_end::<L>(
                    old(self).inp().spec_src(),
                    st2,
                    at2,
                    old(self).inp().spec_boundary(),
                    wm2,
                    old(self).inp().spec_fatal(),
                ) is Stop))) && (final(self).inp().spec_boundary()
                    != old(self).inp().spec_boundary() ==> v.len() == final(self).inp().spec_cache().len() && scan_end::<L>(
                    old(self).inp().spec_src(),
                    st2,
                    at2,
                    old(self).inp().spec_boundary(),
                    wm2,
                    old(self).inp().spec_fatal(),
                ) matches ScanEnd::Trip(
                    _,
                    false,
                )) && (old(self).inp().spec_policy() == Policy::Verbose ==> final(self).inp().spec_log() == old(self).inp().spec_log() + chain_log::<L>(
                    old(self).inp().spec_src(),
                    c,
                    old(self).inp().spec_frontier(),
                    old(self).inp().spec_boundary(),
                    old(self).inp().spec_watermark(),
                    toks,
                ) + chain_log::<L>(old(self).inp().spec_src(), c2, final(self).inp().spec_frontier(), old(self).inp().spec_boundary(), wm_end, toks2) + (if v.len()
                    < n {
                    scan_log::<L>(old(self).inp().spec_src(), st2, at2, old(self).inp().spec_boundary(), wm2)
                } else {
                    Seq::empty()
                }))),
            r is Err ==> old(self).inp().spec_policy() == Policy::Fatal,
    {
        match self.fill(n) {
            Ok(()) => {},
            Err(e) => {
                return Err(e);
            },
        }
        let mut out: Vec<Spanned<L::Token>> = Vec::new();
        let mut i: usize = 0;
        while i < n && i < self.input.cache.len()
            invariant
                i <= self.inp().spec_cache().len(),
                i <= n,
                out.len() == i,
                forall|j: int| 0 <= j < i ==> cloned(self.inp().spec_cache()[j].token, #[trigger] out[j]),
            decreases self.inp().spec_cache().len() - i,
        {
            match self.input.cache.get(i) {
                Some(e) => {
                    out.push(e.token.clone());
                },
                None => {},
            }
            i = i + 1;
        }
        let len = self.input.cache.len();
        proof {
            assert(out.len() == window(n, self.inp().spec_cache().len()));
        }
        if n > len && self.input.cache.remaining() == 0 {
            let ghost mid = self.inp();
            proof {
                if mid.wf() {
                    mid.lemma_cache_ordered();
                }
            }
            let ov = self.overflow(n - len);
            let ghost ovg = ov;
            proof {
                lemma_extends_trans(old(self).inp().spec_log(), mid.spec_log(), self.inp().spec_log());
            }
            match ov {
                Ok(mut extra) => {
                    let ghost head = out@;
                    let ghost tail = extra@;
                    let ghost tripped = self.inp().spec_boundary() != mid.spec_boundary();
                    out.append(&mut extra);
                    proof {
                        assert(out@ == head + tail);
                        assert forall|j: int| 0 <= j < len implies cloned(self.inp().spec_cache()[j].token, #[trigger] out[j]) by {
                            assert(out[j] == head[j]);
                        }
                        assert(self.inp().spec_cache().len() >= self.inp().spec_capacity());
                        if tail.len() > 0 {
                            assert(self.inp().spec_boundary() == old(self).inp().spec_boundary());
                            if old(self).inp().wf() {
                                assert(!mid.spec_reached(mid.spec_frontier()));
                                let (c, toks, st_end, at_end, wm_end) = choose|
                                    c: L::State,
                                    toks: Seq<(Spanned<L::Token>, L::State)>,
                                    st_end: L::State,
                                    at_end: usize,
                                    wm_end: usize,
                                |
                                    cloned(mid.spec_frontier_state(), c) && #[trigger] scan_chain::<L>(
                                        mid.spec_src(),
                                        c,
                                        mid.spec_frontier(),
                                        mid.spec_boundary(),
                                        mid.spec_watermark(),
                                        mid.spec_fatal(),
                                        toks,
                                        st_end,
                                        at_end,
                                        wm_end,
                                    ) && Self::overflow_agrees(
                                        ovg,
                                        tripped,
                                        (n - len) as usize,
                                        toks,
                                        scan_end::<L>(
                                            mid.spec_src(),
                                            st_end,
                                            at_end,
                                            mid.spec_boundary(),
                                            wm_end,
                                            mid.spec_fatal(),
                                        ),
                                    );
                                assert(old(self).inp().spec_watermark() <= mid.spec_watermark());
                                assert forall|k: int| 0 <= k < toks.len() implies out[self.inp().spec_cache().len() + k]
                                    == #[trigger] toks[k].0 by {
                                    assert(out[len + k] == tail[k]);
                                }
                                assert(cloned(self.inp().spec_frontier_state(), c));
                                assert(scan_chain::<L>(
                                    old(self).inp().spec_src(),
                                    c,
                                    self.inp().spec_frontier(),
                                    old(self).inp().spec_boundary(),
                                    mid.spec_watermark(),
                                    old(self).inp().spec_fatal(),
                                    toks,
                                    st_end,
                                    at_end,
                                    wm_end,
                                ));
                                assert(out.len() == self.inp().spec_cache().len() + toks.len());
                                assert(out.len() < n ==> (scan_end::<L>(
                                    old(self).inp().spec_src(),
                                    st_end,
                                    at_end,
                                    old(self).inp().spec_boundary(),
                                    wm_end,
                                    old(self).inp().spec_fatal(),
                                ) is End || scan_end::<L>(
                                    old(self).inp().spec_src(),
                                    st_end,
                                    at_end,
                                    old(self).inp().spec_boundary(),
                                    wm_end,
                                    old(self).inp().spec_fatal(),
                                ) is Stop));
                            }
                        }
                    }
                },
                Err(e) => {
                    return Err(e);
                },
            }
        }
        Ok(out)
    }

    /// Reports a lexer error unless one starting there was already reported, and lifts the
    /// dedup watermark past it.
    fn emit_lexer_error(&mut self, span: SimpleSpan, e: ErrorOf<L>) -> (r: Result<
        (),
        ErrorOf<L>,
    >)
        ensures
            final(self).inp().same_frame(&old(self).inp()),
            final(self).inp().same_lineage(&old(self).inp()),
            final(self).inp().same_committed(&old(self).inp()),
            final(self).inp().spec_boundary() == old(self).inp().spec_boundary(),
            old(self).inp().spec_watermark() <= final(self).inp().spec_watermark(),
            extends(old(self).inp().spec_log(), final(self).inp().spec_log()),
            old(self).inp().spec_policy() != Policy::Verbose ==> final(self).inp().spec_log()
                == old(self).inp().spec_log(),
            r is Err ==> old(self).inp().spec_policy() == Policy::Fatal,
            r is Err ==> r == Err::<(), ErrorOf<L>>(e),
            old(self).inp().spec_watermark() <= span.start ==> (r is Err <==> old(self).inp().spec_policy()
                == Policy::Fatal) && final(self).inp().spec_watermark() == (if old(self).inp().spec_watermark()
                < span.end {
                span.end
            } else {
                old(self).inp().spec_watermark()
            }) && (old(self).inp().spec_policy() == Policy::Verbose ==> final(self).inp().spec_log()
                == old(self).inp().spec_log().push(Emission::Error { span, error: e })),
            span.start < old(self).inp().spec_watermark() ==> r is Ok && final(self).inp().spec_watermark()
                == old(self).inp().spec_watermark() && final(self).inp().spec_log() == old(self).inp().spec_log(),
    {
        proof {
            lemma_extends_refl(self.inp().spec_log());
        }
        if span.start >= self.input.watermark {
            if span.end > self.input.watermark {
                self.input.watermark = span.end;
            }
            proof {
                lemma_extends_push(self.inp().spec_log(), Emission::Error { span, error: e });
            }
            self.input.emitter.emit_error(span, e)
        } else {
            Ok(())
        }
    }

    /// Lexes from `*at` with `lx` until a token, the end of the input, the poison boundary,
    /// a resource-limit trip, or a refused diagnostic. Lexer errors crossed on the way are
    /// reported (once each). A trip latches the poison boundary at the position its item
    /// was lexed from.
    /// Whether what a scan returned, the position `at` it stopped at and the lexer state
    /// `st` it left, agree with how the scan ends, `o`.
    spec fn scan_with_agrees(
        r: Scan<L::Token, ErrorOf<L>>,
        o: ScanEnd<L::Token, L::State>,
        at: usize,
        st: L::State,
        reached: bool,
    ) -> bool {
        match r {
            Scan::Token(t) => o == ScanEnd::<L::Token, L::State>::Token(t, st),
            Scan::Tripped => o == ScanEnd::<L::Token, L::State>::Trip(at, false),
            Scan::TripRejected(_) => o == ScanEnd::<L::Token, L::State>::Trip(at, true),
            Scan::Eof => if reached {
                o == ScanEnd::<L::Token, L::State>::Stop(at)
            } else {
                o == ScanEnd::<L::Token, L::State>::End(at)
            },
            Scan::Rejected(span, _) => o == ScanEnd::<L::Token, L::State>::Refused(span),
        }
    }

    fn scan_with(&mut self, lx: &mut L, at: &mut usize, Ghost(settle): Ghost<bool>) -> (r: Scan<L::Token, ErrorOf<L>>)
        requires
            old(lx).spec_offset() <= old(lx).spec_len(),
            *old(at) == old(lx).spec_offset(),
            old(lx).spec_len() == L::spec_source_len(old(lx).spec_source()),
        ensures
            final(self).inp().same_frame(&old(self).inp()),
            final(self).inp().same_lineage(&old(self).inp()),
            final(self).inp().same_committed(&old(self).inp()),
            old(self).inp().spec_watermark() <= final(self).inp().spec_watermark(),
            extends(old(self).inp().spec_log(), final(self).inp().spec_log()),
            old(self).inp().spec_policy() != Policy::Verbose ==> final(self).inp().spec_log()
                == old(self).inp().spec_log(),
            final(lx).spec_len() == old(lx).spec_len(),
            final(lx).spec_source() == old(lx).spec_source(),
            *old(at) <= *final(at) <= final(lx).spec_offset() <= final(lx).spec_len(),
            r matches Scan::Token(t) ==> *old(at) <= t.span.start && t.span.start < t.span.end
                && t.span.end == *final(at) && *final(at) == final(lx).spec_offset(),
            r is Token || r is Eof || r is Rejected ==> final(self).inp().spec_boundary() == old(self).inp().spec_boundary(),
            r is Tripped || r is TripRejected ==> final(self).inp().spec_boundary() == Some(
                *final(at),
            ),
            Self::scan_with_agrees(
                r,
                scan_end::<L>(
                    old(lx).spec_source(),
                    old(lx).spec_state(),
                    *old(at),
                    old(self).inp().spec_boundary(),
                    old(self).inp().spec_watermark(),
                    old(self).inp().spec_policy() == Policy::Fatal,
                ),
                *final(at),
                final(lx).spec_state(),
                old(self).inp().spec_reached(*final(at)),
            ),
            settle ==> wm_settled::<L>(
                old(lx).spec_source(),
                old(lx).spec_state(),
                *old(at),
                old(self).inp().spec_boundary(),
                old(self).inp().spec_watermark(),
                old(self).inp().spec_policy() == Policy::Fatal,
                final(self).inp().spec_watermark(),
            ),
            r is Token || r is Eof ==> final(self).inp().spec_watermark() == scan_wm::<L>(
                old(lx).spec_source(),
                old(lx).spec_state(),
                *old(at),
                old(self).inp().spec_boundary(),
                old(self).inp().spec_watermark(),
                old(self).inp().spec_policy() == Policy::Fatal,
            ),
            r matches Scan::Rejected(span, _) ==> *old(at) <= span.start && span.start
                < span.end && span.end == *final(at),
            r is Rejected || r is TripRejected ==> old(self).inp().spec_policy() == Policy::Fatal,
            r matches Scan::Rejected(_, e) ==> Some(e) == scan_refusal::<L>(
                old(lx).spec_source(),
                old(lx).spec_state(),
                *old(at),
                old(self).inp().spec_boundary(),
                old(self).inp().spec_watermark(),
                old(self).inp().spec_policy() == Policy::Fatal,
            ),
            r matches Scan::TripRejected(e) ==> Some(e) == scan_refusal::<L>(
                old(lx).spec_source(),
                old(lx).spec_state(),
                *old(at),
                old(self).inp().spec_boundary(),
                old(self).inp().spec_watermark(),
                old(self).inp().spec_policy() == Policy::Fatal,
            ),
            old(self).inp().spec_policy() == Policy::Verbose ==> final(self).inp().spec_log()
                == old(self).inp().spec_log() + scan_log::<L>(
                old(lx).spec_source(),
                old(lx).spec_state(),
                *old(at),
                old(self).inp().spec_boundary(),
                old(self).inp().spec_watermark(),
            ),
    {
        proof {
            lemma_extends_refl(self.inp().spec_log());
        }
        loop
            invariant
                self.inp().same_frame(&old(self).inp()),
                self.inp().same_lineage(&old(self).inp()),
                self.inp().same_committed(&old(self).inp()),
                self.inp().spec_boundary() == old(self).inp().spec_boundary(),
                old(self).inp().spec_watermark() <= self.inp().spec_watermark(),
                extends(old(self).inp().spec_log(), self.inp().spec_log()),
                old(self).inp().spec_policy() != Policy::Verbose ==> self.inp().spec_log()
                    == old(self).inp().spec_log(),
                lx.spec_len() == old(lx).spec_len(),
                lx.spec_source() == old(lx).spec_source(),
                lx.spec_len() == L::spec_source_len(lx.spec_source()),
                lx.spec_offset() <= lx.spec_len(),
                *at == lx.spec_offset(),
                *old(at) <= *at,
                scan_end::<L>(
                    lx.spec_source(),
                    lx.spec_state(),
                    *at,
                    self.inp().spec_boundary(),
                    self.inp().spec_watermark(),
                    self.inp().spec_policy() == Policy::Fatal,
                ) == scan_end::<L>(
                    old(lx).spec_source(),
                    old(lx).spec_state(),
                    *old(at),
                    old(self).inp().spec_boundary(),
                    old(self).inp().spec_watermark(),
                    old(self).inp().spec_policy() == Policy::Fatal,
                ),
                scan_wm_after::<L>(
                    lx.spec_source(),
                    lx.spec_state(),
                    *at,
                    self.inp().spec_boundary(),
                    self.inp().spec_watermark(),
                    self.inp().spec_policy() == Policy::Fatal,
                ) == scan_wm_after::<L>(
                    old(lx).spec_source(),
                    old(lx).spec_state(),
                    *old(at),
                    old(self).inp().spec_boundary(),
                    old(self).inp().spec_watermark(),
                    old(self).inp().spec_policy() == Policy::Fatal,
                ),
                scan_refusal::<L>(
                    lx.spec_source(),
                    lx.spec_state(),
                    *at,
                    self.inp().spec_boundary(),
                    self.inp().spec_watermark(),
                    self.inp().spec_policy() == Policy::Fatal,
                ) == scan_refusal::<L>(
                    old(lx).spec_source(),
                    old(lx).spec_state(),
                    *old(at),
                    old(self).inp().spec_boundary(),
                    old(self).inp().spec_watermark(),
                    old(self).inp().spec_policy() == Policy::Fatal,
                ),
                scan_wm::<L>(
                    lx.spec_source(),
                    lx.spec_state(),
                    *at,
                    self.inp().spec_boundary(),
                    self.inp().spec_watermark(),
                    self.inp().spec_policy() == Policy::Fatal,
                ) == scan_wm::<L>(
                    old(lx).spec_source(),
                    old(lx).spec_state(),
                    *old(at),
                    old(self).inp().spec_boundary(),
                    old(self).inp().spec_watermark(),
                    old(self).inp().spec_policy() == Policy::Fatal,
                ),
                old(self).inp().spec_policy() == Policy::Verbose ==> self.inp().spec_log() + scan_log::<L>(
                    lx.spec_source(),
                    lx.spec_state(),
                    *at,
                    self.inp().spec_boundary(),
                    self.inp().spec_watermark(),
                ) == old(self).inp().spec_log() + scan_log::<L>(
                    old(lx).spec_source(),
                    old(lx).spec_state(),
                    *old(at),
                    old(self).inp().spec_boundary(),
                    old(self).inp().spec_watermark(),
                ),
            decreases lx.spec_len() - lx.spec_offset(),
        {
            proof {
                reveal(wm_settled);
                reveal(scan_wm_after);
            }
            if self.reached_boundary(*at) {
                return Scan::Eof;
            }
            let item = lx.lex();
            match item {
                None => {
                    return Scan::Eof;
                },
                Some(item) => {
                    let span = lx.span();
                    match lx.check() {
                        Err(e) => {
                            self.input.boundary = Some(*at);
                            let ghost before = self.inp().spec_log();
                            let r = self.emit_lexer_error(span, e);
                            proof {
                                lemma_extends_trans(old(self).inp().spec_log(), before, self.inp().spec_log());
                            }
                            match r {
                                Ok(()) => {
                                    return Scan::Tripped;
                                },
                                Err(e) => {
                                    return Scan::TripRejected(e);
                                },
                            }
                        },
                        Ok(()) => {},
                    }
                    *at = span.end;
                    match item {
                        Ok(tok) => {
                            return Scan::Token(Spanned::new(span, tok));
                        },
                        Err(e) => {
                            let ghost before = self.inp().spec_log();
                            let r = self.emit_lexer_error(span, e);
                            proof {
                                lemma_extends_trans(old(self).inp().spec_log(), before, self.inp().spec_log());
                            }
                            match r {
                                Ok(()) => {},
                                Err(e) => {
                                    return Scan::Rejected(span, e);
                                },
                            }
                        },
                    }
                },
            }
        }
    }
}

} // verus!
