//! Properties that relate several operations of the collector.
use vstd::prelude::*;

use crate::collected;
use crate::heap_unchanged;
use crate::slot_written;
use crate::handle::closes;
use crate::handle::opens;
use crate::handle::Local;
use crate::handle::Member;
use crate::handle::Scope;
use crate::mark::is_path;
use crate::mark::lemma_path_step;
use crate::mark::step;
use crate::survives;
use crate::Gc;
use crate::Trace;

verus! {

/// Closing a scope puts the bump back where it was just before the scope
/// opened, and the nesting level back to what it was then, whatever ran in
/// between.
pub proof fn lemma_close_restores_next<T>(
    opened_on: Gc<T>,
    s: Scope,
    opened: Gc<T>,
    closing: Gc<T>,
    closed: Gc<T>,
)
    requires
        opens(opened_on, s, opened),
        closes(closing, s, closed),
    ensures
        closed.next() == opened_on.next(),
        closed.level() == opened_on.level(),
{
}

/// Opening a scope raises the level by one; closing the innermost scope
/// lowers it by one.
pub proof fn lemma_level_in_stack_order<T>(
    opened_on: Gc<T>,
    s: Scope,
    opened: Gc<T>,
    closing: Gc<T>,
    closed: Gc<T>,
)
    requires
        opens(opened_on, s, opened),
        s.is_top_of(closing),
        closes(closing, s, closed),
    ensures
        opened.level() == opened_on.level() + 1,
        closed.level() + 1 == closing.level(),
{
}

/// A scope that allocates no handle leaves the bump, the handle slots and the
/// level as they were; the tombstone is the bump too.
pub proof fn lemma_empty_scope<T>(before: Gc<T>, s: Scope, opened: Gc<T>, after: Gc<T>)
    requires
        opens(before, s, opened),
        closes(opened, s, after),
    ensures
        after.next() == before.next(),
        after.tombstone() == before.next(),
        after.slots() == before.slots(),
        after.level() == before.level(),
        after.chain() == before.chain(),
{
}

/// Rooting a handle's member in a fresh slot gives a handle to the same
/// payload: the new slot holds the member's cell, and the heap is untouched.
pub proof fn lemma_member_round_trip<T>(before: Gc<T>, h: Local, m: Member, after: Gc<T>, r: Local)
    requires
        before.slot_content(h.slot()) == Some(m.ptr()),
        heap_unchanged(before, after),
        slot_written(before, after, r.slot(), Some(m.ptr())),
    ensures
        after.value_at(r.slot()) == before.value_at(h.slot()),
        after.value_at(r.slot()) == before.payload(m.ptr()),
{
}

/// Filtering by a predicate that holds of every element changes nothing.
pub proof fn lemma_filter_all(s: Seq<usize>, p: spec_fn(usize) -> bool)
    requires
        forall|i: int| 0 <= i < s.len() ==> p(#[trigger] s[i]),
    ensures
        s.filter(p) == s,
    decreases s.len(),
{
    reveal(Seq::filter);
    if s.len() > 0 {
        let t = s.drop_last();
        assert forall|i: int| 0 <= i < t.len() implies p(#[trigger] t[i]) by {
            assert(t[i] == s[i]);
        }
        lemma_filter_all(t, p);
        assert(p(s[s.len() - 1]));
        assert(t.push(s.last()) =~= s);
    }
}

/// A collection that finds every live cell reachable keeps the chain and
/// every payload as they were; only mark bits changed on the way.
pub proof fn lemma_collect_nothing_unreachable<T: Trace>(before: Gc<T>, after: Gc<T>)
    requires
        collected(before, after),
        forall|x: usize| before.chain().contains(x) ==> survives(before, x),
    ensures
        after.chain() == before.chain(),
        after.cells().len() == before.cells().len(),
        forall|id: usize| id < before.cells().len() ==> #[trigger] after.cells()[id as int] == before.cells()[id as int],
{
    let c = before.chain();
    assert forall|i: int| 0 <= i < c.len() implies (|x: usize| survives(before, x))(
        #[trigger] c[i],
    ) by {
        assert(c.contains(c[i]));
    }
    lemma_filter_all(c, |x: usize| survives(before, x));
    assert forall|id: usize| id < before.cells().len() implies #[trigger] after.cells()[id as int]
        == before.cells()[id as int] by {
        if before.chain().contains(id) {
            assert(survives(before, id));
        }
    }
}

/// A collection keeps the handle slots that the root scan reads, so the
/// collector after it has the same roots.
pub proof fn lemma_collect_keeps_roots<T: Trace>(before: Gc<T>, after: Gc<T>)
    requires
        before.wf(),
        collected(before, after),
    ensures
        after.roots() == before.roots(),
        after.slots().len() == (if before.tombstone().index > before.next().index {
            before.tombstone().index
        } else {
            before.next().index
        }) + 1,
{
    let a = after.scope_data;
    let b = before.scope_data;
    let e = b.scan_end();
    assert(b.slots().len() == b.blocks@.len());
    assert(a.scan_end() == e);
    assert(a.slots().take(e.index as int) =~= b.slots().take(e.index as int));
    assert(a.slots()[e.index as int] == b.slots()[e.index as int]);
    assert(a.scan_seq() == b.scan_seq());
    assert(after.roots() =~= before.roots());
}

/// A path of the collector before a collection, to a cell of the chain
/// after it, is a path of the collector after it.
proof fn lemma_path_carries_over<T: Trace>(g0: Gc<T>, g1: Gc<T>, p: Seq<usize>)
    requires
        g0.wf(),
        collected(g0, g1),
        g1.roots() == g0.roots(),
        is_path(p, g0.roots(), g0.member_map(), g0.live_set()),
    ensures
        is_path(p, g1.roots(), g1.member_map(), g1.live_set()),
    decreases p.len(),
{
    let c0 = g0.chain();
    let c1 = g1.chain();
    let pr0 = |x: usize| survives(g0, x);
    let last = p.last();
    // the end of the path survives the collection
    assert(survives(g0, last));
    assert(g0.live_set().contains(p[p.len() - 1]));
    assert(c0.contains(last));
    let i0 = choose|i: int| 0 <= i < c0.len() && c0[i] == last;
    c0.lemma_filter_contains(pr0, i0);
    assert(c1.contains(last));
    if p.len() == 1 {
        assert forall|i: int| 0 <= i < p.len() implies g1.live_set().contains(#[trigger] p[i]) by {}
    } else {
        let q = p.drop_last();
        assert forall|i: int| 0 <= i < q.len() implies g0.live_set().contains(#[trigger] q[i]) by {
            assert(q[i] == p[i]);
        }
        assert forall|i: int| 0 <= i < q.len() - 1 implies #[trigger] step(g0.member_map(), q[i], q[i + 1]) by {
            assert(q[i] == p[i] && q[i + 1] == p[i + 1]);
            assert(step(g0.member_map(), p[i], p[i + 1]));
        }
        lemma_path_carries_over(g0, g1, q);
        let k = p.len() - 2;
        let y = q.last();
        assert(y == p[k]);
        assert(g1.live_set().contains(q[q.len() - 1]));
        assert(c1.contains(y));
        // a surviving cell keeps its payload, hence its members
        assert(g0.live_set().contains(p[k]));
        assert(c0.contains(y));
        let j = choose|j: int| 0 <= j < c0.len() && c0[j] == y;
        assert(g0.allocator.live(c0[j]));
        assert(g1.cells()[y as int] == g0.cells()[y as int]);
        assert(g1.allocator.live(y));
        assert(step(g0.member_map(), p[k], p[k + 1]));
        assert(g1.member_map()[y] == g0.member_map()[y]);
        assert(g1.live_set().contains(last));
        lemma_path_step(q, g1.roots(), g1.member_map(), g1.live_set(), last);
        assert(q.push(last) =~= p);
    }
}

/// Two collections in a row: the second frees nothing and changes nothing
/// that can be observed: the chain, the payloads, the handle slots and the
/// bumps stay as the first left them.
pub proof fn lemma_second_collection<T: Trace>(g0: Gc<T>, g1: Gc<T>, g2: Gc<T>)
    requires
        g0.wf(),
        collected(g0, g1),
        collected(g1, g2),
    ensures
        g2.chain() == g1.chain(),
        g2.cells().len() == g1.cells().len(),
        forall|id: usize| id < g1.cells().len() ==> #[trigger] g2.cells()[id as int] == g1.cells()[id as int],
        g2.slots() == g1.slots(),
        g2.next() == g1.next(),
        g2.tombstone() == g1.tombstone(),
        g2.level() == g1.level(),
{
    lemma_collect_keeps_roots(g0, g1);
    let c0 = g0.chain();
    let c1 = g1.chain();
    let pr0 = |x: usize| survives(g0, x);
    assert forall|x: usize| c1.contains(x) implies survives(g1, x) by {
        let i = choose|i: int| 0 <= i < c1.len() && c1[i] == x;
        c0.lemma_filter_pred(pr0, i);
        assert(survives(g0, x));
        let p = choose|p: Seq<usize>| #[trigger] is_path(p, g0.roots(), g0.member_map(), g0.live_set()) && p.last() == x;
        lemma_path_carries_over(g0, g1, p);
    }
    lemma_collect_nothing_unreachable(g1, g2);
    assert(g2.slots() =~= g1.slots());
}

} // verus!
