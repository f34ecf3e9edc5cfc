//! A precise, non-moving, mark-and-sweep garbage collector whose roots are
//! kept in a shadow stack of handle slots.
use vstd::prelude::*;

pub mod handle;
pub mod heap;
pub mod lemmas;
pub mod mark;

use crate::handle::Bump;
use crate::handle::BLOCK_SIZE;
use crate::handle::ScopeData;
use crate::heap::marked_in;
use crate::heap::Allocator;
use crate::mark::reachable;

verus! {

/// A type whose values can live on the collector's heap.
///
/// `members` names the cells that a value refers to, and `trace` must report
/// exactly those, in order, through `tracer.mark`. The collector keeps a cell
/// alive through the members that `members` names, so a type that refers to
/// cells must name them there; the default, no members, fits a type that
/// holds no cell references.
pub trait Trace {
    /// The ids of the cells that this value refers to.
    open spec fn members(&self) -> Seq<usize> {
        Seq::empty()
    }

    fn trace(&self, tracer: &mut Tracer)
        ensures
            final(tracer).found() == old(tracer).found() + self.members(),
    ;
}

impl Trace for () {
    open spec fn members(&self) -> Seq<usize> {
        Seq::empty()
    }

    /// Nothing to report.
    fn trace(&self, _tracer: &mut Tracer) {
        proof {
            assert(_tracer.found() + Seq::<usize>::empty() =~= _tracer.found());
        }
    }
}

impl Trace for crate::handle::Member {
    open spec fn members(&self) -> Seq<usize> {
        seq![self.ptr()]
    }

    /// A member reports itself.
    fn trace(&self, tracer: &mut Tracer) {
        let ghost before = tracer.found();
        tracer.mark(*self);
        proof {
            assert(tracer.found() =~= before + seq![self.ptr()]);
        }
    }
}

impl<T: Trace> Trace for Option<T> {
    open spec fn members(&self) -> Seq<usize> {
        match self {
            Some(v) => v.members(),
            None => Seq::empty(),
        }
    }

    /// Traces the value when there is one.
    fn trace(&self, tracer: &mut Tracer) {
        match self {
            Some(v) => v.trace(tracer),
            None => {
                proof {
                    assert(tracer.found() + Seq::<usize>::empty() =~= tracer.found());
                }
            },
        }
    }
}

/// Collects the members that one `trace` call reports.
pub struct Tracer {
    found: Vec<usize>,
}

impl Tracer {
    /// The ids reported so far, in order.
    pub open(crate) spec fn found(&self) -> Seq<usize> {
        self.found@
    }

    pub(crate) fn new() -> (r: Self)
        ensures
            r.found() == Seq::<usize>::empty(),
    {
        Tracer { found: Vec::new() }
    }

    /// Reports one member.
    pub fn mark(&mut self, member: crate::handle::Member)
        ensures
            final(self).found() == old(self).found().push(member.ptr()),
    {
        self.found.push(member.ptr);
    }
}

/// The collector: the handle blocks and the heap.
pub struct Gc<T> {
    pub(crate) scope_data: ScopeData,
    pub(crate) allocator: Allocator<T>,
    /// The members that the mark phase has recorded so far, by cell.
    pub(crate) traced: Ghost<Map<usize, Seq<usize>>>,
}

impl<T> Gc<T> {
    /// The handle blocks and the heap are well formed, and no cell is marked.
    pub open(crate) spec fn wf(&self) -> bool {
        self.scope_data.wf() && self.allocator.wf()
    }

    /// The live cells, newest first.
    pub open(crate) spec fn chain(&self) -> Seq<usize> {
        self.allocator.chain()
    }

    /// The set of live cells.
    pub open(crate) spec fn live_set(&self) -> Set<usize> {
        self.allocator.chain().to_set()
    }

    /// Every cell slot ever allocated, with `None` for a freed one.
    pub open(crate) spec fn cells(&self) -> Seq<Option<T>> {
        self.allocator.cells()
    }

    /// The ids that the scanned handle slots hold.
    pub open(crate) spec fn roots(&self) -> Set<usize> {
        self.scope_data.roots()
    }

    /// The contents of the handle blocks.
    pub open(crate) spec fn slots(&self) -> Seq<Seq<Option<usize>>> {
        self.scope_data.slots()
    }

    /// The bump: the next free handle slot.
    pub open(crate) spec fn next(&self) -> Bump {
        self.scope_data.next()
    }

    /// The bump that the most recently closed scope had reached.
    pub open(crate) spec fn tombstone(&self) -> Bump {
        self.scope_data.tombstone()
    }

    /// The number of open scopes.
    pub open(crate) spec fn level(&self) -> usize {
        self.scope_data.level()
    }

    /// The bump saved by each open scope, outermost first.
    pub open(crate) spec fn frames(&self) -> Seq<Bump> {
        self.scope_data.frames()
    }

    /// Whether a collection runs before every allocation.
    pub open(crate) spec fn stress(&self) -> bool {
        self.allocator.stress()
    }

    /// The cell id held by a handle slot, if the slot exists and holds one.
    pub open(crate) spec fn slot_content(&self, slot: Bump) -> Option<usize> {
        if self.scope_data.valid_slot(slot) {
            self.scope_data.slot(slot.index as int, slot.pos as int)
        } else {
            None
        }
    }

    /// Whether the mark bit of cell `id` is set.
    pub open(crate) spec fn marked(&self, id: usize) -> bool {
        self.allocator.is_marked(id)
    }

    /// The allocator's head: the newest live cell.
    pub open(crate) spec fn head(&self) -> Option<usize> {
        self.allocator.head()
    }

    /// Whether a handle slot exists at `slot`.
    pub open(crate) spec fn has_slot(&self, slot: Bump) -> bool {
        self.scope_data.valid_slot(slot)
    }

    /// The payload of a live cell.
    pub open(crate) spec fn payload(&self, id: usize) -> Option<T> {
        if id < self.cells().len() {
            self.cells()[id as int]
        } else {
            None
        }
    }

    /// The payload that a handle slot leads to.
    pub open(crate) spec fn value_at(&self, slot: Bump) -> Option<T> {
        match self.slot_content(slot) {
            Some(id) => self.payload(id),
            None => None,
        }
    }
}

/// Filtering by two predicates that agree on every element gives one result.
proof fn lemma_filter_agree(s: Seq<usize>, p: spec_fn(usize) -> bool, q: spec_fn(usize) -> bool)
    requires
        forall|i: int| 0 <= i < s.len() ==> p(#[trigger] s[i]) == q(s[i]),
    ensures
        s.filter(p) == s.filter(q),
    decreases s.len(),
{
    reveal(Seq::filter);
    if s.len() > 0 {
        let t = s.drop_last();
        assert forall|i: int| 0 <= i < t.len() implies p(#[trigger] t[i]) == q(t[i]) by {
            assert(t[i] == s[i]);
        }
        lemma_filter_agree(t, p, q);
        assert(p(s[s.len() - 1]) == q(s[s.len() - 1]));
    }
}

/// Whether cell `x` survives a collection of `before`: some path reaches it
/// from the scanned roots through the members of live cells.
pub open(crate) spec fn survives<T: Trace>(before: Gc<T>, x: usize) -> bool {
    reachable(x, before.roots(), before.member_map(), before.live_set())
}

/// What a collection does to the collector `before`, giving `after`.
///
/// The chain keeps, in order, the cells that a path reaches from the scanned
/// roots through the members of live cells; every other cell is freed, its
/// payload dropped, and no surviving payload changes. Handle slots are kept up to the last block that the bump or
/// the tombstone is in, and the bumps and the level do not move.
pub open(crate) spec fn collected<T: Trace>(before: Gc<T>, after: Gc<T>) -> bool {
    &&& forall|id: usize| !#[trigger] after.marked(id)
    &&& (after.head() is None <==> after.chain().len() == 0)
    &&& after.chain() == before.chain().filter(|x: usize| survives(before, x))
    &&& after.cells().len() == before.cells().len()
    &&& forall|id: usize|
        id < before.cells().len() ==> #[trigger] after.cells()[id as int] == (if before.chain().contains(id)
            && !survives(before, id) {
            None
        } else {
            before.cells()[id as int]
        })
    &&& after.slots() == before.slots().take(
        (if before.tombstone().index > before.next().index {
            before.tombstone().index
        } else {
            before.next().index
        }) + 1,
    )
    &&& after.next() == before.next()
    &&& after.tombstone() == before.tombstone()
    &&& after.level() == before.level()
    &&& after.frames() == before.frames()
    &&& after.stress() == before.stress()
}

impl<T: Trace> Gc<T> {
    /// A full collection: mark from the roots, sweep the chain, then drop the
    /// handle blocks that nothing uses.
    pub(crate) fn gc(&mut self)
        requires
            old(self).wf(),
        ensures
            final(self).wf(),
            collected(*old(self), *final(self)),
    {
        self.mark();
        let ghost a_m = self.allocator;
        let ghost h = self.allocator.headers@;
        self.allocator.sweep();
        self.scope_data.free_unused_blocks();
        proof {
            let c = old(self).chain();
            let pm = marked_in(h);
            let pr = |x: usize| survives(*old(self), x);
            assert forall|i: int| 0 <= i < c.len() implies pm(#[trigger] c[i]) == pr(c[i]) by {
                assert(old(self).allocator.live(c[i]));
                assert(a_m.is_marked(c[i]) == (old(self).allocator.live(c[i]) && reachable(
                    c[i],
                    old(self).roots(),
                    old(self).member_map(),
                    old(self).live_set(),
                )));
                assert(pm(c[i]) == a_m.is_marked(c[i]));
            }
            lemma_filter_agree(c, pm, pr);
            assert forall|id: usize| old(self).chain().contains(id) <==> old(self).allocator.live(id) by {
                if old(self).chain().contains(id) {
                    let i = choose|i: int| 0 <= i < c.len() && c[i] == id;
                    assert(old(self).allocator.live(c[i]));
                }
            }
        }
    }

    /// A collector with one empty handle block, no open scope and no cell.
    pub fn new(config: Config) -> (r: Self)
        ensures
            r.wf(),
            r.chain() == Seq::<usize>::empty(),
            r.cells() == Seq::<Option<T>>::empty(),
            r.slots() == seq![crate::handle::empty_block()],
            r.next() == (Bump { index: 0, pos: 0 }),
            r.tombstone() == (Bump { index: 0, pos: 0 }),
            r.level() == 0,
            r.frames() == Seq::<Bump>::empty(),
            r.stress() == config.stress_enabled(),
    {
        Gc {
            scope_data: ScopeData::new(),
            allocator: Allocator::new(config.allocator),
            traced: Ghost(Map::empty()),
        }
    }

    /// The live cells, newest first, read by walking the chain.
    pub fn live_cells(&self) -> (r: Vec<usize>)
        requires
            self.wf(),
        ensures
            r@ == self.chain(),
    {
        let ghost c = self.allocator.chain@;
        let mut r: Vec<usize> = Vec::new();
        let mut current = self.allocator.head;
        let ghost mut k: int = 0;
        while current.is_some()
            invariant
                self.wf(),
                c == self.chain(),
                0 <= k <= c.len(),
                current == (if k < c.len() {
                    Some(c[k])
                } else {
                    None::<usize>
                }),
                r@ == c.take(k),
            decreases c.len() - k,
        {
            let cur = current.unwrap();
            proof {
                assert(self.allocator.live(c[k]));
                assert(c.take(k + 1) == c.take(k).push(c[k]));
            }
            r.push(cur);
            current = self.allocator.headers[cur].prev;
            proof {
                k = k + 1;
            }
        }
        proof {
            assert(c.take(k) == c);
        }
        r
    }

    /// The number of open scopes.
    pub fn scope_level(&self) -> (r: usize)
        ensures
            r == self.level(),
    {
        self.scope_data.level
    }

    /// The next free handle slot.
    pub fn next_slot(&self) -> (r: Bump)
        ensures
            r == self.next(),
    {
        self.scope_data.next
    }

    /// The bump that the most recently closed scope had reached.
    pub fn tombstone_slot(&self) -> (r: Bump)
        ensures
            r == self.tombstone(),
    {
        self.scope_data.tombstone
    }

    /// The number of handle blocks.
    pub fn block_count(&self) -> (r: usize)
        ensures
            r == self.slots().len(),
    {
        self.scope_data.blocks.len()
    }

    /// Runs a collection.
    pub fn collect(&mut self)
        requires
            old(self).wf(),
        ensures
            final(self).wf(),
            collected(*old(self), *final(self)),
    {
        self.collect_all()
    }

    /// Runs a full collection.
    pub fn collect_all(&mut self)
        requires
            old(self).wf(),
        ensures
            final(self).wf(),
            collected(*old(self), *final(self)),
    {
        self.gc()
    }

    /// Frees every live cell, newest first: the collector's teardown. Each
    /// payload is dropped once, here or by an earlier collection.
    pub fn free_all(&mut self)
        requires
            old(self).wf(),
        ensures
            final(self).wf(),
            final(self).chain() == Seq::<usize>::empty(),
            final(self).cells().len() == old(self).cells().len(),
            forall|id: usize| id < old(self).cells().len() ==> #[trigger] final(self).cells()[id as int] is None,
            final(self).slots() == old(self).slots(),
            final(self).next() == old(self).next(),
            final(self).tombstone() == old(self).tombstone(),
            final(self).level() == old(self).level(),
            final(self).frames() == old(self).frames(),
    {
        self.allocator.free_all();
    }
}

/// Collector settings.
#[derive(Clone, Copy)]
pub struct Config {
    allocator: crate::heap::Config,
}

impl Config {
    /// Whether a collection runs before every allocation.
    pub open(crate) spec fn stress_enabled(&self) -> bool {
        self.allocator.stress
    }

    /// The same settings, with stress mode set to `v`.
    pub fn stress(self, v: bool) -> (r: Self)
        ensures
            r.stress_enabled() == v,
    {
        let mut c = self;
        c.allocator.stress = v;
        c
    }
}

impl Default for Config {
    /// Stress mode off.
    fn default() -> (r: Self)
        ensures
            !r.stress_enabled(),
    {
        Config { allocator: crate::heap::Config { stress: false } }
    }
}

impl<T: Trace> Default for Gc<T> {
    /// A collector with the default settings.
    fn default() -> (r: Self)
        ensures
            r.wf(),
            r.chain() == Seq::<usize>::empty(),
            r.cells() == Seq::<Option<T>>::empty(),
            r.slots() == seq![crate::handle::empty_block()],
            r.next() == (Bump { index: 0, pos: 0 }),
            r.tombstone() == (Bump { index: 0, pos: 0 }),
            r.level() == 0,
            r.frames() == Seq::<Bump>::empty(),
            !r.stress(),
    {
        Self::new(Config::default())
    }
}

/// The heap is as it was: same chain, same cells, same settings.
pub open(crate) spec fn heap_unchanged<T>(before: Gc<T>, after: Gc<T>) -> bool {
    &&& after.chain() == before.chain()
    &&& after.cells() == before.cells()
    &&& after.stress() == before.stress()
}

/// Only `slot` changed among the handle slots: it now holds `value`.
pub open(crate) spec fn slot_written<T>(before: Gc<T>, after: Gc<T>, slot: Bump, value: Option<usize>) -> bool {
    &&& after.slot_content(slot) == value
    &&& forall|s: Bump| s != slot ==> #[trigger] after.slot_content(s) == before.slot_content(s)
}

/// `slot` is the slot that the bump of `before` hands out: the bump itself,
/// or the start of a new block when the current one is full. The bump of
/// `after` lies one past it.
pub open(crate) spec fn takes_next_slot<T>(before: Gc<T>, after: Gc<T>, slot: Bump) -> bool {
    &&& before.next().pos < BLOCK_SIZE ==> slot == before.next() && after.slots().len()
        == before.slots().len()
    &&& before.next().pos == BLOCK_SIZE ==> slot.index == before.slots().len() && slot.pos == 0
        && after.slots().len() == before.slots().len() + 1
    &&& after.next() == (Bump { index: slot.index, pos: (slot.pos + 1) as usize })
}

impl<T> Gc<T> {
    /// Reads a handle slot: `None` for an empty slot, or one that no block holds.
    pub(crate) fn read_slot(&self, slot: Bump) -> (r: Option<usize>)
        requires
            self.wf(),
        ensures
            r == self.slot_content(slot),
    {
        if slot.index < self.scope_data.blocks.len() && slot.pos < BLOCK_SIZE {
            self.scope_data.get_slot(slot)
        } else {
            None
        }
    }

    /// Overwrites a handle slot.
    pub(crate) fn write_slot(&mut self, slot: Bump, value: Option<usize>)
        requires
            old(self).wf(),
            old(self).scope_data.valid_slot(slot),
        ensures
            final(self).wf(),
            heap_unchanged(*old(self), *final(self)),
            slot_written(*old(self), *final(self), slot, value),
            final(self).slots().len() == old(self).slots().len(),
            final(self).next() == old(self).next(),
            final(self).tombstone() == old(self).tombstone(),
            final(self).level() == old(self).level(),
            final(self).frames() == old(self).frames(),
    {
        self.scope_data.set_slot(slot, value);
        proof {
            assert forall|s: Bump| s != slot implies #[trigger] self.slot_content(s) == old(self).slot_content(s) by {
                if self.scope_data.valid_slot(s) && s.index == slot.index {
                    assert(s.pos != slot.pos);
                }
            }
        }
    }

    /// The payload of a live cell, by reference.
    pub(crate) fn payload_ref(&self, id: usize) -> (r: Option<&T>)
        ensures
            r is Some <==> self.payload(id) is Some,
            r is Some ==> *r->Some_0 == self.payload(id)->Some_0,
    {
        if id < self.allocator.payloads.len() {
            match &self.allocator.payloads[id] {
                Some(v) => Some(v),
                None => None,
            }
        } else {
            None
        }
    }

    /// Takes the next free handle slot and writes `value` in it.
    pub(crate) fn push_handle(&mut self, value: Option<usize>) -> (slot: Bump)
        requires
            old(self).wf(),
        ensures
            final(self).wf(),
            heap_unchanged(*old(self), *final(self)),
            slot_written(*old(self), *final(self), slot, value),
            final(self).scope_data.valid_slot(slot),
            takes_next_slot(*old(self), *final(self), slot),
            final(self).tombstone() == old(self).tombstone(),
            final(self).level() == old(self).level(),
            final(self).frames() == old(self).frames(),
    {
        let slot = self.scope_data.alloc_handle(value);
        proof {
            assert forall|s: Bump| s != slot implies #[trigger] self.slot_content(s) == old(self).slot_content(s) by {
                if self.scope_data.valid_slot(s) && s.index == slot.index {
                    assert(s.pos != slot.pos);
                }
                if self.scope_data.valid_slot(s) && s.index == old(self).slots().len() {
                    assert(self.slots()[s.index as int] == crate::handle::empty_block().update(0, value));
                }
            }
        }
        slot
    }
}

} // verus!
