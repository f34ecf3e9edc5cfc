//! The shadow stack of handle slots, and the handles and scopes built on it.
//!
//! Slots live in blocks of `BLOCK_SIZE`. A block is never resized, so a slot
//! keeps its position `(block, slot)` for as long as its block exists. Scopes
//! push and pop in stack order; popping one records the high-water mark it
//! reached as the tombstone, so that the next collection still scans it.
use vstd::prelude::*;

use crate::collected;
use crate::heap_unchanged;
use crate::slot_written;
use crate::takes_next_slot;
use crate::survives;
use crate::Gc;
use crate::Trace;

verus! {

/// Slots in one block: a page of pointer-sized entries.
pub const BLOCK_SIZE: usize = 4096 / 8;

/// A position in the block list: a block index and a slot within it.
#[derive(Clone, Copy, Debug, PartialEq, Eq)]
pub struct Bump {
    pub index: usize,
    pub pos: usize,
}

/// Whether `a` comes strictly before `b` in allocation order.
pub open spec fn before(a: Bump, b: Bump) -> bool {
    a.index < b.index || (a.index == b.index && a.pos < b.pos)
}

/// The larger of two positions, with the rule of the root scan: within one
/// block the larger slot, else the position in the later block.
pub open spec fn scan_bound(next: Bump, tombstone: Bump) -> Bump {
    if tombstone.index == next.index {
        Bump { index: next.index, pos: if tombstone.pos > next.pos { tombstone.pos } else { next.pos } }
    } else if tombstone.index < next.index {
        next
    } else {
        tombstone
    }
}

/// A fresh block: every slot empty.
pub open spec fn empty_block() -> Seq<Option<usize>> {
    Seq::new(BLOCK_SIZE as nat, |i: int| None::<usize>)
}

/// The block list with its bump positions.
pub struct ScopeData {
    pub(crate) blocks: Vec<Vec<Option<usize>>>,
    pub(crate) next: Bump,
    pub(crate) tombstone: Bump,
    pub(crate) level: usize,
    pub(crate) frames: Ghost<Seq<Bump>>,
}

impl ScopeData {
    /// The bump saved by each open scope, outermost first.
    pub open(crate) spec fn frames(&self) -> Seq<Bump> {
        self.frames@
    }

    /// The contents of every block.
    pub open(crate) spec fn slots(&self) -> Seq<Seq<Option<usize>>> {
        self.blocks@.map_values(|b: Vec<Option<usize>>| b@)
    }

    pub open(crate) spec fn next(&self) -> Bump {
        self.next
    }

    pub open(crate) spec fn tombstone(&self) -> Bump {
        self.tombstone
    }

    pub open(crate) spec fn level(&self) -> usize {
        self.level
    }

    /// The content of slot `p` of block `b`.
    pub open(crate) spec fn slot(&self, b: int, p: int) -> Option<usize> {
        self.slots()[b][p]
    }

    /// Whether `pos` names a slot that exists.
    pub open(crate) spec fn valid_slot(&self, pos: Bump) -> bool {
        pos.index < self.slots().len() && pos.pos < BLOCK_SIZE
    }

    /// Where the root scan stops.
    pub open(crate) spec fn scan_end(&self) -> Bump {
        scan_bound(self.next, self.tombstone)
    }

    /// The contents of the scanned slots, in allocation order: every slot of
    /// the blocks before the bound's block, then that block's slots below the
    /// bound.
    pub open(crate) spec fn scan_seq(&self) -> Seq<Option<usize>> {
        self.slots().take(self.scan_end().index as int).flatten() + self.slots()[self.scan_end().index as int].take(
            self.scan_end().pos as int,
        )
    }

    /// The ids held by the slots in the scanned range.
    pub open(crate) spec fn roots(&self) -> Set<usize> {
        Set::new(|id: usize| self.scan_seq().contains(Some(id)))
    }

    pub open(crate) spec fn wf(&self) -> bool {
        &&& self.blocks@.len() >= 1
        &&& forall|b: int| 0 <= b < self.blocks@.len() ==> (#[trigger] self.blocks@[b])@.len() == BLOCK_SIZE
        &&& self.next.index < self.blocks@.len()
        &&& self.next.pos <= BLOCK_SIZE
        &&& self.tombstone.index < self.blocks@.len()
        &&& self.tombstone.pos <= BLOCK_SIZE
        &&& self.frames@.len() == self.level
        &&& forall|i: int|
            0 <= i < self.frames@.len() ==> (#[trigger] self.frames@[i]).index < self.blocks@.len()
                && self.frames@[i].pos <= BLOCK_SIZE && !before(self.next, self.frames@[i])
        &&& forall|i: int, j: int|
            0 <= i < j < self.frames@.len() ==> !before(#[trigger] self.frames@[j], #[trigger] self.frames@[i])
    }

    fn new_block() -> (r: Vec<Option<usize>>)
        ensures
            r@ == empty_block(),
    {
        let mut v: Vec<Option<usize>> = Vec::new();
        while v.len() < BLOCK_SIZE
            invariant
                v.len() <= BLOCK_SIZE,
                forall|i: int| 0 <= i < v.len() ==> v@[i] is None,
            decreases BLOCK_SIZE - v.len(),
        {
            v.push(None);
        }
        proof {
            assert(v@ =~= empty_block());
        }
        v
    }

    pub(crate) fn new() -> (r: Self)
        ensures
            r.wf(),
            r.slots() == seq![empty_block()],
            r.next() == (Bump { index: 0, pos: 0 }),
            r.tombstone() == (Bump { index: 0, pos: 0 }),
            r.level() == 0,
            r.frames() == Seq::<Bump>::empty(),
    {
        let mut blocks: Vec<Vec<Option<usize>>> = Vec::new();
        blocks.push(Self::new_block());
        let r = ScopeData {
            blocks,
            next: Bump { index: 0, pos: 0 },
            tombstone: Bump { index: 0, pos: 0 },
            level: 0,
            frames: Ghost(Seq::empty()),
        };
        proof {
            assert(r.slots() =~= seq![empty_block()]);
        }
        r
    }

    /// Appends an empty block and moves the bump to its start.
    fn alloc_block(&mut self)
        requires
            old(self).wf(),
        ensures
            final(self).wf(),
            final(self).slots() == old(self).slots().push(empty_block()),
            final(self).next().index == old(self).slots().len(),
            final(self).next().pos == 0,
            final(self).tombstone() == old(self).tombstone(),
            final(self).level() == old(self).level(),
            final(self).frames() == old(self).frames(),
    {
        let block = Self::new_block();
        self.blocks.push(block);
        self.next = Bump { index: self.blocks.len() - 1, pos: 0 };
        proof {
            assert(self.slots() =~= old(self).slots().push(empty_block()));
        }
    }

    /// Takes the next free slot and writes `value` in it. A full block makes
    /// the bump move to a new block first.
    pub(crate) fn alloc_handle(&mut self, value: Option<usize>) -> (slot: Bump)
        requires
            old(self).wf(),
        ensures
            final(self).wf(),
            old(self).next().pos < BLOCK_SIZE ==> slot == old(self).next() && final(self).slots()
                == old(self).slots().update(
                slot.index as int,
                old(self).slots()[slot.index as int].update(slot.pos as int, value),
            ),
            old(self).next().pos == BLOCK_SIZE ==> slot.index == old(self).slots().len() && slot.pos == 0
                && final(self).slots() == old(self).slots().push(empty_block().update(0, value)),
            final(self).valid_slot(slot),
            final(self).next() == (Bump { index: slot.index, pos: (slot.pos + 1) as usize }),
            final(self).tombstone() == old(self).tombstone(),
            final(self).level() == old(self).level(),
            final(self).frames() == old(self).frames(),
    {
        if self.next.pos == BLOCK_SIZE {
            self.alloc_block();
        }
        let slot = self.next;
        let ghost mid = self.slots();
        self.set_slot(slot, value);
        proof {
            if old(self).next.pos == BLOCK_SIZE {
                assert(mid[slot.index as int] == empty_block());
                assert(self.slots() =~= old(self).slots().push(empty_block().update(0, value)));
            }
        }
        self.next = Bump { index: slot.index, pos: slot.pos + 1 };
        slot
    }

    /// Overwrites one slot.
    pub(crate) fn set_slot(&mut self, slot: Bump, value: Option<usize>)
        requires
            old(self).wf(),
            old(self).valid_slot(slot),
        ensures
            final(self).wf(),
            final(self).slots() == old(self).slots().update(
                slot.index as int,
                old(self).slots()[slot.index as int].update(slot.pos as int, value),
            ),
            final(self).next() == old(self).next(),
            final(self).tombstone() == old(self).tombstone(),
            final(self).level() == old(self).level(),
            final(self).frames() == old(self).frames(),
    {
        self.blocks[slot.index].set(slot.pos, value);
        proof {
            assert(self.slots() =~= old(self).slots().update(
                slot.index as int,
                old(self).slots()[slot.index as int].update(slot.pos as int, value),
            ));
            assert forall|b: int| 0 <= b < self.blocks@.len() implies (#[trigger] self.blocks@[b])@.len() == BLOCK_SIZE by {
                if b != slot.index {
                    assert(self.blocks@[b] == old(self).blocks@[b]);
                }
            }
        }
    }

    /// Reads one slot.
    pub(crate) fn get_slot(&self, slot: Bump) -> (r: Option<usize>)
        requires
            self.wf(),
            self.valid_slot(slot),
        ensures
            r == self.slot(slot.index as int, slot.pos as int),
    {
        self.blocks[slot.index][slot.pos]
    }

    /// Opens a scope: returns the bump to restore and the level of the scope.
    pub(crate) fn push_scope(&mut self) -> (r: (Bump, usize))
        requires
            old(self).wf(),
            old(self).level() < usize::MAX,
        ensures
            final(self).wf(),
            r == (old(self).next(), old(self).level()),
            final(self).slots() == old(self).slots(),
            final(self).next() == old(self).next(),
            final(self).tombstone() == old(self).tombstone(),
            final(self).level() == old(self).level() + 1,
            final(self).frames() == old(self).frames().push(old(self).next()),
    {
        let r = (self.next, self.level);
        self.level = self.level + 1;
        self.frames = Ghost(self.frames@.push(self.next));
        r
    }

    /// Closes the innermost scope: the tombstone takes the bump that the scope
    /// reached, and the bump goes back to `prev_next`.
    pub(crate) fn pop_scope(&mut self, prev_next: Bump, level: usize)
        requires
            old(self).wf(),
            old(self).level() == level + 1,
            old(self).frames()[level as int] == prev_next,
        ensures
            final(self).wf(),
            final(self).slots() == old(self).slots(),
            final(self).next() == prev_next,
            final(self).tombstone() == old(self).next(),
            final(self).level() == level,
            final(self).frames() == old(self).frames().take(level as int),
    {
        self.tombstone = self.next;
        self.next = prev_next;
        self.level = level;
        self.frames = Ghost(self.frames@.take(level as int));
    }

    /// Drops every block past the last one that the bump or the tombstone is in.
    pub(crate) fn free_unused_blocks(&mut self)
        requires
            old(self).wf(),
        ensures
            final(self).wf(),
            final(self).slots() == old(self).slots().take(
                (if old(self).tombstone().index > old(self).next().index {
                    old(self).tombstone().index
                } else {
                    old(self).next().index
                }) + 1,
            ),
            final(self).next() == old(self).next(),
            final(self).tombstone() == old(self).tombstone(),
            final(self).level() == old(self).level(),
            final(self).frames() == old(self).frames(),
    {
        let last_used = if self.tombstone.index > self.next.index {
            self.tombstone.index
        } else {
            self.next.index
        };
        let nb = self.blocks.len();
        assert(last_used < nb);
        self.blocks.truncate(last_used + 1);
        proof {
            assert(self.slots() =~= old(self).slots().take(last_used + 1));
        }
    }

    /// The root scan bound, computed.
    pub(crate) fn scan_limit(&self) -> (r: Bump)
        ensures
            r == self.scan_end(),
    {
        if self.tombstone.index == self.next.index {
            Bump {
                index: self.next.index,
                pos: if self.tombstone.pos > self.next.pos {
                    self.tombstone.pos
                } else {
                    self.next.pos
                },
            }
        } else if self.tombstone.index < self.next.index {
            self.next
        } else {
            self.tombstone
        }
    }

    /// The contents of every slot of the scanned range, each once, in
    /// allocation order.
    pub(crate) fn collect_roots(&self) -> (r: Vec<Option<usize>>)
        requires
            self.wf(),
        ensures
            r@ == self.scan_seq(),
    {
        let end = self.scan_limit();
        let ghost sl = self.slots();
        let mut r: Vec<Option<usize>> = Vec::new();
        let mut b: usize = 0;
        proof {
            assert(sl.take(0) =~= Seq::<Seq<Option<usize>>>::empty());
            assert(sl.take(0).flatten() =~= Seq::<Option<usize>>::empty());
        }
        while b < end.index
            invariant
                self.wf(),
                sl == self.slots(),
                end == self.scan_end(),
                end.index < sl.len(),
                b <= end.index,
                r@ == sl.take(b as int).flatten(),
            decreases end.index - b,
        {
            let mut p: usize = 0;
            proof {
                assert(sl[b as int] == self.blocks@[b as int]@);
            }
            while p < BLOCK_SIZE
                invariant
                    self.wf(),
                    sl == self.slots(),
                    end.index < sl.len(),
                    b < end.index,
                    p <= BLOCK_SIZE,
                    sl[b as int] == self.blocks@[b as int]@,
                    r@ == sl.take(b as int).flatten() + sl[b as int].take(p as int),
                decreases BLOCK_SIZE - p,
            {
                r.push(self.blocks[b][p]);
                proof {
                    assert(sl[b as int].take(p + 1) =~= sl[b as int].take(p as int).push(sl[b as int][p as int]));
                    assert(r@ =~= sl.take(b as int).flatten() + sl[b as int].take(p + 1));
                }
                p = p + 1;
            }
            proof {
                assert(sl[b as int].take(BLOCK_SIZE as int) =~= sl[b as int]);
                assert(sl.take(b + 1) =~= sl.take(b as int).push(sl[b as int]));
                sl.take(b as int).lemma_flatten_push(sl[b as int]);
            }
            b = b + 1;
        }
        let mut p: usize = 0;
        proof {
            assert(sl[b as int] == self.blocks@[b as int]@);
            assert(sl[b as int].take(0) =~= Seq::<Option<usize>>::empty());
            assert(r@ =~= sl.take(b as int).flatten() + sl[b as int].take(0));
        }
        while p < end.pos
            invariant
                self.wf(),
                sl == self.slots(),
                end == self.scan_end(),
                end.index < sl.len(),
                b == end.index,
                end.pos <= BLOCK_SIZE,
                p <= end.pos,
                sl[b as int] == self.blocks@[b as int]@,
                r@ == sl.take(b as int).flatten() + sl[b as int].take(p as int),
            decreases end.pos - p,
        {
            r.push(self.blocks[b][p]);
            proof {
                assert(sl[b as int].take(p + 1) =~= sl[b as int].take(p as int).push(sl[b as int][p as int]));
                assert(r@ =~= sl.take(b as int).flatten() + sl[b as int].take(p + 1));
            }
            p = p + 1;
        }
        r
    }
}

/// A reference to a cell, kept inside another cell's payload.
///
/// A member roots nothing: its cell stays alive only while some handle
/// reaches it through the traces of the cells in between.
#[derive(Clone, Copy)]
pub struct Member {
    pub(crate) ptr: usize,
}

impl Member {
    /// The id of the cell referred to.
    pub open(crate) spec fn ptr(&self) -> usize {
        self.ptr
    }

    /// The id of the cell referred to.
    pub fn id(&self) -> (r: usize)
        ensures
            r == self.ptr(),
    {
        self.ptr
    }

    /// The payload of the cell referred to; `None` once it has been freed.
    pub fn get<'a, T>(&self, gc: &'a Gc<T>) -> (r: Option<&'a T>)
        ensures
            r is Some <==> gc.payload(self.ptr()) is Some,
            r is Some ==> *r->Some_0 == gc.payload(self.ptr())->Some_0,
    {
        gc.payload_ref(self.ptr)
    }

    /// Roots the cell in a fresh handle slot.
    pub fn in_scope<T>(self, gc: &mut Gc<T>, scope: &Scope) -> (r: Local)
        requires
            old(gc).wf(),
            scope.is_active_in(*old(gc)),
        ensures
            final(gc).wf(),
            heap_unchanged(*old(gc), *final(gc)),
            slot_written(*old(gc), *final(gc), r.slot(), Some(self.ptr())),
            takes_next_slot(*old(gc), *final(gc), r.slot()),
            final(gc).value_at(r.slot()) == old(gc).payload(self.ptr()),
            final(gc).level() == old(gc).level(),
            final(gc).frames() == old(gc).frames(),
            final(gc).tombstone() == old(gc).tombstone(),
    {
        let slot = gc.push_handle(Some(self.ptr));
        Local { slot }
    }

    /// Points the slot of `local` at this member's cell.
    pub fn move_to<T>(self, gc: &mut Gc<T>, local: &Local)
        requires
            old(gc).wf(),
            old(gc).has_slot(local.slot()),
        ensures
            final(gc).wf(),
            heap_unchanged(*old(gc), *final(gc)),
            slot_written(*old(gc), *final(gc), local.slot(), Some(self.ptr())),
            final(gc).next() == old(gc).next(),
            final(gc).level() == old(gc).level(),
            final(gc).frames() == old(gc).frames(),
            final(gc).tombstone() == old(gc).tombstone(),
    {
        gc.write_slot(local.slot, Some(self.ptr));
    }
}

/// A rooted handle: the position of the slot that holds a cell's id.
///
/// Copying a `Local` copies the slot position, not the slot: both copies
/// see later writes to it.
#[derive(Clone, Copy)]
pub struct Local {
    pub(crate) slot: Bump,
}

impl Local {
    /// The position of this handle's slot.
    pub open(crate) spec fn slot(&self) -> Bump {
        self.slot
    }

    /// Allocates `value` in a fresh cell and roots it in a fresh slot of the
    /// innermost scope. In stress mode a collection runs first.
    pub fn new<T: Trace>(gc: &mut Gc<T>, scope: &Scope, value: T) -> (r: Local)
        requires
            old(gc).wf(),
            scope.is_active_in(*old(gc)),
        ensures
            final(gc).wf(),
            final(gc).value_at(r.slot()) == Some(value),
            final(gc).slot_content(r.slot()) == Some(old(gc).cells().len() as usize),
            final(gc).chain() == seq![old(gc).cells().len() as usize] + (if old(gc).stress() {
                old(gc).chain().filter(|x: usize| survives(*old(gc), x))
            } else {
                old(gc).chain()
            }),
            final(gc).cells().len() == old(gc).cells().len() + 1,
            final(gc).cells()[old(gc).cells().len() as int] == Some(value),
            forall|id: usize|
                id < old(gc).cells().len() ==> #[trigger] final(gc).cells()[id as int] == (if old(gc).stress()
                    && old(gc).chain().contains(id) && !survives(*old(gc), id) {
                    None
                } else {
                    old(gc).cells()[id as int]
                }),
            !old(gc).stress() ==> slot_written(
                *old(gc),
                *final(gc),
                r.slot(),
                Some(old(gc).cells().len() as usize),
            ),
            !old(gc).stress() ==> takes_next_slot(*old(gc), *final(gc), r.slot()),
            old(gc).next().pos < BLOCK_SIZE ==> r.slot() == old(gc).next(),
            old(gc).next().pos == BLOCK_SIZE ==> r.slot().pos == 0 && r.slot().index + 1
                == final(gc).slots().len(),
            final(gc).next() == (Bump { index: r.slot().index, pos: (r.slot().pos + 1) as usize }),
            final(gc).tombstone() == old(gc).tombstone(),
            final(gc).level() == old(gc).level(),
            final(gc).frames() == old(gc).frames(),
            final(gc).stress() == old(gc).stress(),
    {
        if gc.allocator.config.stress {
            gc.gc();
        }
        let id = gc.allocator.allocate(value);
        let slot = gc.push_handle(Some(id));
        Local { slot }
    }

    /// The payload that the slot leads to; `None` for an empty slot, a slot
    /// that no block holds, or a freed cell.
    pub fn get<'a, T>(&self, gc: &'a Gc<T>) -> (r: Option<&'a T>)
        requires
            gc.wf(),
        ensures
            r is Some <==> gc.value_at(self.slot()) is Some,
            r is Some ==> *r->Some_0 == gc.value_at(self.slot())->Some_0,
    {
        match gc.read_slot(self.slot) {
            Some(id) => gc.payload_ref(id),
            None => None,
        }
    }

    /// A member for the cell that the slot holds.
    pub fn to_member<T>(&self, gc: &Gc<T>) -> (r: Member)
        requires
            gc.wf(),
            gc.slot_content(self.slot()) is Some,
        ensures
            gc.slot_content(self.slot()) == Some(r.ptr()),
    {
        Member { ptr: gc.read_slot(self.slot).unwrap() }
    }

    /// A fresh slot that holds the same cell as this one.
    pub fn in_scope<T>(&self, gc: &mut Gc<T>, scope: &Scope) -> (r: Local)
        requires
            old(gc).wf(),
            scope.is_active_in(*old(gc)),
        ensures
            final(gc).wf(),
            heap_unchanged(*old(gc), *final(gc)),
            slot_written(*old(gc), *final(gc), r.slot(), old(gc).slot_content(self.slot())),
            takes_next_slot(*old(gc), *final(gc), r.slot()),
            final(gc).value_at(r.slot()) == old(gc).value_at(self.slot()),
            final(gc).level() == old(gc).level(),
            final(gc).frames() == old(gc).frames(),
            final(gc).tombstone() == old(gc).tombstone(),
    {
        let v = gc.read_slot(self.slot);
        let slot = gc.push_handle(v);
        Local { slot }
    }

    /// Makes this slot hold the cell that `other`'s slot holds.
    pub fn set<T>(&self, gc: &mut Gc<T>, other: &Local)
        requires
            old(gc).wf(),
            old(gc).has_slot(self.slot()),
        ensures
            final(gc).wf(),
            heap_unchanged(*old(gc), *final(gc)),
            slot_written(*old(gc), *final(gc), self.slot(), old(gc).slot_content(other.slot())),
            final(gc).next() == old(gc).next(),
            final(gc).level() == old(gc).level(),
            final(gc).frames() == old(gc).frames(),
            final(gc).tombstone() == old(gc).tombstone(),
    {
        let v = gc.read_slot(other.slot);
        gc.write_slot(self.slot, v);
    }

    /// The position of the slot.
    pub fn as_ptr(&self) -> (r: Bump)
        ensures
            r == self.slot(),
    {
        self.slot
    }
}

/// `after` is `before` with scope `s` opened on top of the open ones.
pub open(crate) spec fn opens<T>(before: Gc<T>, s: Scope, after: Gc<T>) -> bool {
    &&& s.depth() == before.level()
    &&& s.saved() == before.next()
    &&& s.is_top_of(after)
    &&& heap_unchanged(before, after)
    &&& after.slots() == before.slots()
    &&& after.next() == before.next()
    &&& after.tombstone() == before.tombstone()
    &&& after.level() == before.level() + 1
    &&& after.frames() == before.frames().push(before.next())
}

/// `after` is `before` with its innermost scope `s` closed.
pub open(crate) spec fn closes<T>(before: Gc<T>, s: Scope, after: Gc<T>) -> bool {
    &&& heap_unchanged(before, after)
    &&& after.slots() == before.slots()
    &&& after.next() == s.saved()
    &&& after.tombstone() == before.next()
    &&& after.level() == s.depth()
    &&& after.frames() == before.frames().take(s.depth() as int)
}

/// A frame of handle slots. Scopes open and close in stack order.
pub struct Scope {
    pub(crate) prev_next: Bump,
    pub(crate) level: usize,
}

impl Scope {
    /// The bump to restore when the scope closes.
    pub open(crate) spec fn saved(&self) -> Bump {
        self.prev_next
    }

    /// The number of scopes that were open when this one opened.
    pub open(crate) spec fn depth(&self) -> usize {
        self.level
    }

    /// Whether this is the innermost open scope of `gc`.
    pub open(crate) spec fn is_active_in<T>(&self, gc: Gc<T>) -> bool {
        gc.level() == self.level + 1
    }

    /// Whether `gc` holds this scope as its innermost open one, with the bump
    /// that it saved.
    pub open(crate) spec fn is_top_of<T>(&self, gc: Gc<T>) -> bool {
        &&& self.is_active_in(gc)
        &&& gc.frames()[self.level as int] == self.prev_next
    }

    /// Opens a scope inside the innermost open one, or at the outermost level.
    pub fn new<T>(gc: &mut Gc<T>) -> (r: Scope)
        requires
            old(gc).wf(),
            old(gc).level() < usize::MAX,
        ensures
            final(gc).wf(),
            opens(*old(gc), r, *final(gc)),
    {
        let (prev_next, level) = gc.scope_data.push_scope();
        Scope { prev_next, level }
    }

    /// Closes the scope: the tombstone takes the bump that the scope reached
    /// and the bump returns to where it was when the scope opened.
    pub fn close<T>(self, gc: &mut Gc<T>)
        requires
            old(gc).wf(),
            self.is_top_of(*old(gc)),
        ensures
            final(gc).wf(),
            closes(*old(gc), self, *final(gc)),
    {
        gc.scope_data.pop_scope(self.prev_next, self.level);
    }

    /// Whether this is the innermost open scope.
    pub fn is_active<T>(&self, gc: &Gc<T>) -> (r: bool)
        ensures
            r == self.is_active_in(*gc),
    {
        gc.scope_data.level > 0 && gc.scope_data.level - 1 == self.level
    }

    /// Runs a collection.
    pub fn collect<T: Trace>(&self, gc: &mut Gc<T>)
        requires
            old(gc).wf(),
        ensures
            final(gc).wf(),
            collected(*old(gc), *final(gc)),
    {
        gc.collect()
    }

    /// Runs a full collection.
    pub fn collect_all<T: Trace>(&self, gc: &mut Gc<T>)
        requires
            old(gc).wf(),
        ensures
            final(gc).wf(),
            collected(*old(gc), *final(gc)),
    {
        gc.collect_all()
    }
}

/// A scope with one slot reserved in its parent, through which one value can
/// leave the scope.
pub struct EscapeScope {
    pub(crate) scope: Scope,
    pub(crate) local: Local,
    pub(crate) escaped: bool,
}

impl EscapeScope {
    /// The reserved slot in the parent.
    pub open(crate) spec fn reserved(&self) -> Bump {
        self.local.slot
    }

    /// Whether `escape` has been called.
    pub open(crate) spec fn has_escaped(&self) -> bool {
        self.escaped
    }

    /// The inner scope.
    pub open(crate) spec fn inner(&self) -> Scope {
        self.scope
    }

    /// Reserves an empty slot in the current frame, then opens the inner
    /// scope above it.
    pub fn new<T>(gc: &mut Gc<T>) -> (r: EscapeScope)
        requires
            old(gc).wf(),
            old(gc).level() < usize::MAX,
        ensures
            final(gc).wf(),
            !r.has_escaped(),
            slot_written(*old(gc), *final(gc), r.reserved(), None::<usize>),
            takes_next_slot(*old(gc), *final(gc), r.reserved()),
            final(gc).has_slot(r.reserved()),
            before(r.reserved(), r.inner().saved()),
            r.inner().depth() == old(gc).level(),
            r.inner().is_top_of(*final(gc)),
            r.inner().saved() == final(gc).next(),
            heap_unchanged(*old(gc), *final(gc)),
            final(gc).level() == old(gc).level() + 1,
            final(gc).tombstone() == old(gc).tombstone(),
    {
        let slot = gc.push_handle(None);
        let ghost mid = *gc;
        let scope = Scope::new(gc);
        proof {
            assert forall|s: Bump| #[trigger] gc.slot_content(s) == mid.slot_content(s) by {
                assert(gc.slots() == mid.slots());
            }
        }
        EscapeScope { scope, local: Local { slot }, escaped: false }
    }

    /// The inner scope, to allocate in.
    pub fn scope(&self) -> (r: &Scope)
        ensures
            *r == self.inner(),
    {
        &self.scope
    }

    /// Writes the cell of `value` in the reserved slot of the parent and
    /// returns the handle of that slot. Allowed once.
    pub fn escape<T>(&mut self, gc: &mut Gc<T>, value: &Local) -> (r: Local)
        requires
            !old(self).has_escaped(),
            old(gc).wf(),
            old(gc).has_slot(old(self).reserved()),
        ensures
            final(self).has_escaped(),
            final(self).reserved() == old(self).reserved(),
            final(self).inner() == old(self).inner(),
            r.slot() == old(self).reserved(),
            final(gc).wf(),
            heap_unchanged(*old(gc), *final(gc)),
            slot_written(*old(gc), *final(gc), r.slot(), old(gc).slot_content(value.slot())),
            final(gc).value_at(r.slot()) == old(gc).value_at(value.slot()),
            final(gc).next() == old(gc).next(),
            final(gc).level() == old(gc).level(),
            final(gc).frames() == old(gc).frames(),
            final(gc).tombstone() == old(gc).tombstone(),
    {
        self.escaped = true;
        self.local.set(gc, value);
        self.local
    }

    /// Closes the inner scope.
    pub fn close<T>(self, gc: &mut Gc<T>)
        requires
            old(gc).wf(),
            self.inner().is_top_of(*old(gc)),
        ensures
            final(gc).wf(),
            closes(*old(gc), self.inner(), *final(gc)),
    {
        self.scope.close(gc)
    }
}

} // verus!
