//! Heap cells and the allocation chain.
//!
//! Every cell is named by its id, the index of its slot in the arena. A freed
//! cell keeps its slot, empty, so that an id is never handed out twice. The
//! cells that are alive form the allocation chain: the allocator's `head` is
//! the most recently allocated one, and each header's `prev` links to the live
//! cell allocated before it.
use vstd::prelude::*;

verus! {

/// The header of a heap cell.
#[derive(Clone, Copy)]
pub struct GcHeader {
    /// The live cell allocated before this one, if any.
    pub prev: Option<usize>,
    /// Set while the collector finds the cell reachable.
    pub mark: bool,
}

/// Allocator settings.
#[derive(Clone, Copy)]
pub struct Config {
    /// Run a full collection before every allocation.
    pub stress: bool,
}

/// Owns every heap cell, and the head of the allocation chain.
pub struct Allocator<T> {
    pub(crate) head: Option<usize>,
    pub(crate) headers: Vec<GcHeader>,
    pub(crate) payloads: Vec<Option<T>>,
    pub(crate) chain: Ghost<Seq<usize>>,
    pub(crate) config: Config,
}

/// Whether a cell is marked in `headers`.
pub open spec fn marked_in(headers: Seq<GcHeader>) -> spec_fn(usize) -> bool {
    |id: usize| (id as int) < headers.len() && headers[id as int].mark
}

impl<T> Allocator<T> {
    /// The live cells, newest first.
    pub open(crate) spec fn chain(&self) -> Seq<usize> {
        self.chain@
    }

    /// Every cell slot ever allocated, with `None` for a freed one.
    pub open(crate) spec fn cells(&self) -> Seq<Option<T>> {
        self.payloads@
    }

    /// The number of cells ever allocated.
    pub open(crate) spec fn capacity(&self) -> nat {
        self.payloads@.len()
    }

    pub open(crate) spec fn is_marked(&self, id: usize) -> bool {
        id < self.headers@.len() && self.headers@[id as int].mark
    }

    pub open(crate) spec fn live(&self, id: usize) -> bool {
        id < self.payloads@.len() && self.payloads@[id as int] is Some
    }

    pub open(crate) spec fn head(&self) -> Option<usize> {
        self.head
    }

    pub open(crate) spec fn stress(&self) -> bool {
        self.config.stress
    }

    /// The `prev` links spell out `chain`, which holds exactly the live cells.
    pub open(crate) spec fn links_ok(&self) -> bool {
        &&& self.headers@.len() == self.payloads@.len()
        &&& self.chain@.no_duplicates()
        &&& forall|i: int| 0 <= i < self.chain@.len() ==> self.live(#[trigger] self.chain@[i])
        &&& forall|id: usize| self.live(id) ==> self.chain@.contains(id)
        &&& self.head == (if self.chain@.len() == 0 {
            None::<usize>
        } else {
            Some(self.chain@[0])
        })
        &&& forall|i: int|
            0 <= i < self.chain@.len() ==> (#[trigger] self.headers@[self.chain@[i] as int]).prev
                == (if i + 1 < self.chain@.len() {
                Some(self.chain@[i + 1])
            } else {
                None::<usize>
            })
    }

    /// Between collections: the links hold and no cell is marked.
    pub open(crate) spec fn wf(&self) -> bool {
        &&& self.links_ok()
        &&& forall|id: usize| !self.is_marked(id)
    }

    pub(crate) fn new(config: Config) -> (r: Self)
        ensures
            r.wf(),
            r.chain() == Seq::<usize>::empty(),
            r.capacity() == 0,
            r.stress() == config.stress,
    {
        Allocator {
            head: None,
            headers: Vec::new(),
            payloads: Vec::new(),
            chain: Ghost(Seq::empty()),
            config,
        }
    }

    pub(crate) fn is_live(&self, id: usize) -> (r: bool)
        ensures
            r == self.live(id),
    {
        id < self.payloads.len() && self.payloads[id].is_some()
    }

    /// Places `data` in a fresh cell at the front of the chain.
    pub(crate) fn allocate(&mut self, data: T) -> (id: usize)
        requires
            old(self).wf(),
        ensures
            final(self).wf(),
            id == old(self).capacity(),
            final(self).cells() == old(self).cells().push(Some(data)),
            final(self).chain() == seq![id] + old(self).chain(),
            final(self).stress() == old(self).stress(),
    {
        let id = self.payloads.len();
        self.headers.push(GcHeader { prev: self.head, mark: false });
        self.payloads.push(Some(data));
        self.head = Some(id);
        let ghost old_chain = self.chain@;
        self.chain = Ghost(seq![id] + old_chain);
        proof {
            assert(!old_chain.contains(id));
            assert forall|i: int| 0 <= i < self.chain@.len() implies self.live(
                #[trigger] self.chain@[i],
            ) by {
                if i > 0 {
                    assert(self.chain@[i] == old_chain[i - 1]);
                }
            }
            assert forall|x: usize| self.live(x) implies self.chain@.contains(x) by {
                if x != id {
                    assert(self.payloads@[x as int] == old(self).payloads@[x as int]);
                    assert(old(self).live(x));
                    assert(old_chain.contains(x));
                    let j = choose|j: int| 0 <= j < old_chain.len() && old_chain[j] == x;
                    assert(self.chain@[j + 1] == x);
                } else {
                    assert(self.chain@[0] == x);
                }
            }
            assert forall|i: int| 0 <= i < self.chain@.len() implies (
            #[trigger] self.headers@[self.chain@[i] as int]).prev == (if i + 1
                < self.chain@.len() {
                Some(self.chain@[i + 1])
            } else {
                None::<usize>
            }) by {
                if i > 0 {
                    assert(self.chain@[i] == old_chain[i - 1]);
                }
            }
            assert forall|x: usize| !self.is_marked(x) by {
                if x != id {
                    assert(!old(self).is_marked(x));
                }
            }
        }
        id
    }

    /// Walks the chain from the head, frees every unmarked cell, clears the
    /// mark of every other one, and splices the freed cells out of the chain.
    pub(crate) fn sweep(&mut self)
        requires
            old(self).links_ok(),
            forall|id: usize| old(self).is_marked(id) ==> old(self).live(id),
        ensures
            final(self).wf(),
            final(self).chain() == old(self).chain().filter(marked_in(old(self).headers@)),
            final(self).capacity() == old(self).capacity(),
            forall|id: usize|
                id < old(self).capacity() ==> #[trigger] final(self).cells()[id as int] == (if old(
                    self,
                ).live(id) && !old(self).is_marked(id) {
                    None
                } else {
                    old(self).cells()[id as int]
                }),
            final(self).stress() == old(self).stress(),
    {
        let ghost c = self.chain@;
        let ghost h0 = self.headers@;
        let ghost p0 = self.payloads@;
        let ghost pred = marked_in(h0);
        let mut last_live: Option<usize> = None;
        let mut new_head: Option<usize> = None;
        let mut current = self.head;
        let ghost mut k: int = 0;
        proof {
            assert(c.take(0) =~= Seq::<usize>::empty());
            reveal(Seq::filter);
            assert forall|id: usize| (id as int) < h0.len() && h0[id as int].mark implies p0[id as int] is Some by {
                assert(old(self).is_marked(id));
            }
        }
        while current.is_some()
            invariant
                0 <= k <= c.len(),
                c.no_duplicates(),
                h0.len() == p0.len(),
                forall|i: int| 0 <= i < c.len() ==> (#[trigger] c[i] as int) < p0.len() && p0[c[i] as int] is Some,
                forall|id: usize| (id as int) < p0.len() && p0[id as int] is Some ==> c.contains(id),
                forall|i: int|
                    0 <= i < c.len() ==> (#[trigger] h0[c[i] as int]).prev == (if i + 1 < c.len() {
                        Some(c[i + 1])
                    } else {
                        None::<usize>
                    }),
                forall|id: usize| (id as int) < h0.len() && h0[id as int].mark ==> p0[id as int] is Some,
                pred == marked_in(h0),
                self.config == old(self).config,
                self.chain@ == c,
                current == (if k < c.len() {
                    Some(c[k])
                } else {
                    None::<usize>
                }),
                self.headers@.len() == h0.len(),
                self.payloads@.len() == p0.len(),
                c.take(k).filter(pred).no_duplicates(),
                new_head == (if c.take(k).filter(pred).len() > 0 {
                    Some(c.take(k).filter(pred)[0])
                } else {
                    None::<usize>
                }),
                last_live == (if c.take(k).filter(pred).len() > 0 {
                    Some(c.take(k).filter(pred).last())
                } else {
                    None::<usize>
                }),
                forall|j: int|
                    0 <= j < c.take(k).filter(pred).len() - 1 ==> (#[trigger] self.headers@[c.take(
                        k,
                    ).filter(pred)[j] as int]).prev == Some(c.take(k).filter(pred)[j + 1]),
                c.take(k).filter(pred).len() > 0 ==> self.headers@[c.take(k).filter(
                    pred,
                ).last() as int].prev == current,
                forall|id: usize|
                    (id as int) < h0.len() && !c.take(k).contains(id) ==> #[trigger] self.headers@[id as int]
                        == h0[id as int],
                forall|id: usize|
                    (id as int) < h0.len() && c.take(k).contains(id) ==> !(#[trigger] self.headers@[id as int]).mark,
                forall|id: usize|
                    (id as int) < p0.len() ==> #[trigger] self.payloads@[id as int] == (if c.take(k).contains(id) && !pred(id) {
                        None
                    } else {
                        p0[id as int]
                    }),
            decreases c.len() - k,
        {
            let cur = current.unwrap();
            let h = self.headers[cur];
            let prev = h.prev;
            let ghost kept = c.take(k).filter(pred);
            proof {
                assert(c.take(k + 1) =~= c.take(k).push(c[k]));
                c.take(k).lemma_filter_push(c[k], pred);
                assert(!c.take(k).contains(c[k])) by {
                    if c.take(k).contains(c[k]) {
                        let j = choose|j: int| 0 <= j < k && c.take(k)[j] == c[k];
                        assert(c[j] == c[k]);
                    }
                }
                assert forall|j: int| 0 <= j < kept.len() implies kept[j] != c[k] by {
                    c.take(k).lemma_filter_contains_rev(pred, kept[j]);
                    assert(kept.contains(kept[j]));
                }
                assert(h == h0[c[k] as int]);
                if kept.len() > 0 {
                    c.take(k).lemma_filter_contains_rev(pred, kept.last());
                    assert(kept.contains(kept.last()));
                }
            }
            if h.mark {
                self.headers.set(cur, GcHeader { prev, mark: false });
                last_live = Some(cur);
                if new_head.is_none() {
                    new_head = Some(cur);
                }
                proof {
                    let kept2 = c.take(k + 1).filter(pred);
                    assert(kept2 == kept.push(c[k]));
                    assert forall|j: int| 0 <= j < kept2.len() - 1 implies (#[trigger] self.headers@[kept2[j] as int]).prev == Some(kept2[j + 1]) by {
                        assert(kept2[j] == kept[j]);
                        assert(kept[j] != c[k]);
                    }
                }
            } else {
                match last_live {
                    Some(l) => {
                        let lh = self.headers[l];
                        self.headers.set(l, GcHeader { prev, mark: lh.mark });
                    },
                    None => {},
                }
                self.payloads.set(cur, None);
                proof {
                    let kept2 = c.take(k + 1).filter(pred);
                    assert(kept2 == kept);
                    assert forall|j: int| 0 <= j < kept2.len() - 1 implies (#[trigger] self.headers@[kept2[j] as int]).prev == Some(kept2[j + 1]) by {
                        assert(kept[j] != kept.last());
                    }
                }
            }
            proof {
                let t0 = c.take(k);
                let t1 = c.take(k + 1);
                assert forall|id: usize| t1.contains(id) <==> (t0.contains(id) || id == c[k]) by {
                    if t1.contains(id) {
                        let j = choose|j: int| 0 <= j < t1.len() && t1[j] == id;
                        if j < k {
                            assert(t0[j] == id);
                        }
                    }
                    if t0.contains(id) {
                        let j = choose|j: int| 0 <= j < t0.len() && t0[j] == id;
                        assert(t1[j] == id);
                    }
                    if id == c[k] {
                        assert(t1[k] == id);
                    }
                }
                k = k + 1;
            }
            current = prev;
        }
        let ghost kept = c.filter(pred);
        proof {
            assert(c.take(k) =~= c);
        }
        self.head = new_head;
        self.chain = Ghost(kept);
        proof {
            assert forall|i: int| 0 <= i < kept.len() implies self.live(#[trigger] kept[i]) by {
                c.lemma_filter_contains_rev(pred, kept[i]);
                assert(kept.contains(kept[i]));
                assert(c.contains(kept[i]));
            }
            assert forall|id: usize| self.live(id) implies kept.contains(id) by {
                assert(c.contains(id));
                let j = choose|j: int| 0 <= j < c.len() && c[j] == id;
                c.lemma_filter_contains(pred, j);
            }
            assert forall|id: usize| !self.is_marked(id) by {
                if (id as int) < h0.len() && !c.contains(id) {
                    assert(!(p0[id as int] is Some));
                }
            }
        }
    }

    /// Frees every live cell, walking the chain from the newest one.
    pub(crate) fn free_all(&mut self)
        requires
            old(self).wf(),
        ensures
            final(self).wf(),
            final(self).chain() == Seq::<usize>::empty(),
            final(self).capacity() == old(self).capacity(),
            forall|id: usize| id < old(self).capacity() ==> #[trigger] final(self).cells()[id as int] is None,
            final(self).stress() == old(self).stress(),
    {
        let ghost c = self.chain@;
        let ghost p0 = self.payloads@;
        let mut current = self.head;
        let ghost mut k: int = 0;
        proof {
            assert(c.take(0) =~= Seq::<usize>::empty());
        }
        while current.is_some()
            invariant
                0 <= k <= c.len(),
                forall|i: int| 0 <= i < c.len() ==> (#[trigger] c[i] as int) < p0.len(),
                forall|id: usize| (id as int) < p0.len() && p0[id as int] is Some ==> c.contains(id),
                forall|i: int|
                    0 <= i < c.len() ==> (#[trigger] self.headers@[c[i] as int]).prev == (if i + 1 < c.len() {
                        Some(c[i + 1])
                    } else {
                        None::<usize>
                    }),
                self.headers@ == old(self).headers@,
                self.headers@.len() == p0.len(),
                self.config == old(self).config,
                current == (if k < c.len() {
                    Some(c[k])
                } else {
                    None::<usize>
                }),
                self.payloads@.len() == p0.len(),
                forall|id: usize|
                    (id as int) < p0.len() ==> #[trigger] self.payloads@[id as int] == (if c.take(k).contains(id) {
                        None
                    } else {
                        p0[id as int]
                    }),
            decreases c.len() - k,
        {
            let cur = current.unwrap();
            let prev = self.headers[cur].prev;
            self.payloads.set(cur, None);
            proof {
                let t0 = c.take(k);
                let t1 = c.take(k + 1);
                assert forall|id: usize| t1.contains(id) <==> (t0.contains(id) || id == c[k]) by {
                    if t1.contains(id) {
                        let j = choose|j: int| 0 <= j < t1.len() && t1[j] == id;
                        if j < k {
                            assert(t0[j] == id);
                        }
                    }
                    if t0.contains(id) {
                        let j = choose|j: int| 0 <= j < t0.len() && t0[j] == id;
                        assert(t1[j] == id);
                    }
                    if id == c[k] {
                        assert(t1[k] == id);
                    }
                }
                k = k + 1;
            }
            current = prev;
        }
        proof {
            assert(c.take(k) =~= c);
        }
        self.head = None;
        self.chain = Ghost(Seq::empty());
        proof {
            assert forall|id: usize| !self.is_marked(id) by {
                assert(!old(self).is_marked(id));
            }
            assert forall|id: usize| !self.live(id) by {
                if (id as int) < p0.len() && p0[id as int] is Some {
                    assert(c.contains(id));
                }
            }
        }
    }

    /// Reads the mark bit of a cell.
    pub(crate) fn marked(&self, id: usize) -> (r: bool)
        requires
            id < self.headers@.len(),
        ensures
            r == self.is_marked(id),
    {
        self.headers[id].mark
    }

    /// Sets or clears the mark bit of a cell.
    pub(crate) fn set_mark(&mut self, id: usize, v: bool)
        requires
            id < old(self).headers@.len(),
        ensures
            final(self).headers@ == old(self).headers@.update(
                id as int,
                GcHeader { prev: old(self).headers@[id as int].prev, mark: v },
            ),
            final(self).payloads@ == old(self).payloads@,
            final(self).chain() == old(self).chain(),
            final(self).head == old(self).head,
            final(self).config == old(self).config,
            old(self).links_ok() ==> final(self).links_ok(),
            forall|x: usize| x != id ==> final(self).is_marked(x) == old(self).is_marked(x),
            final(self).is_marked(id) == v,
    {
        let h = self.headers[id];
        self.headers.set(id, GcHeader { prev: h.prev, mark: v });
        proof {
            if old(self).links_ok() {
                assert forall|i: int| 0 <= i < self.chain@.len() implies (#[trigger] self.headers@[self.chain@[i] as int]).prev
                    == (if i + 1 < self.chain@.len() {
                    Some(self.chain@[i + 1])
                } else {
                    None::<usize>
                }) by {
                    assert(old(self).headers@[self.chain@[i] as int].prev == self.headers@[self.chain@[i] as int].prev);
                }
            }
        }
    }
}

} // verus!
