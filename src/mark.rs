//! Reachability, and the mark phase that computes it.
use vstd::prelude::*;

use crate::heap::Allocator;
use crate::Gc;
use crate::Trace;
use crate::Tracer;

verus! {

/// Whether `a` reported `b` among its members.
pub open spec fn step(edges: Map<usize, Seq<usize>>, a: usize, b: usize) -> bool {
    edges.dom().contains(a) && edges[a].contains(b)
}

/// A path of the object graph: it starts at a root, visits live cells only,
/// and each step follows a member that the previous cell's trace reported.
pub open spec fn is_path(
    path: Seq<usize>,
    roots: Set<usize>,
    edges: Map<usize, Seq<usize>>,
    live: Set<usize>,
) -> bool {
    &&& path.len() > 0
    &&& roots.contains(path[0])
    &&& forall|i: int| 0 <= i < path.len() ==> live.contains(#[trigger] path[i])
    &&& forall|i: int| 0 <= i < path.len() - 1 ==> #[trigger] step(edges, path[i], path[i + 1])
}

/// Whether some path ends at `x`.
pub open spec fn reachable(
    x: usize,
    roots: Set<usize>,
    edges: Map<usize, Seq<usize>>,
    live: Set<usize>,
) -> bool {
    exists|path: Seq<usize>| #[trigger] is_path(path, roots, edges, live) && path.last() == x
}

/// A path stays a path when more cells have reported their members.
pub proof fn lemma_path_more_edges(
    path: Seq<usize>,
    roots: Set<usize>,
    edges: Map<usize, Seq<usize>>,
    more: Map<usize, Seq<usize>>,
    live: Set<usize>,
)
    requires
        is_path(path, roots, edges, live),
        edges.submap_of(more),
    ensures
        is_path(path, roots, more, live),
{
    assert forall|i: int| 0 <= i < path.len() - 1 implies #[trigger] step(more, path[i], path[i + 1]) by {
        let k = path[i];
        assert(step(edges, k, path[i + 1]));
        assert(edges.dom().contains(k));
        assert(more.dom().contains(k) && edges[k] == more[k]);
    }
}

/// A path grows by one step along a reported member.
pub proof fn lemma_path_step(
    path: Seq<usize>,
    roots: Set<usize>,
    edges: Map<usize, Seq<usize>>,
    live: Set<usize>,
    y: usize,
)
    requires
        is_path(path, roots, edges, live),
        edges.dom().contains(path.last()),
        edges[path.last()].contains(y),
        live.contains(y),
    ensures
        is_path(path.push(y), roots, edges, live),
        path.push(y).last() == y,
{
    let q = path.push(y);
    assert forall|i: int| 0 <= i < q.len() implies live.contains(#[trigger] q[i]) by {
        if i < path.len() {
            assert(q[i] == path[i]);
        }
    }
    assert forall|i: int| 0 <= i < q.len() - 1 implies #[trigger] step(edges, q[i], q[i + 1]) by {
        assert(q[i] == path[i]);
        if i < path.len() - 1 {
            assert(q[i + 1] == path[i + 1]);
            assert(step(edges, path[i], path[i + 1]));
        }
    }
}

/// Every cell on a path is in a set that holds the live roots and that is
/// closed under the members its elements reported.
pub proof fn lemma_path_closed(
    path: Seq<usize>,
    roots: Set<usize>,
    edges: Map<usize, Seq<usize>>,
    live: Set<usize>,
    marked: Set<usize>,
)
    requires
        is_path(path, roots, edges, live),
        forall|r: usize| roots.contains(r) && live.contains(r) ==> marked.contains(r),
        forall|x: usize| marked.contains(x) ==> edges.dom().contains(x),
        forall|x: usize, y: usize|
            #![trigger marked.contains(x), edges[x].contains(y)]
            marked.contains(x) && edges[x].contains(y) && live.contains(y) ==> marked.contains(y),
    ensures
        marked.contains(path.last()),
    decreases path.len(),
{
    if path.len() == 1 {
        assert(live.contains(path[0]));
    } else {
        let p = path.drop_last();
        assert forall|i: int| 0 <= i < p.len() implies live.contains(#[trigger] p[i]) by {
            assert(p[i] == path[i]);
        }
        assert forall|i: int| 0 <= i < p.len() - 1 implies #[trigger] step(edges, p[i], p[i + 1]) by {
            assert(p[i] == path[i]);
            assert(p[i + 1] == path[i + 1]);
            assert(step(edges, path[i], path[i + 1]));
        }
        lemma_path_closed(p, roots, edges, live, marked);
        let k = path.len() - 2;
        assert(step(edges, path[k], path[k + 1]));
        assert(path[k] == p.last());
        assert(live.contains(path[k + 1]));
    }
}

impl<T: Trace> Gc<T> {
    /// The members of every live cell, as its payload's `members` names them.
    pub open(crate) spec fn member_map(&self) -> Map<usize, Seq<usize>> {
        Map::new(
            |x: usize| self.allocator.live(x),
            |x: usize| self.allocator.payloads@[x as int]->Some_0.members(),
        )
    }

    /// The cells whose mark bit is set.
    pub open(crate) spec fn marked_set(&self) -> Set<usize> {
        Set::new(|x: usize| self.allocator.is_marked(x))
    }

    /// Every reported member that is live is marked, except those at index
    /// `from` or later in the report of `pending`.
    pub open(crate) spec fn closed_but(&self, pending: Option<usize>, from: int) -> bool {
        forall|x: usize, k: int|
            #![trigger self.traced@[x][k]]
            self.traced@.dom().contains(x) && 0 <= k < self.traced@[x].len() && self.allocator.live(
                self.traced@[x][k],
            ) && !(pending == Some(x) && k >= from) ==> self.allocator.is_marked(self.traced@[x][k])
    }

    /// What holds of the marks while the mark phase runs; `stack` holds the
    /// marked cells whose trace has not run yet.
    pub open(crate) spec fn mark_inv(&self, stack: Seq<usize>) -> bool {
        &&& self.scope_data.wf()
        &&& self.allocator.links_ok()
        &&& forall|x: usize|
            #[trigger] self.allocator.is_marked(x) ==> self.allocator.live(x) && reachable(
                x,
                self.roots(),
                self.traced@,
                self.live_set(),
            )
        &&& forall|x: usize|
            #[trigger] self.traced@.dom().contains(x) ==> self.allocator.is_marked(x) && self.traced@[x]
                == self.allocator.payloads@[x as int]->Some_0.members()
        &&& forall|x: usize|
            #[trigger] self.allocator.is_marked(x) ==> self.traced@.dom().contains(x) || stack.contains(x)
        &&& forall|i: int|
            0 <= i < stack.len() ==> self.allocator.is_marked(#[trigger] stack[i]) && !self.traced@.dom().contains(
                stack[i],
            )
        &&& stack.no_duplicates()
    }

    proof fn lemma_marked_finite(&self)
        requires
            self.allocator.links_ok(),
            forall|x: usize| #[trigger] self.allocator.is_marked(x) ==> self.allocator.live(x),
        ensures
            self.marked_set().finite(),
            self.live_set().finite(),
            self.marked_set().len() <= self.live_set().len(),
    {
        vstd::seq_lib::seq_to_set_is_finite(self.allocator.chain());
        assert(self.marked_set().subset_of(self.live_set())) by {
            assert forall|x: usize| self.marked_set().contains(x) implies self.live_set().contains(x) by {
                assert(self.allocator.is_marked(x));
                assert(self.allocator.chain().contains(x));
            }
        }
        vstd::set_lib::lemma_len_subset(self.marked_set(), self.live_set());
    }

    /// Marks `root` and every live cell that the traces reach from it.
    fn mark_from(&mut self, root: usize)
        requires
            old(self).mark_inv(Seq::empty()),
            old(self).closed_but(None, 0),
            old(self).roots().contains(root),
            old(self).allocator.live(root),
            !old(self).allocator.is_marked(root),
        ensures
            final(self).mark_inv(Seq::empty()),
            final(self).closed_but(None, 0),
            final(self).allocator.is_marked(root),
            forall|x: usize| old(self).allocator.is_marked(x) ==> #[trigger] final(self).allocator.is_marked(x),
            old(self).traced@.submap_of(final(self).traced@),
            final(self).scope_data == old(self).scope_data,
            final(self).allocator.chain() == old(self).allocator.chain(),
            final(self).allocator.cells() == old(self).allocator.cells(),
            final(self).allocator.config == old(self).allocator.config,
    {
        let ghost roots = self.roots();
        let ghost live = self.live_set();
        self.allocator.set_mark(root, true);
        let mut stack: Vec<usize> = Vec::new();
        stack.push(root);
        proof {
            let p = seq![root];
            assert(is_path(p, roots, self.traced@, live)) by {
                assert(self.allocator.chain().contains(root));
            }
            assert(p.last() == root);
            assert forall|x: usize| #[trigger] self.allocator.is_marked(x) implies self.allocator.live(x)
                && reachable(x, roots, self.traced@, live) by {
                if x != root {
                    assert(old(self).allocator.is_marked(x));
                }
            }
            assert forall|x: usize| #[trigger] self.allocator.is_marked(x) implies self.traced@.dom().contains(x)
                || stack@.contains(x) by {
                if x != root {
                    assert(old(self).allocator.is_marked(x));
                } else {
                    assert(stack@[0] == root);
                }
            }
            self.lemma_marked_finite();
        }
        while stack.len() > 0
            invariant
                self.mark_inv(stack@),
                self.closed_but(None, 0),
                roots == self.roots(),
                live == self.live_set(),
                self.allocator.is_marked(root),
                forall|x: usize| old(self).allocator.is_marked(x) ==> #[trigger] self.allocator.is_marked(x),
                old(self).traced@.submap_of(self.traced@),
                self.scope_data == old(self).scope_data,
                self.allocator.chain() == old(self).allocator.chain(),
                self.allocator.cells() == old(self).allocator.cells(),
                self.allocator.config == old(self).allocator.config,
                self.marked_set().finite(),
                self.marked_set().len() <= live.len(),
            decreases 2 * (live.len() - self.marked_set().len()) + stack@.len(),
        {
            let ghost m0 = 2 * (live.len() - self.marked_set().len()) + stack@.len();
            let ghost s0 = stack@;
            let x = stack.pop().unwrap();
            proof {
                assert(s0 == stack@.push(x));
                assert(s0[s0.len() - 1] == x);
                assert forall|i: int| 0 <= i < stack@.len() implies stack@[i] != x by {
                    assert(s0[i] == stack@[i]);
                }
            }
            let mut tracer = Tracer::new();
            match &self.allocator.payloads[x] {
                Some(data) => {
                    data.trace(&mut tracer);
                    proof {
                        assert(tracer.found() =~= data.members());
                    }
                },
                None => {},
            }
            proof {
                assert(self.allocator.is_marked(s0[s0.len() - 1]));
                assert(self.allocator.live(x));
                assert(tracer.found() == self.allocator.payloads@[x as int]->Some_0.members());
            }
            let found = tracer.found;
            let ghost e0 = self.traced@;
            self.traced = Ghost(self.traced@.insert(x, found@));
            proof {
                assert(e0.submap_of(self.traced@));
                assert forall|y: usize| #[trigger] self.allocator.is_marked(y) implies self.allocator.live(y)
                    && reachable(y, roots, self.traced@, live) by {
                    let p = choose|p: Seq<usize>| #[trigger] is_path(p, roots, e0, live) && p.last() == y;
                    lemma_path_more_edges(p, roots, e0, self.traced@, live);
                }
                assert forall|y: usize| #[trigger] self.allocator.is_marked(y) implies self.traced@.dom().contains(y)
                    || stack@.contains(y) by {
                    if y != x && !e0.dom().contains(y) {
                        assert(s0.contains(y));
                        let i = choose|i: int| 0 <= i < s0.len() && s0[i] == y;
                        assert(stack@[i] == y);
                    }
                }
                assert(stack@.no_duplicates()) by {
                    assert forall|i: int, j: int| 0 <= i < stack@.len() && 0 <= j < stack@.len() && i != j implies stack@[i] != stack@[j] by {
                        assert(s0[i] == stack@[i] && s0[j] == stack@[j]);
                    }
                }
                assert(old(self).traced@.submap_of(self.traced@)) by {
                    assert forall|k: usize| old(self).traced@.dom().contains(k) implies self.traced@.dom().contains(k)
                        && self.traced@[k] == old(self).traced@[k] by {
                        assert(e0.dom().contains(k));
                    }
                }
                assert(self.closed_but(Some(x), 0));
            }
            let mut j: usize = 0;
            while j < found.len()
                invariant
                    self.mark_inv(stack@),
                    self.closed_but(Some(x), j as int),
                    self.traced@.dom().contains(x),
                    self.traced@[x] == found@,
                    j <= found.len(),
                    roots == self.roots(),
                    live == self.live_set(),
                    self.allocator.is_marked(root),
                    forall|y: usize| old(self).allocator.is_marked(y) ==> #[trigger] self.allocator.is_marked(y),
                    old(self).traced@.submap_of(self.traced@),
                    self.scope_data == old(self).scope_data,
                    self.allocator.chain() == old(self).allocator.chain(),
                    self.allocator.cells() == old(self).allocator.cells(),
                    self.allocator.config == old(self).allocator.config,
                    self.marked_set().finite(),
                    self.marked_set().len() <= live.len(),
                    2 * (live.len() - self.marked_set().len()) + stack@.len() <= m0 - 1,
                decreases found.len() - j,
            {
                let y = found[j];
                if self.allocator.is_live(y) && !self.allocator.marked(y) {
                    let ghost m_before = self.marked_set();
                    let ghost st_before = stack@;
                    let ghost a0 = self.allocator;
                    self.allocator.set_mark(y, true);
                    stack.push(y);
                    proof {
                        assert(self.marked_set() =~= m_before.insert(y));
                        assert(!m_before.contains(y));
                        assert forall|z: usize| #[trigger] self.allocator.is_marked(z) implies self.allocator.live(z) by {
                            if z != y {
                                assert(a0.is_marked(z));
                            }
                        }
                        self.lemma_marked_finite();
                        assert(a0.is_marked(x));
                        assert(reachable(x, roots, self.traced@, live));
                        let px = choose|p: Seq<usize>| #[trigger] is_path(p, roots, self.traced@, live) && p.last() == x;
                        assert(found@[j as int] == y);
                        assert(self.traced@[x].contains(y));
                        assert(live.contains(y)) by {
                            assert(self.allocator.chain().contains(y));
                        }
                        lemma_path_step(px, roots, self.traced@, live, y);
                        assert forall|z: usize| #[trigger] self.allocator.is_marked(z) implies self.allocator.live(z)
                            && reachable(z, roots, self.traced@, live) by {
                            if z != y {
                                assert(a0.is_marked(z));
                            } else {
                                assert(is_path(px.push(y), roots, self.traced@, live));
                            }
                        }
                        assert forall|z: usize| #[trigger] self.allocator.is_marked(z) implies self.traced@.dom().contains(z)
                            || stack@.contains(z) by {
                            if z != y {
                                assert(a0.is_marked(z));
                                if st_before.contains(z) {
                                    let i = choose|i: int| 0 <= i < st_before.len() && st_before[i] == z;
                                    assert(stack@[i] == z);
                                }
                            } else {
                                assert(stack@[stack@.len() - 1] == y);
                            }
                        }
                        assert forall|i: int| 0 <= i < stack@.len() implies self.allocator.is_marked(#[trigger] stack@[i])
                            && !self.traced@.dom().contains(stack@[i]) by {
                            if i < st_before.len() {
                                assert(stack@[i] == st_before[i]);
                                assert(a0.is_marked(st_before[i]));
                            }
                        }
                        assert(stack@.no_duplicates()) by {
                            assert forall|i: int, k: int| 0 <= i < stack@.len() && 0 <= k < stack@.len() && i != k implies stack@[i] != stack@[k] by {
                                if i < st_before.len() {
                                    assert(stack@[i] == st_before[i]);
                                    assert(a0.is_marked(st_before[i]));
                                }
                                if k < st_before.len() {
                                    assert(stack@[k] == st_before[k]);
                                    assert(a0.is_marked(st_before[k]));
                                }
                            }
                        }
                        assert forall|z: usize| #[trigger] self.traced@.dom().contains(z) implies self.allocator.is_marked(z) by {
                            assert(a0.is_marked(z));
                        }
                        assert forall|z: usize| old(self).allocator.is_marked(z) implies #[trigger] self.allocator.is_marked(z) by {
                            assert(a0.is_marked(z));
                        }
                        assert(self.closed_but(Some(x), j as int + 1)) by {
                            assert forall|w: usize, k: int|
                                self.traced@.dom().contains(w) && 0 <= k < self.traced@[w].len() && self.allocator.live(
                                    #[trigger] self.traced@[w][k],
                                ) && !(Some(x) == Some(w) && k >= j as int + 1) implies self.allocator.is_marked(self.traced@[w][k]) by {
                                if self.traced@[w][k] != y {
                                    assert(a0.is_marked(self.traced@[w][k]));
                                }
                            }
                        }
                    }
                } else {
                    proof {
                        assert(found@[j as int] == y);
                        assert(self.closed_but(Some(x), j as int + 1)) by {
                            assert forall|w: usize, k: int|
                                self.traced@.dom().contains(w) && 0 <= k < self.traced@[w].len() && self.allocator.live(
                                    #[trigger] self.traced@[w][k],
                                ) && !(Some(x) == Some(w) && k >= j as int + 1) implies self.allocator.is_marked(self.traced@[w][k]) by {
                                if w == x && k == j as int {
                                    assert(self.traced@[w][k] == y);
                                }
                            }
                        }
                    }
                }
                j = j + 1;
            }
            proof {
                assert(self.closed_but(None, 0)) by {
                    assert forall|w: usize, k: int|
                        self.traced@.dom().contains(w) && 0 <= k < self.traced@[w].len() && self.allocator.live(
                            #[trigger] self.traced@[w][k],
                        ) && !(None::<usize> == Some(w) && k >= 0) implies self.allocator.is_marked(self.traced@[w][k]) by {
                        assert(!(Some(x) == Some(w) && k >= j as int));
                    }
                }
            }
        }
    }

    /// The mark phase: marks exactly the live cells that a path reaches.
    pub(crate) fn mark(&mut self)
        requires
            old(self).wf(),
        ensures
            final(self).allocator.links_ok(),
            forall|x: usize| #[trigger] final(self).allocator.is_marked(x) ==> final(self).allocator.live(x),
            forall|x: usize|
                #[trigger] final(self).allocator.is_marked(x) <==> old(self).allocator.live(x) && reachable(
                    x,
                    old(self).roots(),
                    old(self).member_map(),
                    old(self).live_set(),
                ),
            final(self).scope_data == old(self).scope_data,
            final(self).allocator.chain() == old(self).allocator.chain(),
            final(self).allocator.cells() == old(self).allocator.cells(),
            final(self).allocator.config == old(self).allocator.config,
    {
        self.traced = Ghost(Map::empty());
        let roots = self.scope_data.collect_roots();
        let ghost live = self.live_set();
        proof {
            assert forall|x: usize| #[trigger] self.allocator.is_marked(x) implies false by {
                assert(!old(self).allocator.is_marked(x));
            }
        }
        let mut i: usize = 0;
        while i < roots.len()
            invariant
                self.mark_inv(Seq::empty()),
                self.closed_but(None, 0),
                i <= roots@.len(),
                roots@ == self.scope_data.scan_seq(),
                forall|k: int|
                    0 <= k < i && (#[trigger] roots@[k]) is Some && self.allocator.live(roots@[k]->Some_0)
                        ==> self.allocator.is_marked(roots@[k]->Some_0),
                live == self.live_set(),
                self.scope_data == old(self).scope_data,
                self.allocator.chain() == old(self).allocator.chain(),
                self.allocator.cells() == old(self).allocator.cells(),
                self.allocator.config == old(self).allocator.config,
            decreases roots@.len() - i,
        {
            match roots[i] {
                Some(r) => {
                    if self.allocator.is_live(r) && !self.allocator.marked(r) {
                        proof {
                            assert(roots@[i as int] == Some(r));
                            assert(self.scope_data.scan_seq().contains(Some(r)));
                        }
                        self.mark_from(r);
                    }
                },
                None => {},
            }
            i = i + 1;
        }
        proof {
            let roots_set = self.roots();
            let e = self.traced@;
            let m = self.marked_set();
            assert forall|r: usize| roots_set.contains(r) && live.contains(r) implies m.contains(r) by {
                assert(roots@.contains(Some(r)));
                let k = choose|k: int| 0 <= k < roots@.len() && roots@[k] == Some(r);
                assert(roots@[k] is Some && roots@[k]->Some_0 == r);
                assert(self.allocator.live(r));
            }
            assert forall|x: usize| m.contains(x) implies e.dom().contains(x) by {
                assert(self.allocator.is_marked(x));
            }
            assert forall|x: usize, y: usize|
                #![trigger m.contains(x), e[x].contains(y)]
                m.contains(x) && e[x].contains(y) && live.contains(y) implies m.contains(y) by {
                assert(self.allocator.is_marked(x));
                let k = choose|k: int| 0 <= k < e[x].len() && e[x][k] == y;
                assert(self.allocator.live(e[x][k]));
            }
            let mm = old(self).member_map();
            assert(self.member_map() == mm);
            assert(e.submap_of(mm)) by {
                assert forall|k: usize| #[trigger] e.dom().contains(k) implies mm.dom().contains(k) && e[k] == mm[k] by {
                    assert(self.allocator.is_marked(k));
                }
            }
            assert forall|x: usize, y: usize|
                #![trigger m.contains(x), mm[x].contains(y)]
                m.contains(x) && mm[x].contains(y) && live.contains(y) implies m.contains(y) by {
                assert(self.allocator.is_marked(x));
                assert(e.dom().contains(x));
                assert(e[x] == mm[x]);
                let k = choose|k: int| 0 <= k < e[x].len() && e[x][k] == y;
                assert(self.allocator.live(e[x][k]));
            }
            assert forall|x: usize| m.contains(x) implies mm.dom().contains(x) by {
                assert(self.allocator.is_marked(x));
            }
            assert forall|x: usize|
                #[trigger] self.allocator.is_marked(x) <==> old(self).allocator.live(x) && reachable(
                    x,
                    old(self).roots(),
                    mm,
                    old(self).live_set(),
                ) by {
                if self.allocator.is_marked(x) {
                    assert(reachable(x, roots_set, e, live));
                    let p = choose|p: Seq<usize>| #[trigger] is_path(p, roots_set, e, live) && p.last() == x;
                    lemma_path_more_edges(p, roots_set, e, mm, live);
                }
                if old(self).allocator.live(x) && reachable(x, roots_set, mm, live) {
                    let p = choose|p: Seq<usize>| #[trigger] is_path(p, roots_set, mm, live) && p.last() == x;
                    lemma_path_closed(p, roots_set, mm, live, m);
                }
            }
        }
    }
}

} // verus!
