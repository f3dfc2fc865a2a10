//! The topological scheduler.
//!
//! A start order is valid when it lists every node exactly once and places
//! every node after everything it needs. The scheduler computes such an
//! order whenever one exists, and reports a fatal error — before anything
//! is spawned — exactly when the `need` edges contain a cycle.

use vstd::prelude::*;
use vstd::seq_lib::*;
use vstd::set_lib::lemma_len_subset;
use vstd::set_lib::lemma_subset_equality;

use crate::errors::InitError;
use crate::graph::DependencyGraph;

verus! {

impl DependencyGraph {
    /// `order` is a valid start order: every node exactly once, and every
    /// needed node placed strictly earlier than the node that needs it.
    pub open spec fn valid_order(self, order: Seq<usize>) -> bool {
        &&& order.len() == self.services@.len()
        &&& order.no_duplicates()
        &&& forall|p: int| 0 <= p < order.len() ==> (#[trigger] order[p]) < self.services@.len()
        &&& forall|p: int, b: usize|
            0 <= p < order.len() && #[trigger] self.edge(order[p], b) ==> exists|q: int|
                0 <= q < p && order[q] == b
    }

    /// Every member of `s` is a node that needs some other member of `s`.
    /// A nonempty such set is exactly a set of nodes caught in a cycle: no
    /// member can ever come first in a start order.
    pub open spec fn confined(self, s: Set<usize>) -> bool {
        &&& forall|a: usize| #[trigger] s.contains(a) ==> a < self.services@.len()
        &&& forall|a: usize| #[trigger] s.contains(a) ==> exists|b: usize|
                s.contains(b) && self.edge(a, b)
    }

    /// Everything node `x` needs is already marked in `em`.
    pub open spec fn cleared(self, em: Seq<bool>, x: usize) -> bool {
        forall|b: usize| #[trigger] self.edge(x, b) ==> em[b as int]
    }

    /// The `need` edges contain a cycle.
    pub open spec fn has_cycle(self) -> bool {
        exists|s: Set<usize>| (#[trigger] self.confined(s)) && exists|x: usize| s.contains(x)
    }

    /// A closed walk along `need` edges — each entry needs the next, and
    /// the last needs the first — witnesses a cycle.
    pub proof fn lemma_cycle_walk(self, walk: Seq<usize>)
        requires
            walk.len() >= 1,
            forall|p: int| 0 <= p < walk.len() ==> (#[trigger] walk[p]) < self.services@.len(),
            forall|p: int| 0 <= p < walk.len() - 1 ==> self.edge(#[trigger] walk[p], walk[p + 1]),
            self.edge(walk[walk.len() - 1], walk[0]),
        ensures
            self.has_cycle(),
    {
        let s = walk.to_set();
        assert(walk.contains(walk[0]));
        assert(s.contains(walk[0]));
        assert forall|a: usize| #[trigger] s.contains(a) implies a < self.services@.len()
            && exists|b: usize| s.contains(b) && self.edge(a, b) by {
            let p = choose|p: int| 0 <= p < walk.len() && walk[p] == a;
            if p < walk.len() - 1 {
                assert(self.edge(walk[p], walk[p + 1]));
                assert(walk.contains(walk[p + 1]));
                assert(s.contains(walk[p + 1]) && self.edge(a, walk[p + 1]));
            } else {
                assert(self.edge(walk[p], walk[0]));
                assert(s.contains(walk[0]) && self.edge(a, walk[0]));
            }
        }
        assert(self.confined(s) && exists|x: usize| s.contains(x));
    }

    /// The set of all node indices below `n` is finite, with `n` members.
    proof fn lemma_index_range(n: usize)
        ensures
            (Set::new(|u: usize| u < n)).finite(),
            (Set::new(|u: usize| u < n)).len() == n,
        decreases n,
    {
        if n == 0 {
            assert(Set::new(|u: usize| u < n) =~= Set::<usize>::empty());
        } else {
            let m = (n - 1) as usize;
            Self::lemma_index_range(m);
            assert(Set::new(|u: usize| u < n) =~= Set::new(|u: usize| u < m).insert(m));
        }
    }

    /// A valid order reaches every node.
    pub proof fn lemma_order_contains_all(self, order: Seq<usize>)
        requires
            self.services@.len() <= usize::MAX,
            self.valid_order(order),
        ensures
            forall|k: usize| k < self.services@.len() ==> order.contains(k),
    {
        let n = self.services@.len() as usize;
        let range = Set::new(|u: usize| u < n);
        Self::lemma_index_range(n);
        order.unique_seq_to_set();
        assert forall|x: usize| order.to_set().contains(x) implies range.contains(x) by {
            assert(order.contains(x));
            let p = choose|p: int| 0 <= p < order.len() && order[p] == x;
            assert(order[p] < self.services@.len());
        }
        assert(order.to_set().subset_of(range));
        lemma_subset_equality(order.to_set(), range);
        assert forall|k: usize| k < self.services@.len() implies order.contains(k) by {
            assert(range.contains(k));
            assert(order.to_set().contains(k));
        }
    }

    /// No node of a confined set appears anywhere in a valid order: its
    /// in-set need would have to stand even earlier, without end.
    proof fn lemma_confined_not_in_order(self, order: Seq<usize>, s: Set<usize>, p: int)
        requires
            self.valid_order(order),
            self.confined(s),
            0 <= p < order.len(),
        ensures
            !s.contains(order[p]),
        decreases p,
    {
        if s.contains(order[p]) {
            let x = order[p];
            let b = choose|b: usize| s.contains(b) && self.edge(x, b);
            assert(self.edge(order[p], b));
            let q = choose|q: int| 0 <= q < p && order[q] == b;
            self.lemma_confined_not_in_order(order, s, q);
            assert(!s.contains(b));
        }
    }

    /// No graph with a valid start order contains a cycle.
    pub proof fn lemma_order_excludes_cycle(self, order: Seq<usize>)
        requires
            self.services@.len() <= usize::MAX,
            self.valid_order(order),
        ensures
            !self.has_cycle(),
    {
        if self.has_cycle() {
            let s = choose|s: Set<usize>|
                (#[trigger] self.confined(s)) && exists|x: usize| s.contains(x);
            let x = choose|x: usize| s.contains(x);
            self.lemma_order_contains_all(order);
            assert(x < self.services@.len());
            assert(order.contains(x));
            let p = choose|p: int| 0 <= p < order.len() && order[p] == x;
            self.lemma_confined_not_in_order(order, s, p);
        }
    }

    /// A graph containing a cycle admits no valid start order at all.
    pub proof fn lemma_cycle_forbids_order(self, order: Seq<usize>)
        requires
            self.services@.len() <= usize::MAX,
            self.has_cycle(),
        ensures
            !self.valid_order(order),
    {
        if self.valid_order(order) {
            self.lemma_order_excludes_cycle(order);
        }
    }

    /// In a valid order, whatever a node needs stands strictly before it:
    /// if `order[pa]` needs `order[pb]`, then `pb < pa`.
    pub proof fn lemma_order_respects_needs(self, order: Seq<usize>, pa: int, pb: int)
        requires
            self.valid_order(order),
            0 <= pa < order.len(),
            0 <= pb < order.len(),
            self.edge(order[pa], order[pb]),
        ensures
            pb < pa,
    {
        let q = choose|q: int| 0 <= q < pa && order[q] == order[pb];
        assert(q == pb);
    }

    /// Emitting a node whose needs are all already emitted keeps every
    /// invariant of the emission loop: the extended order stays duplicate
    /// free, keeps matching the emission marks, and stays prefix closed
    /// under `need` edges.
    proof fn lemma_emit_step(self, ord: Seq<usize>, em: Seq<bool>, f: usize)
        requires
            self.wf(),
            em.len() == self.services@.len(),
            ord.no_duplicates(),
            forall|p: int| 0 <= p < ord.len() ==> (#[trigger] ord[p]) < self.services@.len(),
            forall|u: usize|
                u < self.services@.len() ==> ((#[trigger] em[u as int]) <==> ord.contains(u)),
            forall|p: int, b: usize|
                0 <= p < ord.len() && #[trigger] self.edge(ord[p], b) ==> exists|q: int|
                    0 <= q < p && ord[q] == b,
            f < self.services@.len(),
            !em[f as int],
            self.cleared(em, f),
        ensures
            ord.push(f).no_duplicates(),
            forall|p: int|
                0 <= p < ord.push(f).len() ==> (#[trigger] ord.push(f)[p])
                    < self.services@.len(),
            forall|u: usize|
                u < self.services@.len() ==> ((#[trigger] em.update(f as int, true)[u as int])
                    <==> ord.push(f).contains(u)),
            forall|p: int, b: usize|
                0 <= p < ord.push(f).len() && #[trigger] self.edge(ord.push(f)[p], b)
                    ==> exists|q: int| 0 <= q < p && ord.push(f)[q] == b,
    {
        let ord2 = ord.push(f);
        let em2 = em.update(f as int, true);
        assert(!ord.contains(f));
        assert forall|u: usize| u < self.services@.len() implies ((#[trigger] em2[u as int])
            <==> ord2.contains(u)) by {
            if u == f {
                assert(ord2[ord2.len() - 1] == f);
                assert(ord2.contains(f));
            } else {
                assert(em2[u as int] == em[u as int]);
                if ord.contains(u) {
                    let q = choose|q: int| 0 <= q < ord.len() && ord[q] == u;
                    assert(ord2[q] == u);
                    assert(ord2.contains(u));
                }
                if ord2.contains(u) {
                    let q = choose|q: int| 0 <= q < ord2.len() && ord2[q] == u;
                    assert(q < ord.len());
                    assert(ord.contains(u));
                }
            }
        }
        assert forall|p: int, b: usize|
            0 <= p < ord2.len() && #[trigger] self.edge(ord2[p], b) implies exists|q: int|
            0 <= q < p && ord2[q] == b by {
            if p < ord.len() {
                assert(self.edge(ord[p], b));
                let q = choose|q: int| 0 <= q < p && ord[q] == b;
                assert(ord2[q] == b);
            } else {
                assert(ord2[p] == f);
                assert(self.needs@[f as int]@.contains(b));
                let kk = choose|kk: int|
                    0 <= kk < self.needs@[f as int]@.len() && self.needs@[f as int]@[kk] == b;
                assert(b < self.services@.len());
                assert(em[b as int]);
                assert(ord.contains(b));
                let q = choose|q: int| 0 <= q < ord.len() && ord[q] == b;
                assert(ord2[q] == b && q < p);
            }
        }
    }

    /// A duplicate-free sequence of indices below `n` that is shorter than
    /// `n` must miss some index below `n`.
    proof fn lemma_some_index_missing(n: usize, ord: Seq<usize>)
        requires
            ord.no_duplicates(),
            forall|p: int| 0 <= p < ord.len() ==> (#[trigger] ord[p]) < n,
            ord.len() < n,
        ensures
            exists|u: usize| u < n && !ord.contains(u),
    {
        broadcast use seq_to_set_is_finite;

        let range = Set::new(|u: usize| u < n);
        Self::lemma_index_range(n);
        ord.unique_seq_to_set();
        if forall|u: usize| u < n ==> #[trigger] ord.contains(u) {
            assert forall|u: usize| range.contains(u) implies ord.to_set().contains(u) by {
                assert(ord.contains(u));
            }
            lemma_len_subset(range, ord.to_set());
            assert(false);
        }
    }

    /// An emission run that matches its marks and is still short of the
    /// whole graph has left some node unmarked.
    proof fn lemma_unemitted_exists(n: usize, ord: Seq<usize>, em: Seq<bool>)
        requires
            em.len() == n,
            ord.no_duplicates(),
            forall|p: int| 0 <= p < ord.len() ==> (#[trigger] ord[p]) < n,
            ord.len() < n,
            forall|u: usize| u < n ==> ((#[trigger] em[u as int]) <==> ord.contains(u)),
        ensures
            exists|u: usize| u < n && !em[u as int],
    {
        Self::lemma_some_index_missing(n, ord);
        let u0 = choose|u: usize| u < n && !ord.contains(u);
        assert(u0 < n && !em[u0 as int]);
    }

    /// When some node is unemitted and each unemitted node still needs
    /// another unemitted node, the unemitted nodes form a confined set: the
    /// graph contains a cycle.
    proof fn lemma_stuck_cycle(self, em: Seq<bool>)
        requires
            self.wf(),
            em.len() == self.services@.len(),
            exists|u: usize| u < em.len() && !em[u as int],
            forall|x: usize|
                x < self.services@.len() ==> (em[x as int] || !(#[trigger] self.cleared(em, x))),
        ensures
            self.has_cycle(),
    {
        let stuck = Set::new(|u: usize| u < em.len() && !em[u as int]);
        let u0 = choose|u: usize| u < em.len() && !em[u as int];
        assert(stuck.contains(u0));
        assert forall|a: usize| #[trigger] stuck.contains(a) implies a < self.services@.len()
            && exists|b: usize| stuck.contains(b) && self.edge(a, b) by {
            assert(!em[a as int]);
            assert(em[a as int] || !self.cleared(em, a));
            let b = choose|b: usize| self.edge(a, b) && !em[b as int];
            assert(self.needs@[a as int]@.contains(b));
            let kk = choose|kk: int|
                0 <= kk < self.needs@[a as int]@.len() && self.needs@[a as int]@[kk] == b;
            assert(b < em.len());
            assert(stuck.contains(b));
        }
        assert(self.confined(stuck) && exists|x: usize| stuck.contains(x));
    }

    /// Whether every node that `i` needs is already marked emitted.
    fn ready(&self, emitted: &Vec<bool>, i: usize) -> (r: bool)
        requires
            self.wf(),
            emitted@.len() == self.services@.len(),
            i < self.services@.len(),
        ensures
            r == self.cleared(emitted@, i),
    {
        let row_len = self.needs[i].len();
        let mut k: usize = 0;
        while k < row_len
            invariant
                self.wf(),
                emitted@.len() == self.services@.len(),
                i < self.services@.len(),
                row_len == self.needs@[i as int]@.len(),
                k <= row_len,
                forall|q: int| 0 <= q < k ==> emitted@[(#[trigger] self.needs@[i as int]@[q]) as int],
            decreases row_len - k,
        {
            let b = self.needs[i][k];
            if !emitted[b] {
                proof {
                    assert(self.needs@[i as int]@.contains(b));
                    assert(self.edge(i, b));
                }
                return false;
            }
            k += 1;
        }
        proof {
            assert forall|b: usize| #[trigger] self.edge(i, b) implies emitted@[b as int] by {
                let q = choose|q: int|
                    0 <= q < self.needs@[i as int]@.len() && self.needs@[i as int]@[q] == b;
                assert(emitted@[self.needs@[i as int]@[q] as int]);
            }
        }
        true
    }

    /// Compute a valid start order, or report the cycle that forbids one.
    /// Nothing is spawned on either path; a cycle is found, and fatal,
    /// before any service is launched.
    pub fn toposort(&self) -> (r: Result<Vec<usize>, InitError>)
        requires
            self.wf(),
        ensures
            match r {
                Ok(order) => self.valid_order(order@) && !self.has_cycle(),
                Err(e) => e == InitError::DependencyCycle && self.has_cycle(),
            },
    {
        let n = self.services.len();
        let mut emitted: Vec<bool> = vec![false; n];
        let mut order: Vec<usize> = Vec::new();
        while order.len() < n
            invariant
                self.wf(),
                n == self.services@.len(),
                emitted@.len() == n,
                order@.len() <= n,
                order@.no_duplicates(),
                forall|p: int| 0 <= p < order@.len() ==> (#[trigger] order@[p]) < n,
                forall|u: usize| u < n ==> ((#[trigger] emitted@[u as int]) <==> order@.contains(u)),
                forall|p: int, b: usize|
                    0 <= p < order@.len() && #[trigger] self.edge(order@[p], b) ==> exists|q: int|
                        0 <= q < p && order@[q] == b,
            decreases n - order@.len(),
        {
            let mut i: usize = 0;
            let mut found: Option<usize> = None;
            while i < n
                invariant
                    self.wf(),
                    n == self.services@.len(),
                    emitted@.len() == n,
                    i <= n,
                    match found {
                        Some(f) => f < n && !emitted@[f as int] && self.cleared(emitted@, f),
                        None => forall|x: usize|
                            x < i ==> (emitted@[x as int] || !(#[trigger] self.cleared(
                                emitted@,
                                x,
                            ))),
                    },
                decreases n - i,
            {
                if found.is_none() {
                    if !emitted[i] {
                        if self.ready(&emitted, i) {
                            found = Some(i);
                        }
                    }
                }
                i += 1;
            }
            match found {
                Some(f) => {
                    let ghost prev_order = order@;
                    let ghost prev_emitted = emitted@;
                    proof {
                        self.lemma_emit_step(prev_order, prev_emitted, f);
                    }
                    emitted[f] = true;
                    order.push(f);
                    proof {
                        assert(order@ == prev_order.push(f));
                        assert(emitted@ == prev_emitted.update(f as int, true));
                    }
                },
                None => {
                    proof {
                        Self::lemma_unemitted_exists(n, order@, emitted@);
                        self.lemma_stuck_cycle(emitted@);
                    }
                    return Err(InitError::DependencyCycle);
                },
            }
        }
        proof {
            self.lemma_order_excludes_cycle(order@);
        }
        Ok(order)
    }
}

} // verus!
