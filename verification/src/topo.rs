use vstd::prelude::*;

use crate::errors::GraphError;
use crate::graph::contains_key;
use crate::graph::keys_of;
use crate::graph::DirectedGraph;
use crate::node::NodeData;

verus! {

impl DirectedGraph {
    /// The arena indices in `s` block each other: each has an incoming
    /// edge from inside `s`.
    pub open spec fn blocked_set(self, s: Set<int>) -> bool {
        &&& s.finite()
        &&& exists|v: int| s.contains(v)
        &&& forall|v: int| s.contains(v) ==> 0 <= v < self.node_seq().len()
        &&& forall|v: int| #[trigger]
            s.contains(v) ==> exists|i: int|
                0 <= i < self.edge_seq().len() && (#[trigger] self.edge_seq()[i]).dst as int == v
                    && s.contains(self.edge_seq()[i].src as int)
    }

    /// The graph holds a directed cycle (a self-loop counts): some
    /// nonempty set of nodes in which every member has an in-edge from the
    /// set. Every cycle's nodes form such a set, and following in-edges
    /// inside a finite set must close a cycle.
    pub open spec fn cyclic(self) -> bool {
        exists|s: Set<int>| self.blocked_set(s)
    }
}

/// Some position of `order` holds index `u`.
pub open spec fn order_contains(order: Seq<usize>, u: int) -> bool {
    exists|a: int| 0 <= a < order.len() && order[a] == u
}

/// A node list that emits every arena index exactly once and never emits a
/// node before all its in-edge sources: a topological order, by indices.
pub open spec fn order_respects_edges(g: DirectedGraph, order: Seq<usize>) -> bool {
    &&& forall|a: int, b: int| 0 <= a < b < order.len() ==> order[a] != order[b]
    &&& forall|a: int| 0 <= a < order.len() ==> (#[trigger] order[a]) < g.node_seq().len()
    &&& forall|a: int, i: int|
        #![trigger g.edge_seq()[i], order[a]]
        0 <= a < order.len() && 0 <= i < g.edge_seq().len() && g.edge_seq()[i].dst == order[a]
            ==> exists|b: int| 0 <= b < a && order[b] == g.edge_seq()[i].src
}

/// Within a complete edge-respecting order, no emitted node can sit in a
/// blocked set: its in-edges come from strictly earlier nodes.
proof fn lemma_no_blocked_at(g: DirectedGraph, order: Seq<usize>, s: Set<int>, p: int)
    requires
        g.wf(),
        g.blocked_set(s),
        order_respects_edges(g, order),
        0 <= p < order.len(),
    ensures
        !s.contains(order[p] as int),
    decreases p,
{
    if s.contains(order[p] as int) {
        let i = choose|i: int|
            0 <= i < g.edge_seq().len() && (#[trigger] g.edge_seq()[i]).dst as int == order[p] as int
                && s.contains(g.edge_seq()[i].src as int);
        assert(g.edge_seq()[i].dst == order[p]);
        let b = choose|b: int| 0 <= b < p && order[b] == g.edge_seq()[i].src;
        lemma_no_blocked_at(g, order, s, b);
    }
}

/// A complete edge-respecting order rules every blocked set out: the graph
/// is acyclic.
proof fn lemma_complete_order_acyclic(g: DirectedGraph, order: Seq<usize>)
    requires
        g.wf(),
        order_respects_edges(g, order),
        forall|u: int| 0 <= u < g.node_seq().len() ==> #[trigger] order_contains(order, u),
    ensures
        !g.cyclic(),
{
    if g.cyclic() {
        let s = choose|s: Set<int>| g.blocked_set(s);
        let v = choose|v: int| s.contains(v);
        assert(order_contains(order, v));
        let a = choose|a: int| 0 <= a < order.len() && order[a] == v;
        lemma_no_blocked_at(g, order, s, a);
    }
}

/// An order that misses some index among `0 .. n` is shorter than `n`;
/// equivalently, one that covers every emitted index with fewer than `n`
/// entries leaves some index unemitted.
proof fn lemma_unemitted_exists(order: Seq<usize>, emitted: Seq<bool>, n: int)
    requires
        emitted.len() == n,
        order.len() < n,
        forall|a: int, b: int| 0 <= a < b < order.len() ==> order[a] != order[b],
        forall|u: int| 0 <= u < n ==> (emitted[u] <==> #[trigger] order_contains(order, u)),
    ensures
        exists|u: int| 0 <= u < n && !emitted[u],
{
    broadcast use vstd::set::group_set_axioms;

    if forall|u: int| 0 <= u < n ==> emitted[u] {
        let mapped = order.map_values(|u: usize| u as int);
        assert forall|u: int| vstd::set_lib::set_int_range(0, n).contains(u) implies mapped.to_set().contains(u) by {
            assert(emitted[u]);
            assert(order_contains(order, u));
            let a = choose|a: int| 0 <= a < order.len() && order[a] == u;
            assert(mapped[a] == u);
            assert(mapped.contains(u));
        }
        vstd::set_lib::lemma_int_range(0, n);
        vstd::set_lib::lemma_len_subset(vstd::set_lib::set_int_range(0, n), mapped.to_set());
        mapped.lemma_cardinality_of_set();
        assert(n <= mapped.to_set().len());
        assert(mapped.to_set().len() <= mapped.len());
        assert(false);
    }
}


/// A duplicate-free list of indices below `n` that misses some index has
/// fewer than `n` entries.
proof fn lemma_order_len_bound(order: Seq<usize>, n: int, f: int)
    requires
        forall|a: int, b: int| 0 <= a < b < order.len() ==> order[a] != order[b],
        forall|a: int| 0 <= a < order.len() ==> (#[trigger] order[a]) < n,
        0 <= f < n,
        !order_contains(order, f),
    ensures
        order.len() < n,
{
    broadcast use vstd::set::group_set_axioms;

    let mapped = order.map_values(|u: usize| u as int);
    assert(mapped.no_duplicates()) by {
        assert forall|a: int, b: int|
            0 <= a < mapped.len() && 0 <= b < mapped.len() && a != b implies mapped[a]
            != mapped[b] by {
            if a < b {
                assert(order[a] != order[b]);
            } else {
                assert(order[b] != order[a]);
            }
        }
    }
    mapped.unique_seq_to_set();
    let range = vstd::set_lib::set_int_range(0, n);
    vstd::set_lib::lemma_int_range(0, n);
    assert forall|x: int| mapped.to_set().contains(x) implies range.remove(f).contains(x) by {
        let a = choose|a: int| 0 <= a < mapped.len() && mapped[a] == x;
        assert(order[a] == x);
        if x == f {
            assert(order_contains(order, f));
        }
    }
    vstd::set::axiom_set_remove_len(range, f);
    vstd::set_lib::lemma_len_subset(mapped.to_set(), range.remove(f));
}

impl DirectedGraph {
    /// Order the nodes so that every edge leads from an earlier to a later
    /// entry. Succeeds exactly on acyclic graphs, with a permutation of
    /// the node values; a self-loop, like any other cycle, makes the order
    /// impossible and is reported as `CycleDetected`, carrying the nodes
    /// on which the ordering got stuck.
    pub fn topological_sort(&self) -> (r: Result<Vec<NodeData>, GraphError>)
        requires
            self.wf(),
        ensures
            (r is Ok) <==> !self.cyclic(),
            r matches Err(e) ==> (e matches GraphError::CycleDetected(rem) && rem@.len() > 0
                && forall|k: int|
                0 <= k < rem@.len() ==> contains_key(self.node_seq(), (#[trigger] rem@[k])@)),
            r matches Ok(out) ==> {
                &&& out@.len() == self.node_seq().len()
                &&& keys_of(out@).no_duplicates()
                &&& forall|p: int|
                    0 <= p < out@.len() ==> contains_key(self.node_seq(), #[trigger] out@[p]@)
                &&& forall|p: int, q: int|
                    0 <= q <= p < out@.len() ==> !self.has_edge_key(out@[p]@, out@[q]@)
            },
    {
        let n = self.node_count();
        let m = self.edge_count();
        let mut emitted: Vec<bool> = Vec::new();
        for v in 0..n
            invariant
                emitted@.len() == v,
                forall|u: int| 0 <= u < v ==> !emitted@[u],
        {
            emitted.push(false);
        }
        let mut order: Vec<usize> = Vec::new();
        loop
            invariant
                self.wf(),
                n == self.node_seq().len(),
                m == self.edge_seq().len(),
                emitted@.len() == n,
                order@.len() <= n,
                order_respects_edges(*self, order@),
                forall|u: int|
                    0 <= u < n ==> (emitted@[u] <==> #[trigger] order_contains(order@, u)),
            ensures
                self.wf(),
                n == self.node_seq().len(),
                emitted@.len() == n,
                order@.len() <= n,
                order_respects_edges(*self, order@),
                forall|u: int|
                    0 <= u < n ==> (emitted@[u] <==> #[trigger] order_contains(order@, u)),
                forall|u: int|
                    0 <= u < n && !emitted@[u] ==> exists|i: int|
                        0 <= i < m && (#[trigger] self.edge_seq()[i]).dst as int == u
                            && !emitted@[self.edge_seq()[i].src as int],
            decreases n - order@.len(),
        {
            let mut found: Option<usize> = None;
            let mut v: usize = 0;
            while v < n
                invariant
                    self.wf(),
                    n == self.node_seq().len(),
                    m == self.edge_seq().len(),
                    emitted@.len() == n,
                    v <= n,
                    match found {
                        Some(f) => f < n && !emitted@[f as int] && forall|i: int|
                            0 <= i < m && (#[trigger] self.edge_seq()[i]).dst == f ==> emitted@[self.edge_seq()[i].src as int],
                        None => forall|u: int|
                            0 <= u < v && !emitted@[u] ==> exists|i: int|
                                0 <= i < m && (#[trigger] self.edge_seq()[i]).dst as int == u
                                    && !emitted@[self.edge_seq()[i].src as int],
                    },
                decreases n - v,
            {
                if found.is_none() && !emitted[v] {
                    let mut blocked = false;
                    let mut i: usize = 0;
                    while i < m
                        invariant
                            self.wf(),
                            n == self.node_seq().len(),
                            m == self.edge_seq().len(),
                            emitted@.len() == n,
                            v < n,
                            i <= m,
                            !blocked ==> forall|j: int|
                                0 <= j < i ==> !((#[trigger] self.edge_seq()[j]).dst == v
                                    && !emitted@[self.edge_seq()[j].src as int]),
                            blocked ==> exists|j: int|
                                0 <= j < m && (#[trigger] self.edge_seq()[j]).dst as int == v as int
                                    && !emitted@[self.edge_seq()[j].src as int],
                        decreases m - i,
                    {
                        let e = self.edge_at(i);
                        if e.dst == v && !emitted[e.src] {
                            blocked = true;
                        }
                        i = i + 1;
                    }
                    if !blocked {
                        found = Some(v);
                    }
                }
                v = v + 1;
            }
            match found {
                Some(f) => {
                    let ghost order0 = order@;
                    let ghost emitted0 = emitted@;
                    proof {
                        assert(!order_contains(order0, f as int));
                        lemma_order_len_bound(order0, n as int, f as int);
                    }
                    emitted.set(f, true);
                    order.push(f);
                    proof {
                        assert forall|u: int|
                            0 <= u < n implies (emitted@[u] <==> #[trigger] order_contains(
                            order@,
                            u,
                        )) by {
                            if u == f as int {
                                assert(order@[order@.len() - 1] == f);
                                assert(order_contains(order@, u));
                            } else {
                                if emitted@[u] {
                                    assert(order_contains(order0, u));
                                    let p = choose|p: int| 0 <= p < order0.len() && order0[p] == u;
                                    assert(order@[p] == u);
                                    assert(order_contains(order@, u));
                                }
                                if order_contains(order@, u) {
                                    let p = choose|p: int| 0 <= p < order@.len() && order@[p] == u;
                                    assert(order0[p] == u);
                                    assert(order_contains(order0, u));
                                }
                            }
                        }
                        assert forall|a: int, b: int|
                            0 <= a < b < order@.len() implies order@[a] != order@[b] by {
                            if b == order@.len() - 1 {
                                assert(order@[b] == f);
                                assert(!emitted0[f as int]);
                                assert(!order_contains(order0, f as int));
                                assert(order0[a] == order@[a]);
                                assert(order_contains(order0, order0[a] as int));
                            } else {
                                assert(order0[a] == order@[a]);
                                assert(order0[b] == order@[b]);
                            }
                        }
                        assert forall|a: int, i: int|
                            #![trigger self.edge_seq()[i], order@[a]]
                            0 <= a < order@.len() && 0 <= i < self.edge_seq().len()
                                && self.edge_seq()[i].dst == order@[a] implies exists|b: int|
                            0 <= b < a && order@[b] == self.edge_seq()[i].src by {
                            if a < order0.len() {
                                assert(order0[a] == order@[a]);
                                let b = choose|b: int|
                                    0 <= b < a && order0[b] == self.edge_seq()[i].src;
                                assert(order@[b] == self.edge_seq()[i].src);
                            } else {
                                assert(order@[a] == f);
                                assert(emitted0[self.edge_seq()[i].src as int]);
                                assert(order_contains(order0, self.edge_seq()[i].src as int));
                                let b = choose|b: int|
                                    0 <= b < order0.len() && order0[b] == self.edge_seq()[i].src;
                                assert(order@[b] == self.edge_seq()[i].src);
                            }
                        }
                    }
                },
                None => {
                    break ;
                },
            }
        }
        if order.len() == n {
            let mut out: Vec<NodeData> = Vec::new();
            let mut p: usize = 0;
            while p < n
                invariant
                    self.wf(),
                    n == self.node_seq().len(),
                    order@.len() == n,
                    order_respects_edges(*self, order@),
                    p <= n,
                    out@.len() == p,
                    forall|q: int| 0 <= q < p ==> (#[trigger] out@[q])@ == self.node_seq()[order@[q] as int]@,
                decreases n - p,
            {
                let idx = order[p];
                out.push(self.node_at(idx).clone());
                p = p + 1;
            }
            proof {
                assert forall|u: int| 0 <= u < n implies #[trigger] order_contains(
                    order@,
                    u,
                ) by {
                    if !order_contains(order@, u) {
                        lemma_order_len_bound(order@, n as int, u);
                    }
                }
                lemma_complete_order_acyclic(*self, order@);
                assert forall|a: int, b: int|
                    0 <= a < b < out@.len() implies keys_of(out@)[a] != keys_of(out@)[b] by {
                    assert(order@[a] != order@[b]);
                    assert(self.node_seq()[order@[a] as int]@ != self.node_seq()[order@[b] as int]@);
                }
                assert(keys_of(out@).no_duplicates());
                assert forall|p2: int|
                    0 <= p2 < out@.len() implies contains_key(
                    self.node_seq(),
                    #[trigger] out@[p2]@,
                ) by {
                    assert(self.node_seq()[order@[p2] as int]@ == out@[p2]@);
                }
                assert forall|p2: int, q2: int|
                    0 <= q2 <= p2 < out@.len() implies !self.has_edge_key(
                    out@[p2]@,
                    out@[q2]@,
                ) by {
                    if self.has_edge_key(out@[p2]@, out@[q2]@) {
                        let i = choose|i: int|
                            0 <= i < self.edge_seq().len() && (#[trigger] self.edge_seq()[i]).src
                                < self.node_seq().len() && self.edge_seq()[i].dst
                                < self.node_seq().len()
                                && self.node_seq()[self.edge_seq()[i].src as int]@ == out@[p2]@
                                && self.node_seq()[self.edge_seq()[i].dst as int]@ == out@[q2]@;
                        let e = self.edge_seq()[i];
                        assert(self.node_seq()[e.src as int]@ == self.node_seq()[order@[p2] as int]@);
                        assert(e.src == order@[p2]) by {
                            if e.src as int != order@[p2] as int {
                                if (e.src as int) < (order@[p2] as int) {
                                    assert(self.node_seq()[e.src as int]@ != self.node_seq()[order@[p2] as int]@);
                                } else {
                                    assert(self.node_seq()[order@[p2] as int]@ != self.node_seq()[e.src as int]@);
                                }
                            }
                        }
                        assert(e.dst == order@[q2]) by {
                            if e.dst as int != order@[q2] as int {
                                if (e.dst as int) < (order@[q2] as int) {
                                    assert(self.node_seq()[e.dst as int]@ != self.node_seq()[order@[q2] as int]@);
                                } else {
                                    assert(self.node_seq()[order@[q2] as int]@ != self.node_seq()[e.dst as int]@);
                                }
                            }
                        }
                        let b = choose|b: int| 0 <= b < q2 && order@[b] == e.src;
                        assert(order@[b] == order@[p2]);
                        assert(b != p2);
                        assert(false);
                    }
                }
            }
            Ok(out)
        } else {
            proof {
                lemma_unemitted_exists(order@, emitted@, n as int);
            }
            let ghost u0 = choose|u: int| 0 <= u < n && !emitted@[u];
            let mut rem: Vec<NodeData> = Vec::new();
            let mut v: usize = 0;
            while v < n
                invariant
                    self.wf(),
                    n == self.node_seq().len(),
                    emitted@.len() == n,
                    v <= n,
                    0 <= u0 < n && !emitted@[u0],
                    v > u0 ==> rem@.len() > 0,
                    forall|k: int|
                        0 <= k < rem@.len() ==> contains_key(
                            self.node_seq(),
                            (#[trigger] rem@[k])@,
                        ),
                decreases n - v,
            {
                if !emitted[v] {
                    proof {
                        assert(contains_key(self.node_seq(), self.node_seq()[v as int]@));
                    }
                    rem.push(self.node_at(v).clone());
                }
                v = v + 1;
            }
            proof {
                let s = vstd::set_lib::set_int_range(0, n as int).filter(|u: int| !emitted@[u]);
                vstd::set_lib::lemma_int_range(0, n as int);
                vstd::set_lib::set_int_range(0, n as int).lemma_len_filter(
                    |u: int| !emitted@[u],
                );
                let u0 = choose|u: int| 0 <= u < n && !emitted@[u];
                assert(s.contains(u0));
                assert forall|u: int| #[trigger] s.contains(u) implies exists|i: int|
                    0 <= i < self.edge_seq().len() && (#[trigger] self.edge_seq()[i]).dst as int
                        == u && s.contains(self.edge_seq()[i].src as int) by {
                    assert(0 <= u < n && !emitted@[u]);
                    let i = choose|i: int|
                        0 <= i < self.edge_seq().len() && (#[trigger] self.edge_seq()[i]).dst as int
                            == u && !emitted@[self.edge_seq()[i].src as int];
                    assert(self.edge_seq()[i].src < n);
                    assert(s.contains(self.edge_seq()[i].src as int));
                }
                assert(self.blocked_set(s));
                assert(self.cyclic());
            }
            Err(GraphError::CycleDetected(rem))
        }
    }
}

} // verus!
