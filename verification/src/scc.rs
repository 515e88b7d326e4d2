use vstd::prelude::*;

use crate::components::group_holds;
use crate::components::group_key_holds;
use crate::components::same_group;
use crate::components::lemma_group_grow;
use crate::components::groups_disjoint;
use crate::components::unassigned_count;
use crate::graph::contains_key;
use crate::graph::DirectedGraph;
use crate::node::NodeData;
use crate::node::NodeKey;

verus! {

/// Some stored edge leads from arena index `a` to arena index `b`.
pub open spec fn edge_step(g: DirectedGraph, a: int, b: int) -> bool {
    exists|i: int|
        0 <= i < g.edge_seq().len() && (#[trigger] g.edge_seq()[i]).src as int == a
            && g.edge_seq()[i].dst as int == b
}

/// `p` walks the graph along stored edges, by arena indices.
pub open spec fn is_walk(g: DirectedGraph, p: Seq<int>) -> bool {
    &&& p.len() > 0
    &&& forall|k: int| 0 <= k < p.len() ==> 0 <= #[trigger] p[k] < g.node_seq().len()
    &&& forall|k: int| 0 <= k < p.len() - 1 ==> edge_step(g, #[trigger] p[k], p[k + 1])
}

/// Arena index `v` can be reached from `u` along stored edges.
pub open spec fn reaches(g: DirectedGraph, u: int, v: int) -> bool {
    exists|p: Seq<int>| is_walk(g, p) && p.first() == u && p.last() == v
}

/// A single node is a walk: every index reaches itself.
proof fn lemma_reach_self(g: DirectedGraph, u: int)
    requires
        0 <= u < g.node_seq().len(),
    ensures
        reaches(g, u, u),
{
    let p = seq![u];
    assert(is_walk(g, p));
    assert(p.first() == u && p.last() == u);
}

/// Extending a walk by one outgoing edge keeps it a walk.
proof fn lemma_reach_step(g: DirectedGraph, a: int, b: int, c: int)
    requires
        reaches(g, a, b),
        edge_step(g, b, c),
        0 <= c < g.node_seq().len(),
    ensures
        reaches(g, a, c),
{
    let p = choose|p: Seq<int>| is_walk(g, p) && p.first() == a && p.last() == b;
    let q = p.push(c);
    assert forall|k: int| 0 <= k < q.len() - 1 implies edge_step(g, #[trigger] q[k], q[k + 1]) by {
        if k < p.len() - 1 {
            assert(q[k] == p[k]);
            assert(q[k + 1] == p[k + 1]);
        } else {
            assert(q[k] == p.last());
            assert(q[k + 1] == c);
        }
    }
    assert(is_walk(g, q));
    assert(q.first() == a && q.last() == c);
}

/// Prepending one incoming edge to a walk keeps it a walk.
proof fn lemma_reach_pre(g: DirectedGraph, a: int, b: int, c: int)
    requires
        edge_step(g, a, b),
        reaches(g, b, c),
        0 <= a < g.node_seq().len(),
    ensures
        reaches(g, a, c),
{
    let p = choose|p: Seq<int>| is_walk(g, p) && p.first() == b && p.last() == c;
    let q = seq![a] + p;
    assert(q.len() == p.len() + 1);
    assert forall|k: int| 0 <= k < q.len() - 1 implies edge_step(g, #[trigger] q[k], q[k + 1]) by {
        if k == 0 {
            assert(q[0] == a);
            assert(q[1] == p[0]);
            assert(p[0] == p.first());
        } else {
            assert(q[k] == p[k - 1]);
            assert(q[k + 1] == p[k]);
        }
    }
    assert(q.first() == a);
    assert(q.last() == p.last());
    assert(is_walk(g, q));
}

/// Two walks that meet end to start join into one: reachability is
/// transitive.
proof fn lemma_reach_trans(g: DirectedGraph, a: int, b: int, c: int)
    requires
        reaches(g, a, b),
        reaches(g, b, c),
    ensures
        reaches(g, a, c),
{
    let p1 = choose|p: Seq<int>| is_walk(g, p) && p.first() == a && p.last() == b;
    let p2 = choose|p: Seq<int>| is_walk(g, p) && p.first() == b && p.last() == c;
    let w = p1 + p2.drop_first();
    assert(w.len() == p1.len() + p2.len() - 1);
    assert(w.first() == a);
    assert(w.last() == c) by {
        if p2.len() == 1 {
            assert(w == p1);
        } else {
            assert(w[w.len() - 1] == p2.drop_first()[p2.len() - 2]);
            assert(p2.drop_first()[p2.len() - 2] == p2[p2.len() - 1]);
        }
    }
    assert forall|k: int| 0 <= k < w.len() implies 0 <= #[trigger] w[k] < g.node_seq().len() by {
        if k < p1.len() {
            assert(w[k] == p1[k]);
        } else {
            assert(w[k] == p2.drop_first()[k - p1.len()]);
            assert(p2.drop_first()[k - p1.len()] == p2[k - p1.len() + 1]);
        }
    }
    assert forall|k: int| 0 <= k < w.len() - 1 implies edge_step(g, #[trigger] w[k], w[k + 1]) by {
        if k < p1.len() - 1 {
            assert(w[k] == p1[k]);
            assert(w[k + 1] == p1[k + 1]);
        } else if k == p1.len() - 1 {
            assert(w[k] == p1.last());
            assert(p1.last() == p2.first());
            assert(w[k + 1] == p2.drop_first()[0]);
            assert(p2.drop_first()[0] == p2[1]);
            assert(edge_step(g, p2[0], p2[1]));
        } else {
            assert(w[k] == p2.drop_first()[k - p1.len()]);
            assert(w[k + 1] == p2.drop_first()[k + 1 - p1.len()]);
            assert(p2.drop_first()[k - p1.len()] == p2[k - p1.len() + 1]);
            assert(p2.drop_first()[k + 1 - p1.len()] == p2[k + 1 - p1.len() + 1]);
            assert(edge_step(g, p2[k - p1.len() + 1], p2[k - p1.len() + 2]));
        }
    }
    assert(is_walk(g, w));
}

/// The identities `a` and `b` are held by arena nodes that reach each
/// other: they lie in one strongly connected component.
pub open spec fn mutual_keys(g: DirectedGraph, a: NodeKey, b: NodeKey) -> bool {
    exists|i: int, j: int|
        #![trigger g.node_seq()[i], g.node_seq()[j]]
        0 <= i < g.node_seq().len() && 0 <= j < g.node_seq().len() && g.node_seq()[i]@ == a
            && g.node_seq()[j]@ == b && reaches(g, i, j) && reaches(g, j, i)
}

/// Two distinct, mutually reachable indices witness a directed cycle.
proof fn lemma_mutual_cyclic(g: DirectedGraph, v: int, a: int)
    requires
        g.wf(),
        reaches(g, v, a),
        reaches(g, a, v),
        v != a,
    ensures
        g.cyclic(),
{
    broadcast use vstd::set::group_set_axioms;

    let p1 = choose|p: Seq<int>| is_walk(g, p) && p.first() == v && p.last() == a;
    let p2 = choose|p: Seq<int>| is_walk(g, p) && p.first() == a && p.last() == v;
    let w = p1 + p2.drop_first();
    assert(w.len() == p1.len() + p2.len() - 1);
    assert(p1.len() >= 2);
    assert(w.first() == v);
    assert(w.last() == v) by {
        if p2.len() == 1 {
            assert(w == p1);
        } else {
            assert(w[w.len() - 1] == p2.drop_first()[p2.len() - 2]);
            assert(p2.drop_first()[p2.len() - 2] == p2[p2.len() - 1]);
        }
    }
    assert forall|k: int| 0 <= k < w.len() implies 0 <= #[trigger] w[k] < g.node_seq().len() by {
        if k < p1.len() {
            assert(w[k] == p1[k]);
        } else {
            assert(w[k] == p2.drop_first()[k - p1.len()]);
            assert(p2.drop_first()[k - p1.len()] == p2[k - p1.len() + 1]);
        }
    }
    assert forall|k: int| 0 <= k < w.len() - 1 implies edge_step(g, #[trigger] w[k], w[k + 1]) by {
        if k < p1.len() - 1 {
            assert(w[k] == p1[k]);
            assert(w[k + 1] == p1[k + 1]);
        } else if k == p1.len() - 1 {
            assert(w[k] == p1.last());
            assert(p1.last() == p2.first());
            assert(w[k + 1] == p2.drop_first()[0]);
            assert(p2.drop_first()[0] == p2[1]);
            assert(edge_step(g, p2[0], p2[1]));
        } else {
            assert(w[k] == p2.drop_first()[k - p1.len()]);
            assert(w[k + 1] == p2.drop_first()[k + 1 - p1.len()]);
            assert(p2.drop_first()[k - p1.len()] == p2[k - p1.len() + 1]);
            assert(p2.drop_first()[k + 1 - p1.len()] == p2[k + 1 - p1.len() + 1]);
            assert(edge_step(g, p2[k - p1.len() + 1], p2[k - p1.len() + 2]));
        }
    }
    let n = g.node_seq().len() as int;
    let s = vstd::set_lib::set_int_range(0, n).filter(|x: int| w.contains(x));
    vstd::set_lib::lemma_int_range(0, n);
    assert(w.contains(w[0]));
    assert(s.contains(w[0]));
    assert forall|x: int| #[trigger] s.contains(x) implies exists|i: int|
        0 <= i < g.edge_seq().len() && (#[trigger] g.edge_seq()[i]).dst as int == x && s.contains(
            g.edge_seq()[i].src as int,
        ) by {
        let k = choose|k: int| 0 <= k < w.len() && w[k] == x;
        let k2: int = if k > 0 {
            k
        } else {
            w.len() - 1
        };
        assert(w[k2] == x);
        assert(k2 >= 1);
        assert(edge_step(g, w[k2 - 1], w[k2]));
        let i = choose|i: int|
            0 <= i < g.edge_seq().len() && (#[trigger] g.edge_seq()[i]).src as int == w[k2 - 1]
                && g.edge_seq()[i].dst as int == w[k2];
        assert(w.contains(w[k2 - 1]));
        assert(s.contains(w[k2 - 1]));
    }
    assert(g.blocked_set(s));
}

/// Some position of the worklist holds index `x`.
pub open spec fn work_contains(work: Seq<usize>, x: int) -> bool {
    exists|a: int| 0 <= a < work.len() && work[a] as int == x
}

/// The search is finished with `x`: every edge leaving `x` (entering it,
/// when `reverse` holds) lands on a flagged index.
pub open spec fn scanned(g: DirectedGraph, flags: Seq<bool>, x: int, reverse: bool) -> bool {
    forall|i: int|
        0 <= i < g.edge_seq().len() ==> (((!reverse && (#[trigger] g.edge_seq()[i]).src as int
            == x) ==> flags[g.edge_seq()[i].dst as int]) && ((reverse
            && g.edge_seq()[i].dst as int == x) ==> flags[g.edge_seq()[i].src as int]))
}

/// Flags closed under forward steps cover every walk out of a flagged
/// start.
proof fn lemma_fwd_cover(g: DirectedGraph, flags: Seq<bool>, w: Seq<int>, k: int)
    requires
        g.wf(),
        flags.len() == g.node_seq().len(),
        is_walk(g, w),
        flags[w.first()],
        forall|x: int|
            0 <= x < flags.len() && #[trigger] flags[x] ==> scanned(g, flags, x, false),
        0 <= k < w.len(),
    ensures
        flags[w[k]],
    decreases k,
{
    if k > 0 {
        lemma_fwd_cover(g, flags, w, k - 1);
        assert(edge_step(g, w[k - 1], w[k]));
        let i = choose|i: int|
            0 <= i < g.edge_seq().len() && (#[trigger] g.edge_seq()[i]).src as int == w[k - 1]
                && g.edge_seq()[i].dst as int == w[k];
        assert(scanned(g, flags, w[k - 1], false));
        assert(flags[g.edge_seq()[i].dst as int]);
    }
}

/// Flags closed under backward steps cover every walk into a flagged end.
proof fn lemma_bwd_cover(g: DirectedGraph, flags: Seq<bool>, w: Seq<int>, k: int)
    requires
        g.wf(),
        flags.len() == g.node_seq().len(),
        is_walk(g, w),
        flags[w.last()],
        forall|x: int|
            0 <= x < flags.len() && #[trigger] flags[x] ==> scanned(g, flags, x, true),
        0 <= k < w.len(),
    ensures
        flags[w[k]],
    decreases w.len() - k,
{
    if k < w.len() - 1 {
        lemma_bwd_cover(g, flags, w, k + 1);
        assert(edge_step(g, w[k], w[k + 1]));
        let i = choose|i: int|
            0 <= i < g.edge_seq().len() && (#[trigger] g.edge_seq()[i]).src as int == w[k]
                && g.edge_seq()[i].dst as int == w[k + 1];
        assert(scanned(g, flags, w[k + 1], true));
        assert(flags[g.edge_seq()[i].src as int]);
    }
}

impl DirectedGraph {
    /// Flag the arena indices connected to `start` by a directed walk:
    /// those `start` reaches when `reverse` is false, those that reach
    /// `start` when it is true. Every flagged index is so connected.
    fn reach_flags(&self, start: usize, reverse: bool) -> (flags: Vec<bool>)
        requires
            self.wf(),
            start < self.node_seq().len(),
        ensures
            flags@.len() == self.node_seq().len(),
            flags@[start as int],
            forall|j: int|
                0 <= j < flags@.len() && #[trigger] flags@[j] ==> if reverse {
                    reaches(*self, j, start as int)
                } else {
                    reaches(*self, start as int, j)
                },
            !reverse ==> forall|j: int|
                0 <= j < flags@.len() && #[trigger] reaches(*self, start as int, j)
                    ==> flags@[j],
            reverse ==> forall|j: int|
                0 <= j < flags@.len() && #[trigger] reaches(*self, j, start as int)
                    ==> flags@[j],
    {
        let n = self.node_count();
        let m = self.edge_count();
        let mut flags: Vec<bool> = Vec::new();
        for v in 0..n
            invariant
                flags@.len() == v,
                forall|u: int| 0 <= u < v ==> !flags@[u],
        {
            flags.push(false);
        }
        let mut work: Vec<usize> = Vec::new();
        flags.set(start, true);
        work.push(start);
        proof {
            lemma_reach_self(*self, start as int);
            assert(work@[work@.len() - 1] as int == start as int);
            assert(work_contains(work@, start as int));
        }
        while work.len() > 0
            invariant
                self.wf(),
                n == self.node_seq().len(),
                m == self.edge_seq().len(),
                start < n,
                flags@.len() == n,
                flags@[start as int],
                forall|w: int| 0 <= w < work@.len() ==> (#[trigger] work@[w]) < n,
                forall|w: int| 0 <= w < work@.len() ==> flags@[#[trigger] work@[w] as int],
                forall|j: int|
                    0 <= j < n && #[trigger] flags@[j] ==> if reverse {
                        reaches(*self, j, start as int)
                    } else {
                        reaches(*self, start as int, j)
                    },
                forall|x: int|
                    0 <= x < n && #[trigger] flags@[x] ==> (work_contains(work@, x) || scanned(
                        *self,
                        flags@,
                        x,
                        reverse,
                    )),
            decreases unassigned_count(flags@, n as int), work@.len(),
        {
            let ghost flags_at_pop = flags@;
            let ghost work_at_pop = work@;
            let u = work[work.len() - 1];
            work.pop();
            proof {
                assert forall|x: int|
                    0 <= x < n && #[trigger] flags@[x] && x != u as int implies (work_contains(
                    work@,
                    x,
                ) || scanned(*self, flags@, x, reverse)) by {
                    if work_contains(work_at_pop, x) && !scanned(*self, flags@, x, reverse) {
                        let a = choose|a: int|
                            0 <= a < work_at_pop.len() && work_at_pop[a] as int == x;
                        assert(a < work_at_pop.len() - 1);
                        assert(work@[a] as int == x);
                    }
                }
            }
            let mut i: usize = 0;
            while i < m
                invariant
                    self.wf(),
                    n == self.node_seq().len(),
                    m == self.edge_seq().len(),
                    start < n,
                    u < n,
                    i <= m,
                    flags@.len() == n,
                    flags@[start as int],
                    flags@[u as int],
                    forall|w: int| 0 <= w < work@.len() ==> (#[trigger] work@[w]) < n,
                    forall|w: int| 0 <= w < work@.len() ==> flags@[#[trigger] work@[w] as int],
                    forall|j: int|
                        0 <= j < n && #[trigger] flags@[j] ==> if reverse {
                            reaches(*self, j, start as int)
                        } else {
                            reaches(*self, start as int, j)
                        },
                    forall|x: int|
                        0 <= x < n && #[trigger] flags@[x] && x != u as int ==> (work_contains(
                            work@,
                            x,
                        ) || scanned(*self, flags@, x, reverse)),
                    forall|j2: int|
                        0 <= j2 < i ==> (((!reverse && (#[trigger] self.edge_seq()[j2]).src as int
                            == u as int) ==> flags@[self.edge_seq()[j2].dst as int]) && ((reverse
                            && self.edge_seq()[j2].dst as int == u as int)
                            ==> flags@[self.edge_seq()[j2].src as int])),
                    unassigned_count(flags@, n as int) <= unassigned_count(
                        flags_at_pop,
                        n as int,
                    ),
                    unassigned_count(flags@, n as int) < unassigned_count(flags_at_pop, n as int)
                        || work@.len() <= work_at_pop.len() - 1,
                decreases m - i,
            {
                let e = self.edge_at(i);
                let nb_opt: Option<usize> = if !reverse {
                    if e.src == u {
                        Some(e.dst)
                    } else {
                        None
                    }
                } else {
                    if e.dst == u {
                        Some(e.src)
                    } else {
                        None
                    }
                };
                match nb_opt {
                    Some(nb) => {
                        if !flags[nb] {
                            proof {
                                crate::components::lemma_assign_shrinks(
                                    flags@,
                                    flags@.update(nb as int, true),
                                    n as int,
                                    nb as int,
                                );
                                if !reverse {
                                    assert(edge_step(*self, u as int, nb as int));
                                    lemma_reach_step(*self, start as int, u as int, nb as int);
                                } else {
                                    assert(edge_step(*self, nb as int, u as int));
                                    lemma_reach_pre(*self, nb as int, u as int, start as int);
                                }
                            }
                            let ghost flags0 = flags@;
                            let ghost work0 = work@;
                            flags.set(nb, true);
                            work.push(nb);
                            proof {
                                assert forall|x: int|
                                    0 <= x < n && #[trigger] flags@[x] && x != u as int implies (
                                work_contains(work@, x) || scanned(*self, flags@, x, reverse)) by {
                                    if x != nb as int {
                                        assert(flags0[x]);
                                        if work_contains(work0, x) {
                                            let a = choose|a: int|
                                                0 <= a < work0.len() && work0[a] as int == x;
                                            assert(work@[a] as int == x);
                                        } else if scanned(*self, flags0, x, reverse) {
                                            assert forall|i2: int|
                                                0 <= i2 < m implies (((!reverse && (
                                            #[trigger] self.edge_seq()[i2]).src as int == x)
                                                ==> flags@[self.edge_seq()[i2].dst as int]) && ((
                                            reverse && self.edge_seq()[i2].dst as int == x)
                                                ==> flags@[self.edge_seq()[i2].src as int])) by {
                                                assert(self.edge_seq()[i2].src < n);
                                                assert(self.edge_seq()[i2].dst < n);
                                            }
                                        }
                                    } else {
                                        assert(work@[work@.len() - 1] as int == nb as int);
                                        assert(work_contains(work@, x));
                                    }
                                }
                            }
                        }
                    },
                    None => {},
                }
                i = i + 1;
            }
            proof {
                assert(scanned(*self, flags@, u as int, reverse));
            }
        }
        proof {
            assert forall|x: int|
                0 <= x < n && #[trigger] flags@[x] implies scanned(*self, flags@, x, reverse) by {
                if work_contains(work@, x) {
                    let a = choose|a: int| 0 <= a < work@.len() && work@[a] as int == x;
                }
            }
            if !reverse {
                assert forall|j: int|
                    0 <= j < flags@.len() && #[trigger] reaches(*self, start as int, j)
                        implies flags@[j] by {
                    let w = choose|p: Seq<int>|
                        is_walk(*self, p) && p.first() == start as int && p.last() == j;
                    lemma_fwd_cover(*self, flags@, w, w.len() - 1);
                }
            } else {
                assert forall|j: int|
                    0 <= j < flags@.len() && #[trigger] reaches(*self, j, start as int)
                        implies flags@[j] by {
                    let w = choose|p: Seq<int>|
                        is_walk(*self, p) && p.first() == j && p.last() == start as int;
                    lemma_bwd_cover(*self, flags@, w, 0);
                }
            }
        }
        flags
    }

    /// Group the nodes into strongly connected components: for each
    /// not-yet-grouped node, in arena order, collect every node that both
    /// is reachable from it and reaches it. Together the groups hold every
    /// node exactly once, and any group of two or more witnesses a
    /// directed cycle.
    #[verifier::rlimit(50)]
    pub fn strongly_connected_components(&self) -> (comps: Vec<Vec<NodeData>>)
        requires
            self.wf(),
        ensures
            forall|g: int| 0 <= g < comps@.len() ==> (#[trigger] comps@[g])@.len() > 0,
            forall|g: int, j: int|
                0 <= g < comps@.len() && 0 <= j < comps@[g]@.len() ==> contains_key(
                    self.node_seq(),
                    (#[trigger] comps@[g]@[j])@,
                ),
            groups_disjoint(comps@),
            forall|v: int|
                0 <= v < self.node_seq().len() ==> group_holds(
                    comps@,
                    (#[trigger] self.node_seq()[v])@,
                ),
            forall|g: int|
                0 <= g < comps@.len() && (#[trigger] comps@[g])@.len() >= 2 ==> self.cyclic(),
            forall|g: int, j1: int, j2: int|
                #![trigger comps@[g]@[j1], comps@[g]@[j2]]
                0 <= g < comps@.len() && 0 <= j1 < comps@[g]@.len() && 0 <= j2 < comps@[g]@.len()
                    ==> mutual_keys(*self, comps@[g]@[j1]@, comps@[g]@[j2]@),
            forall|i: int, j: int|
                0 <= i < self.node_seq().len() && 0 <= j < self.node_seq().len() && #[trigger] reaches(*self, i, j)
                    && #[trigger] reaches(*self, j, i) ==> same_group(
                    comps@,
                    self.node_seq()[i]@,
                    self.node_seq()[j]@,
                ),
    {
        let n = self.node_count();
        let mut assigned: Vec<bool> = Vec::new();
        for v in 0..n
            invariant
                assigned@.len() == v,
                forall|u: int| 0 <= u < v ==> !assigned@[u],
        {
            assigned.push(false);
        }
        let mut comps: Vec<Vec<NodeData>> = Vec::new();
        for v in 0..n
            invariant
                self.wf(),
                n == self.node_seq().len(),
                assigned@.len() == n,
                forall|u: int| 0 <= u < v ==> assigned@[u],
                forall|u: int|
                    0 <= u < n ==> (assigned@[u] <==> group_holds(
                        comps@,
                        (#[trigger] self.node_seq()[u])@,
                    )),
                groups_disjoint(comps@),
                forall|g: int| 0 <= g < comps@.len() ==> (#[trigger] comps@[g])@.len() > 0,
                forall|g: int, j: int|
                    0 <= g < comps@.len() && 0 <= j < comps@[g]@.len() ==> contains_key(
                        self.node_seq(),
                        (#[trigger] comps@[g]@[j])@,
                    ),
                forall|g: int|
                    0 <= g < comps@.len() && (#[trigger] comps@[g])@.len() >= 2 ==> self.cyclic(),
                forall|g: int, j1: int, j2: int|
                    #![trigger comps@[g]@[j1], comps@[g]@[j2]]
                    0 <= g < comps@.len() && 0 <= j1 < comps@[g]@.len() && 0 <= j2
                        < comps@[g]@.len() ==> mutual_keys(*self, comps@[g]@[j1]@, comps@[g]@[j2]@),
                forall|i2: int, j2: int|
                    0 <= i2 < n && 0 <= j2 < n && #[trigger] reaches(*self, i2, j2)
                        && #[trigger] reaches(*self, j2, i2) && group_holds(
                        comps@,
                        self.node_seq()[i2]@,
                    ) ==> same_group(comps@, self.node_seq()[i2]@, self.node_seq()[j2]@),
        {
            if !assigned[v] {
                let fwd = self.reach_flags(v, false);
                let bwd = self.reach_flags(v, true);
                let ghost assigned_start = assigned@;
                let mut group: Vec<NodeData> = Vec::new();
                let ghost mut gidx: Seq<int> = Seq::empty();
                proof {
                    let c1 = comps@.push(group);
                    assert forall|u: int|
                        0 <= u < n implies (assigned@[u] <==> group_holds(
                        c1,
                        (#[trigger] self.node_seq()[u])@,
                    )) by {
                        if assigned@[u] {
                            let (g2, j2) = choose|g2: int, j2: int|
                                0 <= g2 < comps@.len() && 0 <= j2 < comps@[g2]@.len()
                                    && comps@[g2]@[j2]@ == self.node_seq()[u]@;
                            assert(c1[g2]@[j2]@ == self.node_seq()[u]@);
                        }
                        if group_holds(c1, self.node_seq()[u]@) {
                            let (g2, j2) = choose|g2: int, j2: int|
                                0 <= g2 < c1.len() && 0 <= j2 < c1[g2]@.len() && c1[g2]@[j2]@
                                    == self.node_seq()[u]@;
                            assert(g2 < comps@.len());
                            assert(comps@[g2]@[j2]@ == self.node_seq()[u]@);
                        }
                    }
                    assert forall|g1: int, j1: int, g2: int, j2: int|
                        #![trigger c1[g1]@[j1], c1[g2]@[j2]]
                        0 <= g1 < c1.len() && 0 <= j1 < c1[g1]@.len() && 0 <= g2 < c1.len() && 0
                            <= j2 < c1[g2]@.len() && (g1 != g2 || j1 != j2) implies c1[g1]@[j1]@
                        != c1[g2]@[j2]@ by {
                        assert(g1 < comps@.len() && g2 < comps@.len());
                        assert(comps@[g1]@[j1]@ == c1[g1]@[j1]@);
                        assert(comps@[g2]@[j2]@ == c1[g2]@[j2]@);
                    }
                    assert forall|g2: int, j2: int|
                        0 <= g2 < c1.len() && 0 <= j2 < c1[g2]@.len() implies contains_key(
                        self.node_seq(),
                        (#[trigger] c1[g2]@[j2])@,
                    ) by {
                        assert(g2 < comps@.len());
                        assert(comps@[g2]@[j2]@ == c1[g2]@[j2]@);
                    }
                }
                for j in 0..n
                    invariant
                        self.wf(),
                        n == self.node_seq().len(),
                        assigned@.len() == n,
                        v < n,
                        fwd@.len() == n,
                        bwd@.len() == n,
                        forall|x: int|
                            0 <= x < n && #[trigger] fwd@[x] ==> reaches(*self, v as int, x),
                        forall|x: int|
                            0 <= x < n && #[trigger] bwd@[x] ==> reaches(*self, x, v as int),
                        forall|x: int|
                            0 <= x < n && #[trigger] reaches(*self, v as int, x) ==> fwd@[x],
                        forall|x: int|
                            0 <= x < n && #[trigger] reaches(*self, x, v as int) ==> bwd@[x],
                        fwd@[v as int],
                        bwd@[v as int],
                        assigned_start.len() == n,
                        !assigned_start[v as int],
                        forall|y: int|
                            0 <= y < n ==> ((#[trigger] assigned_start[y]) <==> group_holds(
                                comps@,
                                self.node_seq()[y]@,
                            )),
                        forall|i2: int, j2: int|
                            0 <= i2 < n && 0 <= j2 < n && #[trigger] reaches(*self, i2, j2)
                                && #[trigger] reaches(*self, j2, i2) && group_holds(
                                comps@,
                                self.node_seq()[i2]@,
                            ) ==> same_group(comps@, self.node_seq()[i2]@, self.node_seq()[j2]@),
                        forall|x: int|
                            0 <= x < j && #[trigger] reaches(*self, v as int, x)
                                && #[trigger] reaches(*self, x, v as int) ==> group_key_holds(
                                group@,
                                self.node_seq()[x]@,
                            ),
                        j <= v ==> !assigned@[v as int],
                        j > v ==> assigned@[v as int],
                        forall|u: int| 0 <= u < v ==> assigned@[u],
                        group@.len() == gidx.len(),
                        forall|k: int|
                            0 <= k < gidx.len() ==> 0 <= #[trigger] gidx[k] < j,
                        forall|k1: int, k2: int|
                            0 <= k1 < k2 < gidx.len() ==> gidx[k1] < gidx[k2],
                        forall|k: int|
                            0 <= k < gidx.len() ==> (#[trigger] group@[k])@ == self.node_seq()[gidx[k]]@,
                        forall|k: int| 0 <= k < gidx.len() ==> fwd@[#[trigger] gidx[k]],
                        forall|k: int| 0 <= k < gidx.len() ==> bwd@[#[trigger] gidx[k]],
                        forall|u: int|
                            0 <= u < n ==> (assigned@[u] <==> group_holds(
                                comps@.push(group),
                                (#[trigger] self.node_seq()[u])@,
                            )),
                        groups_disjoint(comps@.push(group)),
                        forall|g: int|
                            0 <= g < comps@.len() ==> (#[trigger] comps@[g])@.len() > 0,
                        forall|g: int, j2: int|
                            0 <= g < comps@.push(group).len() && 0 <= j2 < comps@.push(
                                group,
                            )[g]@.len() ==> contains_key(
                                self.node_seq(),
                                (#[trigger] comps@.push(group)[g]@[j2])@,
                            ),
                        forall|g: int|
                            0 <= g < comps@.len() && (#[trigger] comps@[g])@.len() >= 2
                                ==> self.cyclic(),
                        group@.len() >= 2 ==> self.cyclic(),
                {
                    if fwd[j] && bwd[j] && !assigned[j] {
                        proof {
                            assert(reaches(*self, v as int, j as int));
                            assert(reaches(*self, j as int, v as int));
                            if gidx.len() >= 1 {
                                let a = gidx[0];
                                assert(0 < gidx.len());
                                assert(group@[0]@ == self.node_seq()[gidx[0]]@);
                                assert(fwd@[gidx[0]]);
                                assert(bwd@[gidx[0]]);
                                assert(reaches(*self, v as int, a));
                                assert(reaches(*self, a, v as int));
                                assert(a < j as int);
                                if a != v as int {
                                    lemma_mutual_cyclic(*self, v as int, a);
                                } else {
                                    lemma_mutual_cyclic(*self, v as int, j as int);
                                }
                                assert(self.cyclic());
                            }
                        }
                        let ghost group0 = group;
                        let ghost gidx0 = gidx;
                        assigned.set(j, true);
                        group.push(self.node_at(j).clone());
                        proof {
                            gidx = gidx.push(j as int);
                            lemma_group_grow(
                                self.node_seq(),
                                comps@,
                                group0,
                                group,
                                j as int,
                            );
                            assert(group@.len() == gidx.len());
                            assert forall|k: int|
                                0 <= k < gidx.len() implies (#[trigger] group@[k])@
                                == self.node_seq()[gidx[k]]@ && fwd@[gidx[k]] && bwd@[gidx[k]] by {
                                if k < gidx.len() - 1 {
                                    assert(group@[k] == group0@[k]);
                                    assert(gidx[k] == gidx0[k]);
                                    assert(group0@[k]@ == self.node_seq()[gidx0[k]]@
                                        && fwd@[gidx0[k]] && bwd@[gidx0[k]]);
                                } else {
                                    assert(gidx[k] == j as int);
                                    assert(group@[k]@ == self.node_seq()[j as int]@);
                                }
                            }
                            assert forall|x: int|
                                0 <= x < j + 1 && #[trigger] reaches(*self, v as int, x)
                                    && #[trigger] reaches(*self, x, v as int) implies group_key_holds(
                                group@,
                                self.node_seq()[x]@,
                            ) by {
                                if x < j {
                                    let t = choose|t: int|
                                        0 <= t < group0@.len() && group0@[t]@
                                            == self.node_seq()[x]@;
                                    assert(group@[t]@ == self.node_seq()[x]@);
                                } else {
                                    assert(group@[group@.len() - 1]@ == self.node_seq()[j as int]@);
                                }
                            }
                        }
                    } else {
                        proof {
                            if reaches(*self, v as int, j as int) && reaches(
                                *self,
                                j as int,
                                v as int,
                            ) {
                                assert(fwd@[j as int]);
                                assert(bwd@[j as int]);
                                assert(assigned@[j as int]);
                                if assigned_start[j as int] {
                                    assert(group_holds(comps@, self.node_seq()[j as int]@));
                                    assert(same_group(
                                        comps@,
                                        self.node_seq()[j as int]@,
                                        self.node_seq()[v as int]@,
                                    ));
                                    let (g2, k1, k2) = choose|g2: int, k1: int, k2: int|
                                        0 <= g2 < comps@.len() && 0 <= k1 < comps@[g2]@.len() && 0
                                            <= k2 < comps@[g2]@.len() && comps@[g2]@[k1]@
                                            == self.node_seq()[j as int]@ && comps@[g2]@[k2]@
                                            == self.node_seq()[v as int]@;
                                    assert(group_holds(comps@, self.node_seq()[v as int]@));
                                    assert(assigned_start[v as int]);
                                    assert(false);
                                } else {
                                    assert(group_holds(
                                        comps@.push(group),
                                        self.node_seq()[j as int]@,
                                    ));
                                    let (g2, t) = choose|g2: int, t: int|
                                        0 <= g2 < comps@.push(group).len() && 0 <= t < comps@.push(
                                            group,
                                        )[g2]@.len() && comps@.push(group)[g2]@[t]@
                                            == self.node_seq()[j as int]@;
                                    if g2 < comps@.len() {
                                        assert(comps@[g2]@[t]@ == self.node_seq()[j as int]@);
                                        assert(group_holds(comps@, self.node_seq()[j as int]@));
                                        assert(false);
                                    }
                                    assert(comps@.push(group)[g2] == group);
                                    assert(group_key_holds(group@, self.node_seq()[j as int]@));
                                }
                            }
                        }
                    }
                }
                let ghost comps0 = comps@;
                let ghost group_done = group;
                comps.push(group);
                proof {
                    assert(comps@ == comps0.push(group_done));
                    assert forall|g: int, j1: int, j2: int|
                        #![trigger comps@[g]@[j1], comps@[g]@[j2]]
                        0 <= g < comps@.len() && 0 <= j1 < comps@[g]@.len() && 0 <= j2
                            < comps@[g]@.len() implies mutual_keys(
                        *self,
                        comps@[g]@[j1]@,
                        comps@[g]@[j2]@,
                    ) by {
                        if g < comps0.len() {
                            assert(comps@[g]@[j1]@ == comps0[g]@[j1]@);
                            assert(comps@[g]@[j2]@ == comps0[g]@[j2]@);
                        } else {
                            assert(comps@[g] == group_done);
                            let i1 = gidx[j1];
                            let i2 = gidx[j2];
                            assert(group_done@[j1]@ == self.node_seq()[i1]@);
                            assert(group_done@[j2]@ == self.node_seq()[i2]@);
                            assert(reaches(*self, v as int, i1) && reaches(*self, i1, v as int));
                            assert(reaches(*self, v as int, i2) && reaches(*self, i2, v as int));
                            lemma_reach_trans(*self, i1, v as int, i2);
                            lemma_reach_trans(*self, i2, v as int, i1);
                            assert(mutual_keys(*self, self.node_seq()[i1]@, self.node_seq()[i2]@));
                        }
                    }
                    assert forall|i2: int, j2: int|
                        0 <= i2 < n && 0 <= j2 < n && #[trigger] reaches(*self, i2, j2)
                            && #[trigger] reaches(*self, j2, i2) && group_holds(
                            comps@,
                            self.node_seq()[i2]@,
                        ) implies same_group(
                        comps@,
                        self.node_seq()[i2]@,
                        self.node_seq()[j2]@,
                    ) by {
                        let ki = self.node_seq()[i2]@;
                        let kj = self.node_seq()[j2]@;
                        let (g2, t) = choose|g2: int, t: int|
                            0 <= g2 < comps@.len() && 0 <= t < comps@[g2]@.len() && comps@[g2]@[t]@
                                == ki;
                        if g2 < comps0.len() {
                            assert(comps0[g2]@[t]@ == ki);
                            assert(group_holds(comps0, ki));
                            assert(same_group(comps0, ki, kj));
                            let (g3, k1, k2) = choose|g3: int, k1: int, k2: int|
                                0 <= g3 < comps0.len() && 0 <= k1 < comps0[g3]@.len() && 0 <= k2
                                    < comps0[g3]@.len() && comps0[g3]@[k1]@ == ki
                                    && comps0[g3]@[k2]@ == kj;
                            assert(comps@[g3]@[k1]@ == ki);
                            assert(comps@[g3]@[k2]@ == kj);
                        } else {
                            assert(comps@[g2] == group_done);
                            assert(group_done@[t]@ == ki);
                            let ix = gidx[t];
                            assert(group_done@[t]@ == self.node_seq()[ix]@);
                            assert(ix == i2) by {
                                if ix != i2 {
                                    if ix < i2 {
                                        assert(self.node_seq()[ix]@ != self.node_seq()[i2]@);
                                    } else {
                                        assert(self.node_seq()[i2]@ != self.node_seq()[ix]@);
                                    }
                                }
                            }
                            assert(fwd@[ix] && bwd@[ix]);
                            assert(reaches(*self, v as int, i2));
                            assert(reaches(*self, i2, v as int));
                            lemma_reach_trans(*self, v as int, i2, j2);
                            lemma_reach_trans(*self, j2, i2, v as int);
                            assert(group_key_holds(group_done@, kj));
                            let t2 = choose|t2: int|
                                0 <= t2 < group_done@.len() && group_done@[t2]@ == kj;
                            assert(comps@[g2]@[t]@ == ki && comps@[g2]@[t2]@ == kj);
                            assert(same_group(comps@, ki, kj));
                        }
                    }
                    assert(assigned@[v as int]);
                    assert(group_done@.len() > 0) by {
                        assert(group_holds(comps0.push(group_done), self.node_seq()[v as int]@));
                        let (g, k) = choose|g: int, k: int|
                            0 <= g < comps0.push(group_done).len() && 0 <= k < comps0.push(
                                group_done,
                            )[g]@.len() && comps0.push(group_done)[g]@[k]@
                                == self.node_seq()[v as int]@;
                        if g < comps0.len() {
                            assert(group_holds(comps0, self.node_seq()[v as int]@));
                        }
                    }
                }
            }
        }
        comps
    }
}

fn clone_group(v: &Vec<NodeData>) -> (r: Vec<NodeData>)
    ensures
        r@.len() == v@.len(),
        forall|k: int| 0 <= k < v@.len() ==> (#[trigger] r@[k])@ == v@[k]@,
{
    let n = v.len();
    let mut r: Vec<NodeData> = Vec::new();
    for i in 0..n
        invariant
            n == v@.len(),
            r@.len() == i,
            forall|k: int| 0 <= k < i ==> (#[trigger] r@[k])@ == v@[k]@,
    {
        r.push(v[i].clone());
    }
    r
}

impl DirectedGraph {
    /// The strongly connected components that hold more than one node,
    /// in discovery order. A single node with only a self-loop forms a
    /// one-node component and is deliberately not reported: the filter
    /// keeps the engine's documented policy of counting only multi-node
    /// groups as cycles. An acyclic graph yields the empty list, and a
    /// nonempty list proves a directed cycle.
    pub fn find_cycles(&self) -> (r: Vec<Vec<NodeData>>)
        requires
            self.wf(),
        ensures
            forall|g: int| 0 <= g < r@.len() ==> (#[trigger] r@[g])@.len() >= 2,
            r@.len() > 0 ==> self.cyclic(),
            groups_disjoint(r@),
            forall|g: int, j: int|
                0 <= g < r@.len() && 0 <= j < r@[g]@.len() ==> contains_key(
                    self.node_seq(),
                    (#[trigger] r@[g]@[j])@,
                ),
            forall|g: int, j1: int, j2: int|
                #![trigger r@[g]@[j1], r@[g]@[j2]]
                0 <= g < r@.len() && 0 <= j1 < r@[g]@.len() && 0 <= j2 < r@[g]@.len()
                    ==> mutual_keys(*self, r@[g]@[j1]@, r@[g]@[j2]@),
            forall|i: int, j: int|
                0 <= i < self.node_seq().len() && 0 <= j < self.node_seq().len() && i != j
                    && #[trigger] reaches(*self, i, j) && #[trigger] reaches(*self, j, i)
                    ==> same_group(r@, self.node_seq()[i]@, self.node_seq()[j]@),
    {
        let sccs = self.strongly_connected_components();
        let mut r: Vec<Vec<NodeData>> = Vec::new();
        let ghost mut gsrc: Seq<int> = Seq::empty();
        let len = sccs.len();
        for g in 0..len
            invariant
                self.wf(),
                len == sccs@.len(),
                groups_disjoint(sccs@),
                forall|g2: int, j: int|
                    0 <= g2 < sccs@.len() && 0 <= j < sccs@[g2]@.len() ==> contains_key(
                        self.node_seq(),
                        (#[trigger] sccs@[g2]@[j])@,
                    ),
                forall|g2: int|
                    0 <= g2 < sccs@.len() && (#[trigger] sccs@[g2])@.len() >= 2 ==> self.cyclic(),
                forall|g2: int, j1: int, j2: int|
                    #![trigger sccs@[g2]@[j1], sccs@[g2]@[j2]]
                    0 <= g2 < sccs@.len() && 0 <= j1 < sccs@[g2]@.len() && 0 <= j2
                        < sccs@[g2]@.len() ==> mutual_keys(*self, sccs@[g2]@[j1]@, sccs@[g2]@[j2]@),
                forall|i2: int, j2: int|
                    0 <= i2 < self.node_seq().len() && 0 <= j2 < self.node_seq().len()
                        && #[trigger] reaches(*self, i2, j2) && #[trigger] reaches(*self, j2, i2)
                        ==> same_group(sccs@, self.node_seq()[i2]@, self.node_seq()[j2]@),
                forall|g2: int|
                    0 <= g2 < g && (#[trigger] sccs@[g2])@.len() >= 2 ==> exists|t: int|
                        0 <= t < gsrc.len() && gsrc[t] == g2,
                r@.len() == gsrc.len(),
                forall|k: int| 0 <= k < gsrc.len() ==> 0 <= #[trigger] gsrc[k] < g,
                forall|k1: int, k2: int| 0 <= k1 < k2 < gsrc.len() ==> gsrc[k1] < gsrc[k2],
                forall|k: int|
                    0 <= k < gsrc.len() ==> (#[trigger] r@[k])@.len() == sccs@[gsrc[k]]@.len()
                        && r@[k]@.len() >= 2,
                forall|k: int, j: int|
                    #![trigger r@[k]@[j]]
                    0 <= k < gsrc.len() && 0 <= j < r@[k]@.len() ==> r@[k]@[j]@ == sccs@[gsrc[k]]@[j]@,
                r@.len() > 0 ==> self.cyclic(),
        {
            if sccs[g].len() > 1 {
                r.push(clone_group(&sccs[g]));
                proof {
                    let ghost gsrc0 = gsrc;
                    gsrc = gsrc.push(g as int);
                    assert forall|g2: int|
                        0 <= g2 < g + 1 && (#[trigger] sccs@[g2])@.len() >= 2 implies exists|
                        t: int,
                    | 0 <= t < gsrc.len() && gsrc[t] == g2 by {
                        if g2 < g {
                            let t = choose|t: int| 0 <= t < gsrc0.len() && gsrc0[t] == g2;
                            assert(gsrc[t] == g2);
                        } else {
                            assert(gsrc[gsrc.len() - 1] == g2);
                        }
                    }
                }
            }
        }
        proof {
            assert forall|g1: int, j1: int, g2: int, j2: int|
                #![trigger r@[g1]@[j1], r@[g2]@[j2]]
                0 <= g1 < r@.len() && 0 <= j1 < r@[g1]@.len() && 0 <= g2 < r@.len() && 0 <= j2
                    < r@[g2]@.len() && (g1 != g2 || j1 != j2) implies r@[g1]@[j1]@
                != r@[g2]@[j2]@ by {
                assert(r@[g1]@[j1]@ == sccs@[gsrc[g1]]@[j1]@);
                assert(r@[g2]@[j2]@ == sccs@[gsrc[g2]]@[j2]@);
                if g1 < g2 {
                    assert(gsrc[g1] < gsrc[g2]);
                } else if g2 < g1 {
                    assert(gsrc[g2] < gsrc[g1]);
                }
            }
            assert forall|g: int, j: int|
                0 <= g < r@.len() && 0 <= j < r@[g]@.len() implies contains_key(
                self.node_seq(),
                (#[trigger] r@[g]@[j])@,
            ) by {
                assert(r@[g]@[j]@ == sccs@[gsrc[g]]@[j]@);
            }
            assert forall|g: int, j1: int, j2: int|
                #![trigger r@[g]@[j1], r@[g]@[j2]]
                0 <= g < r@.len() && 0 <= j1 < r@[g]@.len() && 0 <= j2
                    < r@[g]@.len() implies mutual_keys(*self, r@[g]@[j1]@, r@[g]@[j2]@) by {
                assert(r@[g]@[j1]@ == sccs@[gsrc[g]]@[j1]@);
                assert(r@[g]@[j2]@ == sccs@[gsrc[g]]@[j2]@);
            }
            assert forall|i: int, j: int|
                0 <= i < self.node_seq().len() && 0 <= j < self.node_seq().len() && i != j
                    && #[trigger] reaches(*self, i, j) && #[trigger] reaches(
                *self,
                j,
                i,
            ) implies same_group(r@, self.node_seq()[i]@, self.node_seq()[j]@) by {
                let ki = self.node_seq()[i]@;
                let kj = self.node_seq()[j]@;
                assert(same_group(sccs@, ki, kj));
                let (g2, k1, k2) = choose|g2: int, k1: int, k2: int|
                    0 <= g2 < sccs@.len() && 0 <= k1 < sccs@[g2]@.len() && 0 <= k2
                        < sccs@[g2]@.len() && sccs@[g2]@[k1]@ == ki && sccs@[g2]@[k2]@ == kj;
                assert(ki != kj) by {
                    if i < j {
                        assert(self.node_seq()[i]@ != self.node_seq()[j]@);
                    } else {
                        assert(self.node_seq()[j]@ != self.node_seq()[i]@);
                    }
                }
                assert(k1 != k2);
                assert(sccs@[g2]@.len() >= 2);
                let t = choose|t: int| 0 <= t < gsrc.len() && gsrc[t] == g2;
                assert(r@[t]@[k1]@ == sccs@[g2]@[k1]@);
                assert(r@[t]@[k2]@ == sccs@[g2]@[k2]@);
                assert(same_group(r@, ki, kj));
            }
        }
        r
    }
}

/// Acyclic completeness law: on an acyclic graph, any answer the cycle
/// query can give is the empty list, and any answer the topological sort
/// can give is a valid order. The two `requires` clauses are exactly what
/// `find_cycles` and `topological_sort` promise of their results.
pub proof fn lemma_acyclic_completeness(
    g: DirectedGraph,
    cycles: Seq<Vec<NodeData>>,
    order: Result<Vec<NodeData>, crate::errors::GraphError>,
)
    requires
        g.wf(),
        !g.cyclic(),
        cycles.len() > 0 ==> g.cyclic(),
        (order is Ok) <==> !g.cyclic(),
    ensures
        cycles.len() == 0,
        order is Ok,
{
}

/// The cycle groups of a directed graph: its strongly connected
/// components of more than one node, as `find_cycles` reports them.
pub fn get_cycles(graph: &DirectedGraph) -> (r: Vec<Vec<NodeData>>)
    requires
        graph.wf(),
    ensures
        forall|g: int| 0 <= g < r@.len() ==> (#[trigger] r@[g])@.len() >= 2,
        r@.len() > 0 ==> graph.cyclic(),
        groups_disjoint(r@),
        forall|g: int, j: int|
            0 <= g < r@.len() && 0 <= j < r@[g]@.len() ==> contains_key(
                graph.node_seq(),
                (#[trigger] r@[g]@[j])@,
            ),
        forall|g: int, j1: int, j2: int|
            #![trigger r@[g]@[j1], r@[g]@[j2]]
            0 <= g < r@.len() && 0 <= j1 < r@[g]@.len() && 0 <= j2 < r@[g]@.len() ==> mutual_keys(
                *graph,
                r@[g]@[j1]@,
                r@[g]@[j2]@,
            ),
        forall|i: int, j: int|
            0 <= i < graph.node_seq().len() && 0 <= j < graph.node_seq().len() && i != j
                && #[trigger] reaches(*graph, i, j) && #[trigger] reaches(*graph, j, i)
                ==> same_group(r@, graph.node_seq()[i]@, graph.node_seq()[j]@),
{
    graph.find_cycles()
}

} // verus!
