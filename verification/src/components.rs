use vstd::prelude::*;

use crate::graph::contains_key;
use crate::shortest::connected;
use crate::shortest::is_uwalk;
use crate::shortest::connected_keys;
use crate::shortest::joins;
use crate::shortest::lemma_connected_self;
use crate::shortest::lemma_connected_step;
use crate::shortest::lemma_connected_sym;
use crate::shortest::lemma_connected_trans;
use crate::shortest::ustep;
use crate::scc::work_contains;
use crate::graph::UndirectedGraph;
use crate::node::NodeData;
use crate::node::NodeKey;

verus! {

/// Some group of `comps` holds the identity `k`.
pub open spec fn group_holds(comps: Seq<Vec<NodeData>>, k: NodeKey) -> bool {
    exists|g: int, j: int| 0 <= g < comps.len() && 0 <= j < comps[g]@.len() && comps[g]@[j]@ == k
}

/// Some group of `comps` holds both identities `a` and `b`.
pub open spec fn same_group(comps: Seq<Vec<NodeData>>, a: NodeKey, b: NodeKey) -> bool {
    exists|g: int, k1: int, k2: int|
        0 <= g < comps.len() && 0 <= k1 < comps[g]@.len() && 0 <= k2 < comps[g]@.len()
            && comps[g]@[k1]@ == a && comps[g]@[k2]@ == b
}

/// One group, still under construction, holds the identity `k`.
pub open spec fn group_key_holds(group: Seq<NodeData>, k: NodeKey) -> bool {
    exists|t: int| 0 <= t < group.len() && group[t]@ == k
}

/// Every edge touching arena index `x` has its other endpoint assigned:
/// the flood search is finished with `x`.
pub open spec fn nbrs_assigned(g: UndirectedGraph, flags: Seq<bool>, x: int) -> bool {
    forall|i: int|
        0 <= i < g.edge_seq().len() ==> (((#[trigger] g.edge_seq()[i]).src as int == x
            ==> flags[g.edge_seq()[i].dst as int]) && (g.edge_seq()[i].dst as int == x
            ==> flags[g.edge_seq()[i].src as int]))
}

/// No identity appears at two distinct positions of `comps`.
pub open spec fn groups_disjoint(comps: Seq<Vec<NodeData>>) -> bool {
    forall|g1: int, j1: int, g2: int, j2: int|
        #![trigger comps[g1]@[j1], comps[g2]@[j2]]
        0 <= g1 < comps.len() && 0 <= j1 < comps[g1]@.len() && 0 <= g2 < comps.len() && 0 <= j2
            < comps[g2]@.len() && (g1 != g2 || j1 != j2) ==> comps[g1]@[j1]@ != comps[g2]@[j2]@
}

/// The unassigned arena indices below `n`.
pub open spec fn unassigned_set(flags: Seq<bool>, n: int) -> Set<int> {
    vstd::set_lib::set_int_range(0, n).filter(|x: int| !flags[x])
}

/// How many arena indices below `n` are still unassigned.
pub open spec fn unassigned_count(flags: Seq<bool>, n: int) -> nat {
    unassigned_set(flags, n).len()
}

/// Marking one unassigned index shrinks the unassigned count by one.
pub(crate) proof fn lemma_assign_shrinks(flags0: Seq<bool>, flags1: Seq<bool>, n: int, u: int)
    requires
        flags0.len() == n,
        flags1 == flags0.update(u, true),
        0 <= u < n,
        !flags0[u],
    ensures
        unassigned_count(flags1, n) < unassigned_count(flags0, n),
{
    broadcast use vstd::set::group_set_axioms;

    vstd::set_lib::lemma_int_range(0, n);
    vstd::set_lib::set_int_range(0, n).lemma_len_filter(|x: int| !flags0[x]);
    assert(unassigned_set(flags1, n) =~= unassigned_set(flags0, n).remove(u));
    assert(unassigned_set(flags0, n).contains(u));
    vstd::set::axiom_set_remove_len(unassigned_set(flags0, n), u);
}

/// A finished flood absorbs its whole component: every node on a walk out
/// of the group's seed is already in the group. A neighbour of a group
/// member is assigned, and it cannot sit in an earlier group, since that
/// group would in turn have absorbed the seed.
proof fn lemma_group_absorbs(
    g: UndirectedGraph,
    comps: Seq<Vec<NodeData>>,
    group: Vec<NodeData>,
    cidx: Seq<int>,
    a0: Seq<bool>,
    assigned: Seq<bool>,
    v: int,
    w: Seq<int>,
    idx: int,
)
    requires
        g.wf(),
        a0.len() == g.node_seq().len(),
        assigned.len() == g.node_seq().len(),
        is_uwalk(g, w),
        w.first() == v,
        0 <= v < g.node_seq().len(),
        cidx.len() == group@.len(),
        forall|k: int| 0 <= k < cidx.len() ==> 0 <= #[trigger] cidx[k] < g.node_seq().len(),
        forall|k: int|
            0 <= k < cidx.len() ==> (#[trigger] group@[k])@ == g.node_seq()[cidx[k]]@,
        forall|k: int| 0 <= k < cidx.len() ==> nbrs_assigned(g, assigned, #[trigger] cidx[k]),
        forall|y: int|
            0 <= y < g.node_seq().len() ==> (assigned[y] <==> group_holds(
                comps.push(group),
                (#[trigger] g.node_seq()[y])@,
            )),
        forall|y: int|
            0 <= y < g.node_seq().len() ==> ((#[trigger] a0[y]) <==> group_holds(
                comps,
                g.node_seq()[y]@,
            )),
        forall|i2: int, j2: int|
            0 <= i2 < g.node_seq().len() && 0 <= j2 < g.node_seq().len()
                && #[trigger] connected(g, i2, j2) && group_holds(comps, g.node_seq()[i2]@)
                ==> same_group(comps, g.node_seq()[i2]@, g.node_seq()[j2]@),
        !a0[v],
        group_key_holds(group@, g.node_seq()[v]@),
        0 <= idx < w.len(),
    ensures
        group_key_holds(group@, g.node_seq()[w[idx]]@),
    decreases idx,
{
    if idx == 0 {
        assert(w[0] == v);
    } else {
        lemma_group_absorbs(g, comps, group, cidx, a0, assigned, v, w, idx - 1);
        let t = choose|t: int|
            0 <= t < group@.len() && group@[t]@ == g.node_seq()[w[idx - 1]]@;
        assert(group@[t]@ == g.node_seq()[cidx[t]]@);
        assert(cidx[t] == w[idx - 1]) by {
            if cidx[t] != w[idx - 1] {
                if cidx[t] < w[idx - 1] {
                    assert(g.node_seq()[cidx[t]]@ != g.node_seq()[w[idx - 1]]@);
                } else {
                    assert(g.node_seq()[w[idx - 1]]@ != g.node_seq()[cidx[t]]@);
                }
            }
        }
        assert(ustep(g, w[idx - 1], w[idx]));
        let i = choose|i: int| #[trigger] joins(g, i, w[idx - 1], w[idx]);
        assert(nbrs_assigned(g, assigned, w[idx - 1]));
        assert(assigned[w[idx]]) by {
            if g.edge_seq()[i].src as int == w[idx - 1] {
                assert(assigned[g.edge_seq()[i].dst as int]);
            } else {
                assert(assigned[g.edge_seq()[i].src as int]);
            }
        }
        assert(group_holds(comps.push(group), g.node_seq()[w[idx]]@));
        let (g2, j2) = choose|g2: int, j2: int|
            0 <= g2 < comps.push(group).len() && 0 <= j2 < comps.push(group)[g2]@.len()
                && comps.push(group)[g2]@[j2]@ == g.node_seq()[w[idx]]@;
        if g2 < comps.len() {
            assert(comps[g2]@[j2]@ == g.node_seq()[w[idx]]@);
            assert(group_holds(comps, g.node_seq()[w[idx]]@));
            let pre = w.subrange(0, idx + 1);
            assert(pre.len() == idx + 1);
            assert forall|k: int| 0 <= k < pre.len() implies 0 <= #[trigger] pre[k]
                < g.node_seq().len() by {
                assert(pre[k] == w[k]);
            }
            assert forall|k: int| 0 <= k < pre.len() - 1 implies ustep(
                g,
                #[trigger] pre[k],
                pre[k + 1],
            ) by {
                assert(pre[k] == w[k]);
                assert(pre[k + 1] == w[k + 1]);
            }
            assert(is_uwalk(g, pre));
            assert(pre.first() == v && pre.last() == w[idx]);
            assert(connected(g, v, w[idx]));
            lemma_connected_sym(g, v, w[idx]);
            assert(connected(g, w[idx], v));
            assert(same_group(comps, g.node_seq()[w[idx]]@, g.node_seq()[v]@));
            let (g3, k1, k2) = choose|g3: int, k1: int, k2: int|
                0 <= g3 < comps.len() && 0 <= k1 < comps[g3]@.len() && 0 <= k2
                    < comps[g3]@.len() && comps[g3]@[k1]@ == g.node_seq()[w[idx]]@
                    && comps[g3]@[k2]@ == g.node_seq()[v]@;
            assert(group_holds(comps, g.node_seq()[v]@));
            assert(a0[v]);
            assert(false);
        } else {
            assert(comps.push(group)[g2] == group);
            assert(group_key_holds(group@, g.node_seq()[w[idx]]@));
        }
    }
}

impl UndirectedGraph {
    /// Group the nodes into connected components: each group collects
    /// values reachable from one another over undirected edges, discovered
    /// from the lowest-numbered unvisited node. Together the groups hold
    /// every node of the graph exactly once; isolated nodes form groups of
    /// one.
    #[verifier::rlimit(50)]
    pub fn connected_components(&self) -> (comps: Vec<Vec<NodeData>>)
        requires
            self.wf(),
        ensures
            forall|g: int| 0 <= g < comps@.len() ==> (#[trigger] comps@[g])@.len() > 0,
            forall|g: int, j: int|
                0 <= g < comps@.len() && 0 <= j < comps@[g]@.len() ==> contains_key(
                    self.node_seq(),
                    (#[trigger] comps@[g]@[j])@,
                ),
            groups_disjoint(comps@),
            forall|v: int|
                0 <= v < self.node_seq().len() ==> group_holds(
                    comps@,
                    (#[trigger] self.node_seq()[v])@,
                ),
            forall|g: int, j1: int, j2: int|
                #![trigger comps@[g]@[j1], comps@[g]@[j2]]
                0 <= g < comps@.len() && 0 <= j1 < comps@[g]@.len() && 0 <= j2 < comps@[g]@.len()
                    ==> connected_keys(*self, comps@[g]@[j1]@, comps@[g]@[j2]@),
            forall|i: int, j: int|
                0 <= i < self.node_seq().len() && 0 <= j < self.node_seq().len()
                    && #[trigger] connected(*self, i, j) ==> same_group(
                    comps@,
                    self.node_seq()[i]@,
                    self.node_seq()[j]@,
                ),
    {
        let n = self.node_count();
        let m = self.edge_count();
        let mut assigned: Vec<bool> = Vec::new();
        for v in 0..n
            invariant
                assigned@.len() == v,
                forall|u: int| 0 <= u < v ==> !assigned@[u],
        {
            assigned.push(false);
        }
        let mut comps: Vec<Vec<NodeData>> = Vec::new();
        for v in 0..n
            invariant
                self.wf(),
                n == self.node_seq().len(),
                m == self.edge_seq().len(),
                assigned@.len() == n,
                forall|u: int| 0 <= u < v ==> assigned@[u],
                forall|u: int|
                    0 <= u < n ==> (assigned@[u] <==> group_holds(
                        comps@,
                        (#[trigger] self.node_seq()[u])@,
                    )),
                groups_disjoint(comps@),
                forall|g: int| 0 <= g < comps@.len() ==> (#[trigger] comps@[g])@.len() > 0,
                forall|g: int, j: int|
                    0 <= g < comps@.len() && 0 <= j < comps@[g]@.len() ==> contains_key(
                        self.node_seq(),
                        (#[trigger] comps@[g]@[j])@,
                    ),
                forall|g: int, j1: int, j2: int|
                    #![trigger comps@[g]@[j1], comps@[g]@[j2]]
                    0 <= g < comps@.len() && 0 <= j1 < comps@[g]@.len() && 0 <= j2
                        < comps@[g]@.len() ==> connected_keys(*self, comps@[g]@[j1]@, comps@[g]@[j2]@),
                forall|i2: int, j2: int|
                    0 <= i2 < n && 0 <= j2 < n && #[trigger] connected(*self, i2, j2)
                        && group_holds(comps@, self.node_seq()[i2]@) ==> same_group(
                        comps@,
                        self.node_seq()[i2]@,
                        self.node_seq()[j2]@,
                    ),
        {
            if !assigned[v] {
                let mut group: Vec<NodeData> = Vec::new();
                let mut work: Vec<usize> = Vec::new();
                let ghost a0 = assigned@;
                let ghost mut cidx: Seq<int> = Seq::empty();
                assigned.set(v, true);
                group.push(self.node_at(v).clone());
                work.push(v);
                proof {
                    cidx = seq![v as int];
                    lemma_connected_self(*self, v as int);
                    assert(work@[work@.len() - 1] as int == v as int);
                    assert(work_contains(work@, v as int));
                    let c1 = comps@.push(group);
                    assert(c1[comps@.len() as int]@[0]@ == self.node_seq()[v as int]@);
                    assert(group_holds(c1, self.node_seq()[v as int]@));
                    assert forall|u: int|
                        0 <= u < n implies (assigned@[u] <==> group_holds(
                        c1,
                        (#[trigger] self.node_seq()[u])@,
                    )) by {
                        if u != v as int {
                            assert(assigned@[u] == a0[u]);
                            assert(self.node_seq()[u]@ != self.node_seq()[v as int]@);
                            if a0[u] {
                                let (g, j) = choose|g: int, j: int|
                                    0 <= g < comps@.len() && 0 <= j < comps@[g]@.len()
                                        && comps@[g]@[j]@ == self.node_seq()[u]@;
                                assert(c1[g]@[j]@ == self.node_seq()[u]@);
                            }
                            if group_holds(c1, self.node_seq()[u]@) {
                                let (g, j) = choose|g: int, j: int|
                                    0 <= g < c1.len() && 0 <= j < c1[g]@.len() && c1[g]@[j]@
                                        == self.node_seq()[u]@;
                                if g < comps@.len() {
                                    assert(comps@[g]@[j]@ == self.node_seq()[u]@);
                                    assert(group_holds(comps@, self.node_seq()[u]@));
                                } else {
                                    assert(c1[g]@[j]@ == self.node_seq()[v as int]@);
                                }
                            }
                        }
                    }
                    assert forall|g1: int, j1: int, g2: int, j2: int|
                        #![trigger c1[g1]@[j1], c1[g2]@[j2]]
                        0 <= g1 < c1.len() && 0 <= j1 < c1[g1]@.len() && 0 <= g2 < c1.len() && 0
                            <= j2 < c1[g2]@.len() && (g1 != g2 || j1 != j2) implies c1[g1]@[j1]@
                        != c1[g2]@[j2]@ by {
                        let vk = self.node_seq()[v as int]@;
                        if g1 == comps@.len() {
                            assert(c1[g1]@[j1]@ == vk);
                            assert(g2 < comps@.len());
                            assert(comps@[g2]@[j2]@ == c1[g2]@[j2]@);
                            if c1[g2]@[j2]@ == vk {
                                assert(group_holds(comps@, vk));
                                assert(a0[v as int]);
                            }
                        } else if g2 == comps@.len() {
                            assert(c1[g2]@[j2]@ == vk);
                            assert(comps@[g1]@[j1]@ == c1[g1]@[j1]@);
                            if c1[g1]@[j1]@ == vk {
                                assert(group_holds(comps@, vk));
                                assert(a0[v as int]);
                            }
                        } else {
                            assert(comps@[g1]@[j1]@ == c1[g1]@[j1]@);
                            assert(comps@[g2]@[j2]@ == c1[g2]@[j2]@);
                        }
                    }
                }
                while work.len() > 0
                    invariant
                        self.wf(),
                        n == self.node_seq().len(),
                        m == self.edge_seq().len(),
                        assigned@.len() == n,
                        group@.len() > 0,
                        assigned@[v as int],
                        forall|u: int| 0 <= u < v ==> assigned@[u],
                        v < n,
                        a0.len() == n,
                        !a0[v as int],
                        group@[0]@ == self.node_seq()[v as int]@,
                        forall|y: int|
                            0 <= y < n ==> ((#[trigger] a0[y]) <==> group_holds(
                                comps@,
                                self.node_seq()[y]@,
                            )),
                        forall|i2: int, j2: int|
                            0 <= i2 < n && 0 <= j2 < n && #[trigger] connected(*self, i2, j2)
                                && group_holds(comps@, self.node_seq()[i2]@) ==> same_group(
                                comps@,
                                self.node_seq()[i2]@,
                                self.node_seq()[j2]@,
                            ),
                        forall|k: int|
                            0 <= k < cidx.len() ==> (work_contains(work@, #[trigger] cidx[k])
                                || nbrs_assigned(*self, assigned@, cidx[k])),
                        cidx.len() == group@.len(),
                        forall|k: int|
                            0 <= k < cidx.len() ==> 0 <= #[trigger] cidx[k] < n,
                        forall|k: int|
                            0 <= k < cidx.len() ==> (#[trigger] group@[k])@ == self.node_seq()[cidx[k]]@,
                        forall|k: int|
                            0 <= k < cidx.len() ==> connected(*self, v as int, #[trigger] cidx[k]),
                        forall|w: int|
                            0 <= w < work@.len() ==> (#[trigger] work@[w]) < n,
                        forall|w: int|
                            0 <= w < work@.len() ==> connected(
                                *self,
                                v as int,
                                (#[trigger] work@[w]) as int,
                            ),
                        forall|u: int|
                            0 <= u < n ==> (assigned@[u] <==> group_holds(
                                comps@.push(group),
                                (#[trigger] self.node_seq()[u])@,
                            )),
                        groups_disjoint(comps@.push(group)),
                        forall|g: int| 0 <= g < comps@.len() ==> (#[trigger] comps@[g])@.len() > 0,
                        forall|g: int, j: int|
                            0 <= g < comps@.push(group).len() && 0 <= j < comps@.push(
                                group,
                            )[g]@.len() ==> contains_key(
                                self.node_seq(),
                                (#[trigger] comps@.push(group)[g]@[j])@,
                            ),
                    decreases unassigned_count(assigned@, n as int), work@.len(),
                {
                    let ghost assigned_at_pop = assigned@;
                    let ghost work_at_pop = work@;
                    let u = work[work.len() - 1];
                    work.pop();
                    proof {
                        assert forall|k: int|
                            0 <= k < cidx.len() && cidx[k] != u as int implies (work_contains(
                            work@,
                            #[trigger] cidx[k],
                        ) || nbrs_assigned(*self, assigned@, cidx[k])) by {
                            if work_contains(work_at_pop, cidx[k]) && !nbrs_assigned(
                                *self,
                                assigned@,
                                cidx[k],
                            ) {
                                let a = choose|a: int|
                                    0 <= a < work_at_pop.len() && work_at_pop[a] as int == cidx[k];
                                assert(a < work_at_pop.len() - 1);
                                assert(work@[a] as int == cidx[k]);
                            }
                        }
                    }
                    let mut i: usize = 0;
                    while i < m
                        invariant
                            self.wf(),
                            n == self.node_seq().len(),
                            m == self.edge_seq().len(),
                            assigned@.len() == n,
                            group@.len() > 0,
                            assigned@[v as int],
                            forall|u2: int| 0 <= u2 < v ==> assigned@[u2],
                            v < n,
                            u < n,
                            i <= m,
                            connected(*self, v as int, u as int),
                            a0.len() == n,
                            !a0[v as int],
                            group@[0]@ == self.node_seq()[v as int]@,
                            forall|y: int|
                                0 <= y < n ==> ((#[trigger] a0[y]) <==> group_holds(
                                    comps@,
                                    self.node_seq()[y]@,
                                )),
                            forall|i2: int, j2: int|
                                0 <= i2 < n && 0 <= j2 < n && #[trigger] connected(*self, i2, j2)
                                    && group_holds(comps@, self.node_seq()[i2]@) ==> same_group(
                                    comps@,
                                    self.node_seq()[i2]@,
                                    self.node_seq()[j2]@,
                                ),
                            forall|k: int|
                                0 <= k < cidx.len() && cidx[k] != u as int ==> (work_contains(
                                    work@,
                                    #[trigger] cidx[k],
                                ) || nbrs_assigned(*self, assigned@, cidx[k])),
                            forall|j2: int|
                                0 <= j2 < i ==> (((#[trigger] self.edge_seq()[j2]).src as int
                                    == u as int ==> assigned@[self.edge_seq()[j2].dst as int]) && (
                                self.edge_seq()[j2].dst as int == u as int
                                    ==> assigned@[self.edge_seq()[j2].src as int])),
                            cidx.len() == group@.len(),
                            forall|k: int|
                                0 <= k < cidx.len() ==> 0 <= #[trigger] cidx[k] < n,
                            forall|k: int|
                                0 <= k < cidx.len() ==> (#[trigger] group@[k])@
                                    == self.node_seq()[cidx[k]]@,
                            forall|k: int|
                                0 <= k < cidx.len() ==> connected(
                                    *self,
                                    v as int,
                                    #[trigger] cidx[k],
                                ),
                            forall|w: int|
                                0 <= w < work@.len() ==> (#[trigger] work@[w]) < n,
                            forall|w: int|
                                0 <= w < work@.len() ==> connected(
                                    *self,
                                    v as int,
                                    (#[trigger] work@[w]) as int,
                                ),
                            forall|u2: int|
                                0 <= u2 < n ==> (assigned@[u2] <==> group_holds(
                                    comps@.push(group),
                                    (#[trigger] self.node_seq()[u2])@,
                                )),
                            groups_disjoint(comps@.push(group)),
                            forall|g: int|
                                0 <= g < comps@.len() ==> (#[trigger] comps@[g])@.len() > 0,
                            forall|g: int, j: int|
                                0 <= g < comps@.push(group).len() && 0 <= j < comps@.push(
                                    group,
                                )[g]@.len() ==> contains_key(
                                    self.node_seq(),
                                    (#[trigger] comps@.push(group)[g]@[j])@,
                                ),
                            unassigned_count(assigned@, n as int) <= unassigned_count(
                                assigned_at_pop,
                                n as int,
                            ),
                            unassigned_count(assigned@, n as int) < unassigned_count(
                                assigned_at_pop,
                                n as int,
                            ) || work@.len() <= work_at_pop.len() - 1,
                        decreases m - i,
                    {
                        let e = self.edge_at(i);
                        if e.src == u && !assigned[e.dst] {
                            proof {
                                lemma_assign_shrinks(
                                    assigned@,
                                    assigned@.update(e.dst as int, true),
                                    n as int,
                                    e.dst as int,
                                );
                            }
                            let ghost group0 = group;
                            let ghost cidx0 = cidx;
                            let ghost assigned0 = assigned@;
                            let ghost work0 = work@;
                            assigned.set(e.dst, true);
                            group.push(self.node_at(e.dst).clone());
                            work.push(e.dst);
                            proof {
                                lemma_group_grow(self.node_seq(), comps@, group0, group, e.dst as int);
                                cidx = cidx.push(e.dst as int);
                                assert forall|k: int|
                                    0 <= k < cidx.len() && cidx[k] != u as int implies (
                                work_contains(work@, #[trigger] cidx[k]) || nbrs_assigned(
                                    *self,
                                    assigned@,
                                    cidx[k],
                                )) by {
                                    if k < cidx0.len() {
                                        if cidx0[k] != u as int {
                                            if work_contains(work0, cidx0[k]) {
                                                let a = choose|a: int|
                                                    0 <= a < work0.len() && work0[a] as int
                                                        == cidx0[k];
                                                assert(work@[a] as int == cidx[k]);
                                            } else {
                                                assert forall|i2: int|
                                                    0 <= i2 < m implies (((
                                                #[trigger] self.edge_seq()[i2]).src as int
                                                    == cidx[k]
                                                    ==> assigned@[self.edge_seq()[i2].dst as int])
                                                    && (self.edge_seq()[i2].dst as int == cidx[k]
                                                    ==> assigned@[self.edge_seq()[i2].src as int])) by {
                                                    assert(self.edge_seq()[i2].src < n);
                                                    assert(self.edge_seq()[i2].dst < n);
                                                }
                                            }
                                        }
                                    } else {
                                        assert(work@[work@.len() - 1] as int == cidx[k]);
                                    }
                                }
                                assert(joins(*self, i as int, u as int, e.dst as int));
                                assert(ustep(*self, u as int, e.dst as int));
                                lemma_connected_step(*self, v as int, u as int, e.dst as int);
                                assert forall|k: int|
                                    0 <= k < cidx.len() implies (#[trigger] group@[k])@
                                    == self.node_seq()[cidx[k]]@ && connected(
                                    *self,
                                    v as int,
                                    cidx[k],
                                ) by {
                                    if k < cidx.len() - 1 {
                                        assert(group@[k] == group0@[k]);
                                        assert(cidx[k] == cidx0[k]);
                                        assert(group0@[k]@ == self.node_seq()[cidx0[k]]@);
                                        assert(connected(*self, v as int, cidx0[k]));
                                    } else {
                                        assert(cidx[k] == e.dst as int);
                                    }
                                }
                            }
                        }
                        let e = self.edge_at(i);
                        if e.dst == u && !assigned[e.src] {
                            proof {
                                lemma_assign_shrinks(
                                    assigned@,
                                    assigned@.update(e.src as int, true),
                                    n as int,
                                    e.src as int,
                                );
                            }
                            let ghost group0 = group;
                            let ghost cidx0 = cidx;
                            let ghost assigned0 = assigned@;
                            let ghost work0 = work@;
                            assigned.set(e.src, true);
                            group.push(self.node_at(e.src).clone());
                            work.push(e.src);
                            proof {
                                lemma_group_grow(self.node_seq(), comps@, group0, group, e.src as int);
                                cidx = cidx.push(e.src as int);
                                assert forall|k: int|
                                    0 <= k < cidx.len() && cidx[k] != u as int implies (
                                work_contains(work@, #[trigger] cidx[k]) || nbrs_assigned(
                                    *self,
                                    assigned@,
                                    cidx[k],
                                )) by {
                                    if k < cidx0.len() {
                                        if cidx0[k] != u as int {
                                            if work_contains(work0, cidx0[k]) {
                                                let a = choose|a: int|
                                                    0 <= a < work0.len() && work0[a] as int
                                                        == cidx0[k];
                                                assert(work@[a] as int == cidx[k]);
                                            } else {
                                                assert forall|i2: int|
                                                    0 <= i2 < m implies (((
                                                #[trigger] self.edge_seq()[i2]).src as int
                                                    == cidx[k]
                                                    ==> assigned@[self.edge_seq()[i2].dst as int])
                                                    && (self.edge_seq()[i2].dst as int == cidx[k]
                                                    ==> assigned@[self.edge_seq()[i2].src as int])) by {
                                                    assert(self.edge_seq()[i2].src < n);
                                                    assert(self.edge_seq()[i2].dst < n);
                                                }
                                            }
                                        }
                                    } else {
                                        assert(work@[work@.len() - 1] as int == cidx[k]);
                                    }
                                }
                                assert(joins(*self, i as int, u as int, e.src as int));
                                assert(ustep(*self, u as int, e.src as int));
                                lemma_connected_step(*self, v as int, u as int, e.src as int);
                                assert forall|k: int|
                                    0 <= k < cidx.len() implies (#[trigger] group@[k])@
                                    == self.node_seq()[cidx[k]]@ && connected(
                                    *self,
                                    v as int,
                                    cidx[k],
                                ) by {
                                    if k < cidx.len() - 1 {
                                        assert(group@[k] == group0@[k]);
                                        assert(cidx[k] == cidx0[k]);
                                        assert(group0@[k]@ == self.node_seq()[cidx0[k]]@);
                                        assert(connected(*self, v as int, cidx0[k]));
                                    } else {
                                        assert(cidx[k] == e.src as int);
                                    }
                                }
                            }
                        }
                        i = i + 1;
                    }
                    proof {
                        assert(nbrs_assigned(*self, assigned@, u as int));
                    }
                }
                let ghost comps0 = comps@;
                let ghost group_done = group;
                let ghost cidx_done = cidx;
                let ghost assigned_done = assigned@;
                comps.push(group);
                proof {
                    assert(comps@ == comps0.push(group_done));
                    assert forall|g: int, j1: int, j2: int|
                        #![trigger comps@[g]@[j1], comps@[g]@[j2]]
                        0 <= g < comps@.len() && 0 <= j1 < comps@[g]@.len() && 0 <= j2
                            < comps@[g]@.len() implies connected_keys(
                        *self,
                        comps@[g]@[j1]@,
                        comps@[g]@[j2]@,
                    ) by {
                        if g < comps0.len() {
                            assert(comps@[g]@[j1]@ == comps0[g]@[j1]@);
                            assert(comps@[g]@[j2]@ == comps0[g]@[j2]@);
                        } else {
                            assert(comps@[g] == group_done);
                            let i1 = cidx[j1];
                            let i2 = cidx[j2];
                            assert(group_done@[j1]@ == self.node_seq()[i1]@);
                            assert(group_done@[j2]@ == self.node_seq()[i2]@);
                            assert(connected(*self, v as int, i1));
                            assert(connected(*self, v as int, i2));
                            lemma_connected_sym(*self, v as int, i1);
                            lemma_connected_trans(*self, i1, v as int, i2);
                            assert(connected_keys(*self, self.node_seq()[i1]@, self.node_seq()[i2]@));
                        }
                    }
                    assert forall|i2: int, j2: int|
                        0 <= i2 < n && 0 <= j2 < n && #[trigger] connected(*self, i2, j2)
                            && group_holds(comps@, self.node_seq()[i2]@) implies same_group(
                        comps@,
                        self.node_seq()[i2]@,
                        self.node_seq()[j2]@,
                    ) by {
                        let ki = self.node_seq()[i2]@;
                        let kj = self.node_seq()[j2]@;
                        let (g2, t) = choose|g2: int, t: int|
                            0 <= g2 < comps@.len() && 0 <= t < comps@[g2]@.len() && comps@[g2]@[t]@
                                == ki;
                        if g2 < comps0.len() {
                            assert(comps0[g2]@[t]@ == ki);
                            assert(group_holds(comps0, ki));
                            assert(same_group(comps0, ki, kj));
                            let (g3, k1, k2) = choose|g3: int, k1: int, k2: int|
                                0 <= g3 < comps0.len() && 0 <= k1 < comps0[g3]@.len() && 0 <= k2
                                    < comps0[g3]@.len() && comps0[g3]@[k1]@ == ki
                                    && comps0[g3]@[k2]@ == kj;
                            assert(comps@[g3]@[k1]@ == ki);
                            assert(comps@[g3]@[k2]@ == kj);
                        } else {
                            assert(comps@[g2] == group_done);
                            assert(group_done@[t]@ == ki);
                            let ix = cidx_done[t];
                            assert(group_done@[t]@ == self.node_seq()[ix]@);
                            assert(ix == i2) by {
                                if ix != i2 {
                                    if ix < i2 {
                                        assert(self.node_seq()[ix]@ != self.node_seq()[i2]@);
                                    } else {
                                        assert(self.node_seq()[i2]@ != self.node_seq()[ix]@);
                                    }
                                }
                            }
                            assert(connected(*self, v as int, i2));
                            lemma_connected_trans(*self, v as int, i2, j2);
                            let w = choose|p: Seq<int>|
                                is_uwalk(*self, p) && p.first() == v as int && p.last() == j2;
                            assert(group_key_holds(group_done@, self.node_seq()[v as int]@)) by {
                                assert(group_done@[0]@ == self.node_seq()[v as int]@);
                            }
                            lemma_group_absorbs(
                                *self,
                                comps0,
                                group_done,
                                cidx_done,
                                a0,
                                assigned_done,
                                v as int,
                                w,
                                w.len() - 1,
                            );
                            let t2 = choose|t2: int|
                                0 <= t2 < group_done@.len() && group_done@[t2]@ == kj;
                            assert(comps@[g2]@[t]@ == ki && comps@[g2]@[t2]@ == kj);
                            assert(same_group(comps@, ki, kj));
                        }
                    }
                }
            }
        }
        comps
    }

}

/// Appending a freshly assigned node's value to the group in progress
/// keeps the assignment bookkeeping exact: the new identity is now
/// held, everything else is as before.
pub(crate) proof fn lemma_group_grow(
    nodes: Seq<NodeData>,
    comps: Seq<Vec<NodeData>>,
    group0: Vec<NodeData>,
    group1: Vec<NodeData>,
    nb: int,
)
    requires
        0 <= nb < nodes.len(),
            group1@.len() == group0@.len() + 1,
            forall|j: int| 0 <= j < group0@.len() ==> group1@[j] == group0@[j],
            group1@.last()@ == nodes[nb]@,
            !group_holds(comps.push(group0), nodes[nb]@),
            groups_disjoint(comps.push(group0)),
            forall|g: int, j: int|
                0 <= g < comps.push(group0).len() && 0 <= j < comps.push(group0)[g]@.len()
                    ==> contains_key(nodes, (#[trigger] comps.push(group0)[g]@[j])@),
        ensures
            groups_disjoint(comps.push(group1)),
            forall|g: int, j: int|
                0 <= g < comps.push(group1).len() && 0 <= j < comps.push(group1)[g]@.len()
                    ==> contains_key(nodes, (#[trigger] comps.push(group1)[g]@[j])@),
            group_holds(comps.push(group1), nodes[nb]@),
            forall|k: NodeKey|
                #[trigger] group_holds(comps.push(group1), k) <==> (group_holds(
                    comps.push(group0),
                    k,
                ) || k == nodes[nb]@),
    {
        let c0 = comps.push(group0);
        let c1 = comps.push(group1);
        assert(c1[comps.len() as int]@[group0@.len() as int]@ == nodes[nb]@);
        assert(group_holds(c1, nodes[nb]@));
        assert forall|k: NodeKey| #[trigger]
            group_holds(c1, k) implies (group_holds(c0, k) || k == nodes[nb]@) by {
            let (g, j) = choose|g: int, j: int|
                0 <= g < c1.len() && 0 <= j < c1[g]@.len() && c1[g]@[j]@ == k;
            if g < comps.len() {
                assert(c0[g]@[j]@ == k);
            } else {
                if j < group0@.len() {
                    assert(c0[g]@[j]@ == k);
                }
            }
        }
        assert forall|k: NodeKey|
            group_holds(c0, k) implies #[trigger] group_holds(c1, k) by {
            let (g, j) = choose|g: int, j: int|
                0 <= g < c0.len() && 0 <= j < c0[g]@.len() && c0[g]@[j]@ == k;
            assert(c1[g]@[j]@ == k);
        }
        assert forall|g1: int, j1: int, g2: int, j2: int|
            #![trigger c1[g1]@[j1], c1[g2]@[j2]]
            0 <= g1 < c1.len() && 0 <= j1 < c1[g1]@.len() && 0 <= g2 < c1.len() && 0 <= j2
                < c1[g2]@.len() && (g1 != g2 || j1 != j2) implies c1[g1]@[j1]@ != c1[g2]@[j2]@ by {
            let fresh = nodes[nb]@;
            if g1 == comps.len() && j1 == group0@.len() {
                assert(c1[g1]@[j1]@ == fresh);
                if g2 < comps.len() || j2 < group0@.len() {
                    assert(c0[g2]@[j2]@ == c1[g2]@[j2]@);
                    if c1[g2]@[j2]@ == fresh {
                        assert(group_holds(c0, fresh));
                    }
                }
            } else if g2 == comps.len() && j2 == group0@.len() {
                assert(c1[g2]@[j2]@ == fresh);
                assert(c0[g1]@[j1]@ == c1[g1]@[j1]@);
                if c1[g1]@[j1]@ == fresh {
                    assert(group_holds(c0, fresh));
                }
            } else {
                assert(c0[g1]@[j1]@ == c1[g1]@[j1]@);
                assert(c0[g2]@[j2]@ == c1[g2]@[j2]@);
            }
        }
        assert forall|g: int, j: int|
            0 <= g < c1.len() && 0 <= j < c1[g]@.len() implies contains_key(
            nodes,
            (#[trigger] c1[g]@[j])@,
        ) by {
            if g == comps.len() && j == group0@.len() {
                assert(c1[g]@[j]@ == nodes[nb]@);
            } else {
                assert(c0[g]@[j]@ == c1[g]@[j]@);
            }
        }
    }

} // verus!
