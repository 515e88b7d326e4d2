use vstd::prelude::*;

use crate::components::lemma_assign_shrinks;
use crate::components::unassigned_count;
use crate::graph::contains_key;
use crate::graph::find_node;
use crate::graph::key_index;
use crate::graph::lemma_key_index_unique;
use crate::graph::UndirectedGraph;
use crate::node::NodeData;
use crate::node::NodeKey;
use crate::weights::add_bits;
use crate::weights::weight_add;
use crate::weights::weight_lt;
use crate::weights::ZERO_WEIGHT_BITS;

verus! {

/// Stored edge `i` joins arena indices `a` and `b`, in either stored
/// orientation.
pub open spec fn joins(g: UndirectedGraph, i: int, a: int, b: int) -> bool {
    &&& 0 <= i < g.edge_seq().len()
    &&& ((g.edge_seq()[i].src as int == a && g.edge_seq()[i].dst as int == b) || (
    g.edge_seq()[i].src as int == b && g.edge_seq()[i].dst as int == a))
}

/// Arena indices `a` and `b` are joined by some stored edge.
pub open spec fn ustep(g: UndirectedGraph, a: int, b: int) -> bool {
    exists|i: int| #[trigger] joins(g, i, a, b)
}

/// Arena indices `a` and `b` are joined by some stored edge of weight `w`.
pub open spec fn ustep_w(g: UndirectedGraph, a: int, b: int, w: u64) -> bool {
    exists|i: int| (#[trigger] joins(g, i, a, b)) && g.edge_seq()[i].weight == w
}

/// `p` walks the graph over undirected edges, by arena indices.
pub open spec fn is_uwalk(g: UndirectedGraph, p: Seq<int>) -> bool {
    &&& p.len() > 0
    &&& forall|k: int| 0 <= k < p.len() ==> 0 <= #[trigger] p[k] < g.node_seq().len()
    &&& forall|k: int| 0 <= k < p.len() - 1 ==> ustep(g, #[trigger] p[k], p[k + 1])
}

/// Arena indices `u` and `v` lie in one connected component.
pub open spec fn connected(g: UndirectedGraph, u: int, v: int) -> bool {
    exists|p: Seq<int>| is_uwalk(g, p) && p.first() == u && p.last() == v
}

/// Some stored edge joins the identities `a` and `b` and carries the
/// weight bit pattern `w`.
pub open spec fn edge_with_weight(g: UndirectedGraph, a: NodeKey, b: NodeKey, w: u64) -> bool {
    exists|i: int|
        0 <= i < g.edge_seq().len() && (#[trigger] g.edge_seq()[i]).src < g.node_seq().len()
            && g.edge_seq()[i].dst < g.node_seq().len() && ((g.node_seq()[g.edge_seq()[i].src as int]@
            == a && g.node_seq()[g.edge_seq()[i].dst as int]@ == b) || (
        g.node_seq()[g.edge_seq()[i].src as int]@ == b
            && g.node_seq()[g.edge_seq()[i].dst as int]@ == a)) && g.edge_seq()[i].weight == w
}

/// The total of a weight list: the weights added left to right onto the
/// zero weight, each addition an IEEE 754 double addition on bit patterns.
pub open spec fn fold_add(ws: Seq<u64>) -> u64
    decreases ws.len(),
{
    if ws.len() == 0 {
        ZERO_WEIGHT_BITS
    } else {
        add_bits(fold_add(ws.drop_last()), ws.last())
    }
}

/// The returned total is the fold of some list of edge weights, one per
/// consecutive pair of the returned path's identities, each drawn from an
/// edge that joins that pair.
pub open spec fn path_total(g: UndirectedGraph, keys: Seq<NodeKey>, total: u64) -> bool {
    exists|ws: Seq<u64>|
        (#[trigger] ws.len()) == keys.len() - 1 && (forall|k: int|
            0 <= k < ws.len() ==> edge_with_weight(g, keys[k], keys[k + 1], #[trigger] ws[k]))
            && total == fold_add(ws)
}

/// One tentative search entry is sound: its stored path walks the graph
/// from the start to its node, and its distance is the fold of its
/// recorded edge weights.
pub open spec fn entry_ok(
    g: UndirectedGraph,
    from_i: int,
    v: int,
    p: Seq<usize>,
    ws: Seq<u64>,
    d: u64,
) -> bool {
    &&& p.len() >= 1
    &&& p[0] as int == from_i
    &&& p[p.len() - 1] as int == v
    &&& forall|k: int| 0 <= k < p.len() ==> (#[trigger] p[k]) < g.node_seq().len()
    &&& ws.len() == p.len() - 1
    &&& forall|k: int|
        0 <= k < p.len() - 1 ==> ustep_w(g, (#[trigger] p[k]) as int, p[k + 1] as int, ws[k])
    &&& d == fold_add(ws)
}

/// The identities `a` and `b` are held by arena nodes of one connected
/// component.
pub open spec fn connected_keys(g: UndirectedGraph, a: NodeKey, b: NodeKey) -> bool {
    exists|i: int, j: int|
        #![trigger g.node_seq()[i], g.node_seq()[j]]
        0 <= i < g.node_seq().len() && 0 <= j < g.node_seq().len() && g.node_seq()[i]@ == a
            && g.node_seq()[j]@ == b && connected(g, i, j)
}

/// A single node is a walk: every index is connected to itself.
pub proof fn lemma_connected_self(g: UndirectedGraph, u: int)
    requires
        0 <= u < g.node_seq().len(),
    ensures
        connected(g, u, u),
{
    let p = seq![u];
    assert(is_uwalk(g, p));
    assert(p.first() == u && p.last() == u);
}

/// One more edge extends a connection.
pub proof fn lemma_connected_step(g: UndirectedGraph, a: int, b: int, c: int)
    requires
        connected(g, a, b),
        ustep(g, b, c),
        0 <= c < g.node_seq().len(),
    ensures
        connected(g, a, c),
{
    let p = choose|p: Seq<int>| is_uwalk(g, p) && p.first() == a && p.last() == b;
    let q = p.push(c);
    assert forall|k: int| 0 <= k < q.len() - 1 implies ustep(g, #[trigger] q[k], q[k + 1]) by {
        if k < p.len() - 1 {
            assert(q[k] == p[k]);
            assert(q[k + 1] == p[k + 1]);
        } else {
            assert(q[k] == p.last());
            assert(q[k + 1] == c);
        }
    }
    assert(is_uwalk(g, q));
    assert(q.first() == a && q.last() == c);
}

/// Walks run backward too: undirected connectivity is symmetric.
pub proof fn lemma_connected_sym(g: UndirectedGraph, a: int, b: int)
    requires
        connected(g, a, b),
    ensures
        connected(g, b, a),
{
    let p = choose|p: Seq<int>| is_uwalk(g, p) && p.first() == a && p.last() == b;
    let q = p.reverse();
    assert(q.len() == p.len());
    assert forall|k: int| 0 <= k < q.len() implies 0 <= #[trigger] q[k] < g.node_seq().len() by {
        assert(q[k] == p[p.len() - 1 - k]);
    }
    assert forall|k: int| 0 <= k < q.len() - 1 implies ustep(g, #[trigger] q[k], q[k + 1]) by {
        assert(q[k] == p[p.len() - 1 - k]);
        assert(q[k + 1] == p[p.len() - 2 - k]);
        assert(ustep(g, p[p.len() - 2 - k], p[p.len() - 1 - k]));
        let i = choose|i: int| #[trigger] joins(g, i, p[p.len() - 2 - k], p[p.len() - 1 - k]);
        assert(joins(g, i, q[k], q[k + 1]));
    }
    assert(is_uwalk(g, q));
    assert(q.first() == b && q.last() == a);
}

/// Two walks that meet end to start join into one: undirected
/// connectivity is transitive.
pub proof fn lemma_connected_trans(g: UndirectedGraph, a: int, b: int, c: int)
    requires
        connected(g, a, b),
        connected(g, b, c),
    ensures
        connected(g, a, c),
{
    let p1 = choose|p: Seq<int>| is_uwalk(g, p) && p.first() == a && p.last() == b;
    let p2 = choose|p: Seq<int>| is_uwalk(g, p) && p.first() == b && p.last() == c;
    let w = p1 + p2.drop_first();
    assert(w.len() == p1.len() + p2.len() - 1);
    assert(w.first() == a);
    assert(w.last() == c) by {
        if p2.len() == 1 {
            assert(w == p1);
        } else {
            assert(w[w.len() - 1] == p2.drop_first()[p2.len() - 2]);
            assert(p2.drop_first()[p2.len() - 2] == p2[p2.len() - 1]);
        }
    }
    assert forall|k: int| 0 <= k < w.len() implies 0 <= #[trigger] w[k] < g.node_seq().len() by {
        if k < p1.len() {
            assert(w[k] == p1[k]);
        } else {
            assert(w[k] == p2.drop_first()[k - p1.len()]);
            assert(p2.drop_first()[k - p1.len()] == p2[k - p1.len() + 1]);
        }
    }
    assert forall|k: int| 0 <= k < w.len() - 1 implies ustep(g, #[trigger] w[k], w[k + 1]) by {
        if k < p1.len() - 1 {
            assert(w[k] == p1[k]);
            assert(w[k + 1] == p1[k + 1]);
        } else if k == p1.len() - 1 {
            assert(w[k] == p1.last());
            assert(p1.last() == p2.first());
            assert(w[k + 1] == p2.drop_first()[0]);
            assert(p2.drop_first()[0] == p2[1]);
            assert(ustep(g, p2[0], p2[1]));
        } else {
            assert(w[k] == p2.drop_first()[k - p1.len()]);
            assert(w[k + 1] == p2.drop_first()[k + 1 - p1.len()]);
            assert(p2.drop_first()[k - p1.len()] == p2[k - p1.len() + 1]);
            assert(p2.drop_first()[k + 1 - p1.len()] == p2[k + 1 - p1.len() + 1]);
            assert(ustep(g, p2[k - p1.len() + 1], p2[k - p1.len() + 2]));
        }
    }
    assert(is_uwalk(g, w));
}

fn clone_indices(v: &Vec<usize>) -> (r: Vec<usize>)
    ensures
        r@ == v@,
{
    let n = v.len();
    let mut r: Vec<usize> = Vec::new();
    for i in 0..n
        invariant
            n == v@.len(),
            r@ == v@.take(i as int),
    {
        r.push(v[i]);
        proof {
            assert(r@ =~= v@.take(i + 1));
        }
    }
    proof {
        assert(v@.take(n as int) =~= v@);
    }
    r
}

/// Every node on a walk that starts at a settled node is settled: the
/// search only stops once the frontier is exhausted, so distances spread
/// over whole components.
proof fn lemma_walk_settled(
    g: UndirectedGraph,
    w: Seq<int>,
    dist: Seq<Option<u64>>,
    visited: Seq<bool>,
    k: int,
)
    requires
        g.wf(),
        is_uwalk(g, w),
        dist.len() == g.node_seq().len(),
        visited.len() == g.node_seq().len(),
        dist[w.first()] is Some,
        forall|v: int| 0 <= v < dist.len() && (#[trigger] dist[v]) is Some ==> visited[v],
        forall|v: int, i: int|
            #![trigger visited[v], g.edge_seq()[i]]
            0 <= v < visited.len() && 0 <= i < g.edge_seq().len() && visited[v] ==> ((
            g.edge_seq()[i].src as int == v ==> dist[g.edge_seq()[i].dst as int] is Some) && (
            g.edge_seq()[i].dst as int == v ==> dist[g.edge_seq()[i].src as int] is Some)),
        0 <= k < w.len(),
    ensures
        dist[w[k]] is Some,
    decreases k,
{
    if k > 0 {
        lemma_walk_settled(g, w, dist, visited, k - 1);
        assert(visited[w[k - 1]]);
        assert(ustep(g, w[k - 1], w[k]));
        let i = choose|i: int| #[trigger] joins(g, i, w[k - 1], w[k]);
        assert(0 <= i < g.edge_seq().len());
        if g.edge_seq()[i].src as int == w[k - 1] {
            assert(dist[g.edge_seq()[i].dst as int] is Some);
        } else {
            assert(dist[g.edge_seq()[i].src as int] is Some);
        }
    }
}

impl UndirectedGraph {
    /// A cheapest-first search for a route between two node values.
    /// Returns the route's values, endpoints included, with the summed
    /// weight, or `None` exactly when an endpoint is not in the graph or
    /// no route joins them. With non-negative weights the search is the
    /// classic least-total-weight one; with negative or NaN weights the
    /// route returned is still a real route with its real total, but which
    /// one is unspecified. The contract below fixes the success condition,
    /// the route's validity and its exact total; it makes no least-weight
    /// claim, which would rest on order and monotonicity facts about IEEE
    /// addition that the trusted arithmetic here does not state.
    pub fn shortest_path(&self, from: &NodeData, to: &NodeData) -> (r: Option<
        (Vec<NodeData>, u64),
    >)
        requires
            self.wf(),
        ensures
            (r is Some) <==> (contains_key(self.node_seq(), from@) && contains_key(
                self.node_seq(),
                to@,
            ) && connected(
                *self,
                key_index(self.node_seq(), from@),
                key_index(self.node_seq(), to@),
            )),
            r matches Some(pt) ==> ({
                &&& pt.0@.len() >= 1
                &&& pt.0@[0]@ == from@
                &&& pt.0@[pt.0@.len() - 1]@ == to@
                &&& forall|k: int|
                    0 <= k < pt.0@.len() ==> contains_key(
                        self.node_seq(),
                        (#[trigger] pt.0@[k])@,
                    )
                &&& forall|k: int|
                    0 <= k < pt.0@.len() - 1 ==> self.has_edge_key(
                        (#[trigger] pt.0@[k])@,
                        pt.0@[k + 1]@,
                    )
                &&& path_total(*self, pt.0@.map_values(|nd: NodeData| nd@), pt.1)
            }),
    {
        let n = self.node_count();
        let m = self.edge_count();
        let from_i = match find_node(self.nodes_ref(), from) {
            Some(i) => i,
            None => {
                return None;
            },
        };
        let to_i = match find_node(self.nodes_ref(), to) {
            Some(i) => i,
            None => {
                return None;
            },
        };
        proof {
            lemma_key_index_unique(self.node_seq(), from@, from_i as int);
            lemma_key_index_unique(self.node_seq(), to@, to_i as int);
        }
        let mut dist: Vec<Option<u64>> = Vec::new();
        let mut paths: Vec<Option<Vec<usize>>> = Vec::new();
        let mut visited: Vec<bool> = Vec::new();
        for v in 0..n
            invariant
                dist@.len() == v,
                paths@.len() == v,
                visited@.len() == v,
                forall|u: int| 0 <= u < v ==> (#[trigger] dist@[u]) is None,
                forall|u: int| 0 <= u < v ==> (#[trigger] paths@[u]) is None,
                forall|u: int| 0 <= u < v ==> !visited@[u],
        {
            dist.push(None);
            paths.push(None);
            visited.push(false);
        }
        let ghost mut wss: Seq<Seq<u64>> = Seq::new(n as nat, |i: int| Seq::<u64>::empty());
        let mut start_path: Vec<usize> = Vec::new();
        start_path.push(from_i);
        dist.set(from_i, Some(ZERO_WEIGHT_BITS));
        paths.set(from_i, Some(start_path));
        proof {
            assert(paths@[from_i as int].unwrap()@ =~= seq![from_i]);
            assert(wss[from_i as int] =~= Seq::<u64>::empty());
            assert(fold_add(Seq::<u64>::empty()) == ZERO_WEIGHT_BITS);
            assert(entry_ok(
                *self,
                from_i as int,
                from_i as int,
                seq![from_i],
                Seq::<u64>::empty(),
                ZERO_WEIGHT_BITS,
            ));
            assert(paths@[from_i as int].unwrap()@ == seq![from_i]);
        }
        loop
            invariant
                self.wf(),
                n == self.node_seq().len(),
                m == self.edge_seq().len(),
                from_i < n,
                to_i < n,
                dist@.len() == n,
                paths@.len() == n,
                visited@.len() == n,
                wss.len() == n,
                dist@[from_i as int] is Some,
                forall|v: int|
                    0 <= v < n ==> ((#[trigger] dist@[v]) is Some <==> paths@[v] is Some),
                forall|v: int|
                    0 <= v < n && (#[trigger] dist@[v]) is Some ==> entry_ok(
                        *self,
                        from_i as int,
                        v,
                        paths@[v].unwrap()@,
                        wss[v],
                        dist@[v].unwrap(),
                    ),
                forall|v: int| 0 <= v < n && #[trigger] visited@[v] ==> dist@[v] is Some,
                forall|v: int, i: int|
                    #![trigger visited@[v], self.edge_seq()[i]]
                    0 <= v < n && 0 <= i < m && visited@[v] ==> ((self.edge_seq()[i].src as int
                        == v ==> dist@[self.edge_seq()[i].dst as int] is Some) && (
                    self.edge_seq()[i].dst as int == v ==> dist@[self.edge_seq()[i].src as int]
                        is Some)),
            ensures
                self.wf(),
                n == self.node_seq().len(),
                m == self.edge_seq().len(),
                dist@.len() == n,
                paths@.len() == n,
                visited@.len() == n,
                wss.len() == n,
                dist@[from_i as int] is Some,
                forall|v: int|
                    0 <= v < n ==> ((#[trigger] dist@[v]) is Some <==> paths@[v] is Some),
                forall|v: int|
                    0 <= v < n && (#[trigger] dist@[v]) is Some ==> entry_ok(
                        *self,
                        from_i as int,
                        v,
                        paths@[v].unwrap()@,
                        wss[v],
                        dist@[v].unwrap(),
                    ),
                forall|v: int| 0 <= v < n && (#[trigger] dist@[v]) is Some ==> visited@[v],
                forall|v: int, i: int|
                    #![trigger visited@[v], self.edge_seq()[i]]
                    0 <= v < n && 0 <= i < m && visited@[v] ==> ((self.edge_seq()[i].src as int
                        == v ==> dist@[self.edge_seq()[i].dst as int] is Some) && (
                    self.edge_seq()[i].dst as int == v ==> dist@[self.edge_seq()[i].src as int]
                        is Some)),
            decreases unassigned_count(visited@, n as int),
        {
            let mut best: Option<usize> = None;
            let mut v2: usize = 0;
            while v2 < n
                invariant
                    n == dist@.len(),
                    n == visited@.len(),
                    v2 <= n,
                    match best {
                        Some(b) => b < n && !visited@[b as int] && dist@[b as int] is Some,
                        None => forall|u: int|
                            0 <= u < v2 ==> !(!visited@[u] && (#[trigger] dist@[u]) is Some),
                    },
                decreases n - v2,
            {
                if !visited[v2] && dist[v2].is_some() {
                    match best {
                        Some(b) => {
                            let dv = dist[v2].unwrap();
                            let db = dist[b].unwrap();
                            if weight_lt(dv, db) {
                                best = Some(v2);
                            }
                        },
                        None => {
                            best = Some(v2);
                        },
                    }
                }
                v2 = v2 + 1;
            }
            match best {
                Some(u) => {
                    proof {
                        lemma_assign_shrinks(
                            visited@,
                            visited@.update(u as int, true),
                            n as int,
                            u as int,
                        );
                    }
                    let ghost visited_before = visited@;
                    visited.set(u, true);
                    let du = dist[u].unwrap();
                    let base = match &paths[u] {
                        Some(p) => clone_indices(p),
                        None => vstd::pervasive::unreached(),
                    };
                    let mut i: usize = 0;
                    while i < m
                        invariant
                            self.wf(),
                            n == self.node_seq().len(),
                            m == self.edge_seq().len(),
                            from_i < n,
                            u < n,
                            i <= m,
                            dist@.len() == n,
                            paths@.len() == n,
                            visited@.len() == n,
                            wss.len() == n,
                            visited@[u as int],
                            dist@[u as int] == Some(du),
                            base@ == paths@[u as int].unwrap()@,
                            dist@[from_i as int] is Some,
                            unassigned_count(visited@, n as int) < unassigned_count(
                                visited_before,
                                n as int,
                            ),
                            forall|v: int|
                                0 <= v < n ==> ((#[trigger] dist@[v]) is Some <==> paths@[v]
                                    is Some),
                            forall|v: int|
                                0 <= v < n && (#[trigger] dist@[v]) is Some ==> entry_ok(
                                    *self,
                                    from_i as int,
                                    v,
                                    paths@[v].unwrap()@,
                                    wss[v],
                                    dist@[v].unwrap(),
                                ),
                            forall|v: int|
                                0 <= v < n && #[trigger] visited@[v] ==> dist@[v] is Some,
                            forall|v: int, j: int|
                                #![trigger visited@[v], self.edge_seq()[j]]
                                0 <= v < n && 0 <= j < m && visited@[v] && v != u as int ==> ((
                                self.edge_seq()[j].src as int == v ==> dist@[self.edge_seq()[j].dst as int]
                                    is Some) && (self.edge_seq()[j].dst as int == v
                                    ==> dist@[self.edge_seq()[j].src as int] is Some)),
                            forall|j: int|
                                0 <= j < i ==> (((#[trigger] self.edge_seq()[j]).src as int
                                    == u as int ==> dist@[self.edge_seq()[j].dst as int] is Some)
                                    && (self.edge_seq()[j].dst as int == u as int
                                    ==> dist@[self.edge_seq()[j].src as int] is Some)),
                        decreases m - i,
                    {
                        let e = self.edge_at(i);
                        let mut round: usize = 0;
                        while round < 2
                            invariant
                                self.wf(),
                                n == self.node_seq().len(),
                                m == self.edge_seq().len(),
                                from_i < n,
                                u < n,
                                i < m,
                                round <= 2,
                                e == self.edge_seq()[i as int],
                                dist@.len() == n,
                                paths@.len() == n,
                                visited@.len() == n,
                                wss.len() == n,
                                visited@[u as int],
                                dist@[u as int] == Some(du),
                                base@ == paths@[u as int].unwrap()@,
                                dist@[from_i as int] is Some,
                                unassigned_count(visited@, n as int) < unassigned_count(
                                    visited_before,
                                    n as int,
                                ),
                                forall|v: int|
                                    0 <= v < n ==> ((#[trigger] dist@[v]) is Some <==> paths@[v]
                                        is Some),
                                forall|v: int|
                                    0 <= v < n && (#[trigger] dist@[v]) is Some ==> entry_ok(
                                        *self,
                                        from_i as int,
                                        v,
                                        paths@[v].unwrap()@,
                                        wss[v],
                                        dist@[v].unwrap(),
                                    ),
                                forall|v: int|
                                    0 <= v < n && #[trigger] visited@[v] ==> dist@[v] is Some,
                                forall|v: int, j: int|
                                    #![trigger visited@[v], self.edge_seq()[j]]
                                    0 <= v < n && 0 <= j < m && visited@[v] && v != u as int
                                        ==> ((self.edge_seq()[j].src as int == v
                                        ==> dist@[self.edge_seq()[j].dst as int] is Some) && (
                                    self.edge_seq()[j].dst as int == v
                                        ==> dist@[self.edge_seq()[j].src as int] is Some)),
                                forall|j: int|
                                    0 <= j < i ==> (((#[trigger] self.edge_seq()[j]).src as int
                                        == u as int ==> dist@[self.edge_seq()[j].dst as int]
                                        is Some) && (self.edge_seq()[j].dst as int == u as int
                                        ==> dist@[self.edge_seq()[j].src as int] is Some)),
                                round >= 1 ==> (e.src as int == u as int
                                    ==> dist@[e.dst as int] is Some),
                                round >= 2 ==> (e.dst as int == u as int
                                    ==> dist@[e.src as int] is Some),
                            decreases 2 - round,
                        {
                            let nb_opt: Option<usize> = if round == 0 {
                                if e.src == u {
                                    Some(e.dst)
                                } else {
                                    None
                                }
                            } else {
                                if e.dst == u {
                                    Some(e.src)
                                } else {
                                    None
                                }
                            };
                            match nb_opt {
                                Some(nb) => {
                                    if !visited[nb] {
                                    let better: bool = match dist[nb] {
                                        Some(dnb) => {
                                            let alt = weight_add(du, e.weight);
                                            weight_lt(alt, dnb)
                                        },
                                        None => true,
                                    };
                                    if better {
                                        let alt = weight_add(du, e.weight);
                                        let mut newp = clone_indices(&base);
                                        newp.push(nb);
                                        let ghost old_dist = dist@;
                                        let ghost old_paths = paths@;
                                        dist.set(nb, Some(alt));
                                        paths.set(nb, Some(newp));
                                        proof {
                                            wss = wss.update(
                                                nb as int,
                                                wss[u as int].push(e.weight),
                                            );
                                            let pu = base@;
                                            let wu = wss[u as int];
                                            assert(entry_ok(
                                                *self,
                                                from_i as int,
                                                u as int,
                                                pu,
                                                wu,
                                                du,
                                            ));
                                            let pn = pu.push(nb);
                                            let wn = wu.push(e.weight);
                                            assert(paths@[nb as int].unwrap()@ == pn);
                                            assert(wss[nb as int] == wn);
                                            assert(joins(*self, i as int, u as int, nb as int));
                                            assert forall|k: int|
                                                0 <= k < pn.len() - 1 implies ustep_w(
                                                *self,
                                                (#[trigger] pn[k]) as int,
                                                pn[k + 1] as int,
                                                wn[k],
                                            ) by {
                                                if k < pu.len() - 1 {
                                                    assert(pn[k] == pu[k]);
                                                    assert(pn[k + 1] == pu[k + 1]);
                                                    assert(wn[k] == wu[k]);
                                                } else {
                                                    assert(pn[k] == pu[pu.len() - 1]);
                                                    assert(pn[k + 1] == nb);
                                                    assert(wn[k] == e.weight);
                                                }
                                            }
                                            assert(wn.drop_last() =~= wu);
                                            assert(fold_add(wn) == add_bits(fold_add(wu), e.weight));
                                            assert(alt == add_bits(du, e.weight));
                                            assert(entry_ok(
                                                *self,
                                                from_i as int,
                                                nb as int,
                                                pn,
                                                wn,
                                                alt,
                                            ));
                                            assert forall|v: int|
                                                0 <= v < n && (#[trigger] dist@[v])
                                                    is Some implies entry_ok(
                                                *self,
                                                from_i as int,
                                                v,
                                                paths@[v].unwrap()@,
                                                wss[v],
                                                dist@[v].unwrap(),
                                            ) by {
                                                if v != nb as int {
                                                    assert(dist@[v] == old_dist[v]);
                                                    assert(paths@[v] == old_paths[v]);
                                                }
                                            }
                                        }
                                    }
                                    }
                                },
                                None => {},
                            }
                            round = round + 1;
                        }
                        i = i + 1;
                    }
                },
                None => {
                    break ;
                },
            }
        }
        let rd = dist[to_i];
        match rd {
            Some(d) => {
                let p = match &paths[to_i] {
                    Some(p) => p,
                    None => vstd::pervasive::unreached(),
                };
                let plen = p.len();
                let mut out: Vec<NodeData> = Vec::new();
                let mut k: usize = 0;
                while k < plen
                    invariant
                        self.wf(),
                        n == self.node_seq().len(),
                        plen == p@.len(),
                        forall|k2: int| 0 <= k2 < plen ==> (#[trigger] p@[k2]) < n,
                        k <= plen,
                        out@.len() == k,
                        forall|k2: int|
                            0 <= k2 < k ==> (#[trigger] out@[k2])@ == self.node_seq()[p@[k2] as int]@,
                    decreases plen - k,
                {
                    let idx = p[k];
                    out.push(self.node_at(idx).clone());
                    k = k + 1;
                }
                proof {
                    let pw = p@;
                    let ws = wss[to_i as int];
                    assert(entry_ok(*self, from_i as int, to_i as int, pw, ws, d));
                    let keys = out@.map_values(|nd: NodeData| nd@);
                    assert(keys.len() == out@.len());
                    assert forall|k2: int| 0 <= k2 < keys.len() implies #[trigger] keys[k2]
                        == self.node_seq()[pw[k2] as int]@ by {
                        assert(out@[k2]@ == self.node_seq()[pw[k2] as int]@);
                    }
                    assert forall|k2: int|
                        0 <= k2 < out@.len() implies contains_key(
                        self.node_seq(),
                        (#[trigger] out@[k2])@,
                    ) by {
                        assert(self.node_seq()[pw[k2] as int]@ == out@[k2]@);
                    }
                    assert forall|k2: int|
                        0 <= k2 < out@.len() - 1 implies self.has_edge_key(
                        (#[trigger] out@[k2])@,
                        out@[k2 + 1]@,
                    ) by {
                        assert(ustep_w(*self, pw[k2] as int, pw[k2 + 1] as int, ws[k2]));
                        let i = choose|i: int|
                            (#[trigger] joins(*self, i, pw[k2] as int, pw[k2 + 1] as int))
                                && self.edge_seq()[i].weight == ws[k2];
                    }
                    assert forall|k2: int|
                        0 <= k2 < ws.len() implies edge_with_weight(
                        *self,
                        keys[k2],
                        keys[k2 + 1],
                        #[trigger] ws[k2],
                    ) by {
                        assert(ustep_w(*self, pw[k2] as int, pw[k2 + 1] as int, ws[k2]));
                        let i = choose|i: int|
                            (#[trigger] joins(*self, i, pw[k2] as int, pw[k2 + 1] as int))
                                && self.edge_seq()[i].weight == ws[k2];
                    }
                    assert(path_total(*self, keys, d));
                    let pint = pw.map_values(|x: usize| x as int);
                    assert(pint.len() == pw.len());
                    assert forall|k2: int| 0 <= k2 < pint.len() implies 0 <= #[trigger] pint[k2]
                        < self.node_seq().len() by {
                        assert(pw[k2] < n);
                    }
                    assert forall|k2: int| 0 <= k2 < pint.len() - 1 implies ustep(
                        *self,
                        #[trigger] pint[k2],
                        pint[k2 + 1],
                    ) by {
                        assert(ustep_w(*self, pw[k2] as int, pw[k2 + 1] as int, ws[k2]));
                        let i = choose|i: int|
                            (#[trigger] joins(*self, i, pw[k2] as int, pw[k2 + 1] as int))
                                && self.edge_seq()[i].weight == ws[k2];
                        assert(joins(*self, i, pint[k2], pint[k2 + 1]));
                    }
                    assert(is_uwalk(*self, pint));
                    assert(pint.first() == from_i as int);
                    assert(pint.last() == to_i as int);
                    assert(connected(*self, from_i as int, to_i as int));
                }
                Some((out, d))
            },
            None => {
                proof {
                    if connected(*self, from_i as int, to_i as int) {
                        let w = choose|p: Seq<int>|
                            is_uwalk(*self, p) && p.first() == from_i as int && p.last()
                                == to_i as int;
                        lemma_walk_settled(*self, w, dist@, visited@, w.len() - 1);
                    }
                }
                None
            },
        }
    }
}

} // verus!
