use vstd::prelude::*;

use crate::column::data_keys;
use crate::errors::GraphError;
use crate::graph::contains_key;
use crate::graph::insert_node;
use crate::graph::keys_of;
use crate::graph::nodes_distinct;
use crate::graph::DirectedGraph;
use crate::graph::Edge;
use crate::graph::UndirectedGraph;
use crate::graph::DEFAULT_WEIGHT_BITS;
use crate::node::NodeData;
use crate::node::NodeKey;

verus! {

/// The identities of both columns' non-null values, sources first, in
/// column order.
pub open spec fn all_input_keys(s: Seq<Option<NodeData>>, d: Seq<Option<NodeData>>) -> Seq<
    NodeKey,
> {
    data_keys(s) + data_keys(d)
}

/// The distinct identities of a key sequence, each at its first
/// occurrence's position: the order the dedup table assigns arena slots in.
pub open spec fn first_seen(ks: Seq<NodeKey>) -> Seq<NodeKey>
    decreases ks.len(),
{
    if ks.len() == 0 {
        Seq::empty()
    } else {
        let rest = first_seen(ks.drop_last());
        if rest.contains(ks.last()) {
            rest
        } else {
            rest.push(ks.last())
        }
    }
}

/// Row `i` carries a full (source, destination, weight) triple: no null in
/// either node column, nor in the weight column when one is given.
pub open spec fn triple_present(
    s: Seq<Option<NodeData>>,
    d: Seq<Option<NodeData>>,
    w: Option<Seq<Option<u64>>>,
    i: int,
) -> bool {
    &&& s[i] is Some
    &&& d[i] is Some
    &&& (w matches Some(ws) ==> ws[i] is Some)
}

/// The rows below `n` whose triples are fully present, ascending: the rows
/// that become edges.
pub open spec fn present_upto(
    s: Seq<Option<NodeData>>,
    d: Seq<Option<NodeData>>,
    w: Option<Seq<Option<u64>>>,
    n: int,
) -> Seq<int>
    decreases n,
{
    if n <= 0 {
        Seq::empty()
    } else {
        let rest = present_upto(s, d, w, n - 1);
        if triple_present(s, d, w, n - 1) {
            rest.push(n - 1)
        } else {
            rest
        }
    }
}

/// The weight bit pattern row `i` contributes: the weight column's entry,
/// or the default weight when no column was given.
pub open spec fn weight_at(w: Option<Seq<Option<u64>>>, i: int) -> u64 {
    match w {
        Some(ws) => ws[i].unwrap(),
        None => DEFAULT_WEIGHT_BITS,
    }
}

/// The weight column as a mathematical value.
pub open spec fn weights_view(w: Option<&Vec<Option<u64>>>) -> Option<Seq<Option<u64>>> {
    match w {
        Some(ws) => Some(ws@),
        None => None,
    }
}

/// Edge record `e` is exactly what row `p` asked for: its endpoints hold
/// the row's source and destination identities and it carries the row's
/// weight.
pub open spec fn edge_matches_row(
    nodes: Seq<NodeData>,
    e: Edge,
    s: Seq<Option<NodeData>>,
    d: Seq<Option<NodeData>>,
    w: Option<Seq<Option<u64>>>,
    p: int,
) -> bool {
    &&& 0 <= p < s.len()
    &&& triple_present(s, d, w, p)
    &&& e.src < nodes.len()
    &&& e.dst < nodes.len()
    &&& nodes[e.src as int]@ == s[p].unwrap()@
    &&& nodes[e.dst as int]@ == d[p].unwrap()@
    &&& e.weight == weight_at(w, p)
}

/// The arenas are exactly what the three columns describe: one node per
/// distinct non-null identity in first-seen order, and one edge per fully
/// present row, in row order.
pub open spec fn built_from(
    nodes: Seq<NodeData>,
    edges: Seq<Edge>,
    s: Seq<Option<NodeData>>,
    d: Seq<Option<NodeData>>,
    w: Option<Seq<Option<u64>>>,
) -> bool {
    &&& keys_of(nodes) == first_seen(all_input_keys(s, d))
    &&& edges.len() == present_upto(s, d, w, s.len() as int).len()
    &&& forall|k: int|
        0 <= k < edges.len() ==> edge_matches_row(
            nodes,
            #[trigger] edges[k],
            s,
            d,
            w,
            present_upto(s, d, w, s.len() as int)[k],
        )
}

/// A sequence holds a key exactly when its prefix holds it or it is the
/// last element.
proof fn lemma_contains_split(ks: Seq<NodeKey>, k: NodeKey)
    requires
        ks.len() > 0,
    ensures
        ks.contains(k) <==> (ks.drop_last().contains(k) || ks.last() == k),
{
    if ks.contains(k) {
        let i = choose|i: int| 0 <= i < ks.len() && ks[i] == k;
        if i < ks.len() - 1 {
            assert(ks.drop_last()[i] == k);
        }
    }
    if ks.drop_last().contains(k) {
        let i = choose|i: int| 0 <= i < ks.drop_last().len() && ks.drop_last()[i] == k;
        assert(ks[i] == k);
    }
    if ks.last() == k {
        assert(ks[ks.len() - 1] == k);
    }
}

/// What `first_seen` promises: no duplicates, the same members as its
/// input, and as many entries as the input has distinct keys.
pub proof fn lemma_first_seen(ks: Seq<NodeKey>)
    ensures
        first_seen(ks).no_duplicates(),
        forall|k: NodeKey| #[trigger] first_seen(ks).contains(k) <==> ks.contains(k),
        first_seen(ks).len() == ks.to_set().len(),
    decreases ks.len(),
{
    broadcast use vstd::set::group_set_axioms;
    broadcast use vstd::seq_lib::seq_to_set_is_finite;

    if ks.len() == 0 {
        assert(ks.to_set() =~= Set::<NodeKey>::empty());
        assert(first_seen(ks) =~= Seq::<NodeKey>::empty());
        assert forall|k: NodeKey| #[trigger] first_seen(ks).contains(k) <==> ks.contains(k) by {
            if first_seen(ks).contains(k) {
                let i = choose|i: int| 0 <= i < first_seen(ks).len() && first_seen(ks)[i] == k;
            }
        }
    } else {
        let prefix = ks.drop_last();
        let last = ks.last();
        let rest = first_seen(prefix);
        lemma_first_seen(prefix);
        assert forall|k: NodeKey| #[trigger] first_seen(ks).contains(k) <==> ks.contains(k) by {
            lemma_contains_split(ks, k);
            if rest.contains(last) {
                assert(first_seen(ks) == rest);
            } else {
                lemma_contains_split(rest.push(last), k);
                assert(rest.push(last).drop_last() =~= rest);
                assert(rest.push(last).last() == last);
            }
        }
        assert forall|k: NodeKey|
            ks.to_set().contains(k) <==> prefix.to_set().insert(last).contains(k) by {
            lemma_contains_split(ks, k);
        }
        assert(ks.to_set() =~= prefix.to_set().insert(last));
        if rest.contains(last) {
            assert(prefix.contains(last));
            assert(prefix.to_set().contains(last));
            vstd::set::axiom_set_insert_len(prefix.to_set(), last);
            assert(first_seen(ks) == rest);
        } else {
            assert(!prefix.contains(last));
            assert(!prefix.to_set().contains(last));
            vstd::set::axiom_set_insert_len(prefix.to_set(), last);
            assert(first_seen(ks) =~= rest.push(last));
            assert forall|i: int, j: int|
                0 <= i < j < rest.push(last).len() implies rest.push(last)[i] != rest.push(
                last,
            )[j] by {
                if j < rest.len() {
                    assert(rest[i] != rest[j]);
                } else {
                    assert(rest.push(last)[j] == last);
                    assert(rest.contains(rest[i]));
                }
            }
        }
    }
}

/// Every non-null entry's identity is among a column's key sequence.
pub proof fn lemma_data_keys_contains(vs: Seq<Option<NodeData>>, i: int)
    requires
        0 <= i < vs.len(),
        vs[i] is Some,
    ensures
        data_keys(vs).contains(vs[i].unwrap()@),
    decreases vs.len(),
{
    if i == vs.len() - 1 {
        assert(vs.last() == vs[i]);
        assert(data_keys(vs).last() == vs[i].unwrap()@);
        assert(data_keys(vs).contains(vs[i].unwrap()@));
    } else {
        assert(vs.drop_last()[i] == vs[i]);
        lemma_data_keys_contains(vs.drop_last(), i);
        let sub = data_keys(vs.drop_last());
        let j = choose|j: int| 0 <= j < sub.len() && sub[j] == vs[i].unwrap()@;
        match vs.last() {
            Option::Some(_) => {
                assert(data_keys(vs)[j] == vs[i].unwrap()@);
            },
            Option::None => {
                assert(data_keys(vs)[j] == vs[i].unwrap()@);
            },
        }
    }
}

/// A key sequence holds a key exactly when some arena slot's value has
/// that identity.
pub proof fn lemma_contains_key_iff(nodes: Seq<NodeData>, k: NodeKey)
    ensures
        contains_key(nodes, k) <==> keys_of(nodes).contains(k),
{
    if contains_key(nodes, k) {
        let i = choose|i: int| 0 <= i < nodes.len() && nodes[i]@ == k;
        assert(keys_of(nodes)[i] == k);
    }
    if keys_of(nodes).contains(k) {
        let i = choose|i: int| 0 <= i < keys_of(nodes).len() && keys_of(nodes)[i] == k;
        assert(nodes[i]@ == k);
    }
}

/// Build the node and edge arenas from three parallel columns; `None` when
/// the lengths disagree.
fn build_arenas(
    sources: &Vec<Option<NodeData>>,
    destinations: &Vec<Option<NodeData>>,
    weights: Option<&Vec<Option<u64>>>,
) -> (r: Option<(Vec<NodeData>, Vec<Edge>)>)
    ensures
        (r is Some) <==> (sources@.len() == destinations@.len() && (weights matches Some(ws)
            ==> ws@.len() == sources@.len())),
        r matches Some(p) ==> {
            &&& nodes_distinct(p.0@)
            &&& forall|j: int|
                0 <= j < p.1@.len() ==> (#[trigger] p.1@[j]).src < p.0@.len() && p.1@[j].dst
                    < p.0@.len()
            &&& built_from(p.0@, p.1@, sources@, destinations@, weights_view(weights))
        },
{
    let n = sources.len();
    if destinations.len() != n {
        return None;
    }
    match weights {
        Some(ws) => {
            if ws.len() != n {
                return None;
            }
        },
        None => {},
    }
    let ghost wspec = weights_view(weights);
    let mut nodes: Vec<NodeData> = Vec::new();
    for i in 0..n
        invariant
            n == sources@.len(),
            nodes_distinct(nodes@),
            keys_of(nodes@) == first_seen(data_keys(sources@.take(i as int))),
    {
        proof {
            assert(sources@.take(i + 1).drop_last() =~= sources@.take(i as int));
            assert(sources@.take(i + 1).last() == sources@[i as int]);
        }
        match &sources[i] {
            Some(v) => {
                let ghost ks = data_keys(sources@.take(i as int));
                proof {
                    lemma_contains_key_iff(nodes@, v@);
                    assert(ks.push(v@).drop_last() =~= ks);
                    assert(data_keys(sources@.take(i + 1)) == ks.push(v@));
                }
                let ghost n0 = nodes@;
                insert_node(&mut nodes, v.clone());
                proof {
                    if !contains_key(n0, v@) {
                        assert(keys_of(nodes@) =~= keys_of(n0).push(v@));
                    }
                }
            },
            None => {},
        }
    }
    proof {
        assert(sources@.take(n as int) =~= sources@);
    }
    for i in 0..n
        invariant
            n == sources@.len(),
            n == destinations@.len(),
            nodes_distinct(nodes@),
            keys_of(nodes@) == first_seen(
                data_keys(sources@) + data_keys(destinations@.take(i as int)),
            ),
    {
        proof {
            assert(destinations@.take(i + 1).drop_last() =~= destinations@.take(i as int));
            assert(destinations@.take(i + 1).last() == destinations@[i as int]);
        }
        match &destinations[i] {
            Some(v) => {
                let ghost ks = data_keys(sources@) + data_keys(destinations@.take(i as int));
                proof {
                    lemma_contains_key_iff(nodes@, v@);
                    assert(ks.push(v@).drop_last() =~= ks);
                    assert(data_keys(sources@) + data_keys(destinations@.take(i + 1)) =~= ks.push(
                        v@,
                    ));
                }
                let ghost n0 = nodes@;
                insert_node(&mut nodes, v.clone());
                proof {
                    if !contains_key(n0, v@) {
                        assert(keys_of(nodes@) =~= keys_of(n0).push(v@));
                    }
                }
            },
            None => {},
        }
    }
    proof {
        assert(destinations@.take(n as int) =~= destinations@);
        assert(data_keys(sources@) + data_keys(destinations@.take(n as int)) == all_input_keys(
            sources@,
            destinations@,
        ));
    }
    let ghost all_keys = keys_of(nodes@);
    let mut edges: Vec<Edge> = Vec::new();
    for i in 0..n
        invariant
            n == sources@.len(),
            n == destinations@.len(),
            wspec == weights_view(weights),
            (wspec matches Some(ws) ==> ws.len() == n),
            nodes_distinct(nodes@),
            keys_of(nodes@) == all_keys,
            all_keys == first_seen(all_input_keys(sources@, destinations@)),
            edges@.len() == present_upto(sources@, destinations@, wspec, i as int).len(),
            forall|k: int|
                0 <= k < edges@.len() ==> edge_matches_row(
                    nodes@,
                    #[trigger] edges@[k],
                    sources@,
                    destinations@,
                    wspec,
                    present_upto(sources@, destinations@, wspec, i as int)[k],
                ),
    {
        if sources[i].is_some() && destinations[i].is_some() {
            let mut w_ok: bool = true;
            let mut wv: u64 = DEFAULT_WEIGHT_BITS;
            match weights {
                Some(ws) => {
                    match ws[i] {
                        Some(x) => {
                            wv = x;
                        },
                        None => {
                            w_ok = false;
                        },
                    }
                },
                None => {},
            }
            if w_ok {
                assert(triple_present(sources@, destinations@, wspec, i as int));
                assert(wv == weight_at(wspec, i as int));
                let sv = sources[i].as_ref().unwrap().clone();
                let dv = destinations[i].as_ref().unwrap().clone();
                let ghost n0 = nodes@;
                proof {
                    lemma_data_keys_contains(sources@, i as int);
                    lemma_data_keys_contains(destinations@, i as int);
                    lemma_first_seen(all_input_keys(sources@, destinations@));
                    let sj = choose|j: int|
                        0 <= j < data_keys(sources@).len() && data_keys(sources@)[j] == sv@;
                    assert(all_input_keys(sources@, destinations@)[sj] == sv@);
                    let dj = choose|j: int|
                        0 <= j < data_keys(destinations@).len() && data_keys(destinations@)[j]
                            == dv@;
                    assert(all_input_keys(sources@, destinations@)[data_keys(sources@).len() + dj]
                        == dv@);
                    assert(keys_of(nodes@).contains(sv@));
                    assert(keys_of(nodes@).contains(dv@));
                    lemma_contains_key_iff(nodes@, sv@);
                    lemma_contains_key_iff(nodes@, dv@);
                }
                let si = insert_node(&mut nodes, sv);
                let di = insert_node(&mut nodes, dv);
                proof {
                    assert(nodes@ == n0);
                }
                edges.push(Edge { src: si, dst: di, weight: wv });
                proof {
                    let pu = present_upto(sources@, destinations@, wspec, i + 1);
                    assert(pu == present_upto(sources@, destinations@, wspec, i as int).push(
                        i as int,
                    ));
                    assert(edges@.last() == (Edge { src: si, dst: di, weight: wv }));
                    assert(edge_matches_row(
                        nodes@,
                        edges@[edges@.len() - 1],
                        sources@,
                        destinations@,
                        wspec,
                        i as int,
                    ));
                }
            } else {
                assert(!triple_present(sources@, destinations@, wspec, i as int));
            }
        } else {
            assert(!triple_present(sources@, destinations@, wspec, i as int));
        }
    }
    proof {
        assert(built_from(nodes@, edges@, sources@, destinations@, wspec));
    }
    Some((nodes, edges))
}

impl DirectedGraph {
    /// Build a directed graph from parallel columns of source and
    /// destination values with an optional weight column. A row with a null
    /// in any given column contributes no edge; every non-null node value
    /// becomes a node. Fails with `MissingData` exactly when the columns'
    /// lengths disagree, leaving no partial graph.
    pub fn from_columns(
        sources: &Vec<Option<NodeData>>,
        destinations: &Vec<Option<NodeData>>,
        weights: Option<&Vec<Option<u64>>>,
    ) -> (r: Result<DirectedGraph, GraphError>)
        ensures
            (r is Ok) <==> (sources@.len() == destinations@.len() && (weights matches Some(ws)
                ==> ws@.len() == sources@.len())),
            r matches Err(e) ==> e matches GraphError::MissingData(_),
            r matches Ok(g) ==> g.wf() && built_from(
                g.node_seq(),
                g.edge_seq(),
                sources@,
                destinations@,
                weights_view(weights),
            ),
    {
        match build_arenas(sources, destinations, weights) {
            Some((nodes, edges)) => Ok(DirectedGraph::from_arenas(nodes, edges)),
            None => Err(GraphError::MissingData("Missing Datapoints".to_owned())),
        }
    }
}

impl UndirectedGraph {
    /// Build an undirected graph from parallel columns of source and
    /// destination values with an optional weight column. A row with a null
    /// in any given column contributes no edge; every non-null node value
    /// becomes a node. Fails with `MissingData` exactly when the columns'
    /// lengths disagree, leaving no partial graph.
    pub fn from_columns(
        sources: &Vec<Option<NodeData>>,
        destinations: &Vec<Option<NodeData>>,
        weights: Option<&Vec<Option<u64>>>,
    ) -> (r: Result<UndirectedGraph, GraphError>)
        ensures
            (r is Ok) <==> (sources@.len() == destinations@.len() && (weights matches Some(ws)
                ==> ws@.len() == sources@.len())),
            r matches Err(e) ==> e matches GraphError::MissingData(_),
            r matches Ok(g) ==> g.wf() && built_from(
                g.node_seq(),
                g.edge_seq(),
                sources@,
                destinations@,
                weights_view(weights),
            ),
    {
        match build_arenas(sources, destinations, weights) {
            Some((nodes, edges)) => Ok(UndirectedGraph::from_arenas(nodes, edges)),
            None => Err(GraphError::MissingData("Missing Datapoints".to_owned())),
        }
    }
}

fn wrap_values(vs: &Vec<NodeData>) -> (r: Vec<Option<NodeData>>)
    ensures
        r@.len() == vs@.len(),
        forall|i: int|
            0 <= i < vs@.len() ==> ((#[trigger] r@[i]) matches Some(v) && v@ == vs@[i]@),
{
    let n = vs.len();
    let mut r: Vec<Option<NodeData>> = Vec::new();
    for i in 0..n
        invariant
            n == vs@.len(),
            r@.len() == i,
            forall|j: int|
                0 <= j < i ==> ((#[trigger] r@[j]) matches Some(v) && v@ == vs@[j]@),
    {
        r.push(Some(vs[i].clone()));
    }
    r
}

proof fn lemma_wrapped_keys(vs: Seq<Option<NodeData>>, ps: Seq<NodeData>)
    requires
        vs.len() == ps.len(),
        forall|i: int|
            0 <= i < vs.len() ==> ((#[trigger] vs[i]) matches Some(v) && v@ == ps[i]@),
    ensures
        data_keys(vs) == keys_of(ps),
    decreases vs.len(),
{
    if vs.len() == 0 {
        assert(data_keys(vs) =~= keys_of(ps));
    } else {
        assert forall|i: int|
            0 <= i < vs.drop_last().len() implies (#[trigger] vs.drop_last()[i]) matches Some(v)
            && v@ == ps.drop_last()[i]@ by {
            assert(vs.drop_last()[i] == vs[i]);
        }
        lemma_wrapped_keys(vs.drop_last(), ps.drop_last());
        assert(vs.last() == vs[vs.len() - 1]);
        assert(data_keys(vs) == data_keys(vs.drop_last()).push(vs.last().unwrap()@));
        assert(keys_of(ps) =~= keys_of(ps.drop_last()).push(ps.last()@));
    }
}

proof fn lemma_present_all(vs: Seq<Option<NodeData>>, ds: Seq<Option<NodeData>>, n: int)
    requires
        0 <= n <= vs.len(),
        vs.len() == ds.len(),
        forall|i: int| 0 <= i < vs.len() ==> (#[trigger] vs[i]) is Some,
        forall|i: int| 0 <= i < ds.len() ==> (#[trigger] ds[i]) is Some,
    ensures
        present_upto(vs, ds, None, n).len() == n,
        forall|k: int| 0 <= k < n ==> #[trigger] present_upto(vs, ds, None, n)[k] == k,
    decreases n,
{
    if n > 0 {
        lemma_present_all(vs, ds, n - 1);
        assert(triple_present(vs, ds, None, n - 1));
    }
}

/// Build a directed graph from two parallel columns of node values: every
/// value becomes a node, deduplicated in first-seen order with sources
/// scanned first, and each row becomes one edge carrying the default
/// weight, in row order.
pub fn build_graph(sources: &Vec<NodeData>, destinations: &Vec<NodeData>) -> (g: DirectedGraph)
    requires
        sources@.len() == destinations@.len(),
    ensures
        g.wf(),
        g.node_keys() == first_seen(keys_of(sources@) + keys_of(destinations@)),
        g.edge_seq().len() == sources@.len(),
        forall|k: int|
            0 <= k < g.edge_seq().len() ==> {
                &&& (#[trigger] g.edge_seq()[k]).src < g.node_seq().len()
                &&& g.edge_seq()[k].dst < g.node_seq().len()
                &&& g.node_seq()[g.edge_seq()[k].src as int]@ == sources@[k]@
                &&& g.node_seq()[g.edge_seq()[k].dst as int]@ == destinations@[k]@
                &&& g.edge_seq()[k].weight == DEFAULT_WEIGHT_BITS
            },
{
    let s_opt = wrap_values(sources);
    let d_opt = wrap_values(destinations);
    proof {
        lemma_wrapped_keys(s_opt@, sources@);
        lemma_wrapped_keys(d_opt@, destinations@);
        lemma_present_all(s_opt@, d_opt@, s_opt@.len() as int);
    }
    match DirectedGraph::from_columns(&s_opt, &d_opt, None) {
        Ok(g) => {
            proof {
                assert forall|k: int| 0 <= k < g.edge_seq().len() implies {
                    &&& (#[trigger] g.edge_seq()[k]).src < g.node_seq().len()
                    &&& g.edge_seq()[k].dst < g.node_seq().len()
                    &&& g.node_seq()[g.edge_seq()[k].src as int]@ == sources@[k]@
                    &&& g.node_seq()[g.edge_seq()[k].dst as int]@ == destinations@[k]@
                    &&& g.edge_seq()[k].weight == DEFAULT_WEIGHT_BITS
                } by {
                    assert(edge_matches_row(
                        g.node_seq(),
                        g.edge_seq()[k],
                        s_opt@,
                        d_opt@,
                        None,
                        present_upto(s_opt@, d_opt@, None, s_opt@.len() as int)[k],
                    ));
                    assert(present_upto(s_opt@, d_opt@, None, s_opt@.len() as int)[k] == k);
                    assert(s_opt@[k].unwrap()@ == sources@[k]@);
                    assert(d_opt@[k].unwrap()@ == destinations@[k]@);
                }
            }
            g
        },
        Err(_) => vstd::pervasive::unreached(),
    }
}

/// Dedup law: a graph built from two node columns holds exactly as many
/// nodes as the columns hold distinct non-null identities.
pub proof fn lemma_dedup_invariant(
    nodes: Seq<NodeData>,
    s: Seq<Option<NodeData>>,
    d: Seq<Option<NodeData>>,
    w: Option<Seq<Option<u64>>>,
    edges: Seq<Edge>,
)
    requires
        built_from(nodes, edges, s, d, w),
    ensures
        nodes.len() == all_input_keys(s, d).to_set().len(),
{
    lemma_first_seen(all_input_keys(s, d));
    assert(keys_of(nodes).len() == nodes.len());
}

} // verus!
