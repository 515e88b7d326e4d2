use vstd::prelude::*;

use crate::node::NodeData;
use crate::node::NodeKey;

verus! {

/// One stored edge: arena indices of its endpoints and the weight's
/// IEEE 754 bit pattern.
#[derive(Clone, Copy, Debug, PartialEq, Eq, Structural)]
pub struct Edge {
    pub src: usize,
    pub dst: usize,
    pub weight: u64,
}

/// The bit pattern of the default edge weight, one.
pub const DEFAULT_WEIGHT_BITS: u64 = 0x3FF0_0000_0000_0000;

/// The identities of an arena's nodes, in arena order.
pub open spec fn keys_of(nodes: Seq<NodeData>) -> Seq<NodeKey> {
    nodes.map_values(|n: NodeData| n@)
}

/// Some arena slot holds the identity `k`.
pub open spec fn contains_key(nodes: Seq<NodeData>, k: NodeKey) -> bool {
    exists|i: int| 0 <= i < nodes.len() && nodes[i]@ == k
}

/// The arena slot holding the identity `k`; unique when the arena is
/// deduplicated.
pub open spec fn key_index(nodes: Seq<NodeData>, k: NodeKey) -> int {
    choose|i: int| 0 <= i < nodes.len() && nodes[i]@ == k
}

/// No two arena slots hold the same identity.
pub open spec fn nodes_distinct(nodes: Seq<NodeData>) -> bool {
    forall|i: int, j: int| 0 <= i < j < nodes.len() ==> nodes[i]@ != nodes[j]@
}

/// Appending a value to a deduplicated arena: kept as is when its identity
/// is already present, pushed at the end otherwise.
pub open spec fn insert_node_spec(nodes: Seq<NodeData>, v: NodeData) -> Seq<NodeData> {
    if contains_key(nodes, v@) {
        nodes
    } else {
        nodes.push(v)
    }
}

/// In a deduplicated arena, a slot holding `k` is the slot `key_index` names.
pub proof fn lemma_key_index_unique(nodes: Seq<NodeData>, k: NodeKey, i: int)
    requires
        nodes_distinct(nodes),
        0 <= i < nodes.len(),
        nodes[i]@ == k,
    ensures
        contains_key(nodes, k),
        key_index(nodes, k) == i,
{
    assert(contains_key(nodes, k));
    let j = key_index(nodes, k);
    if j != i {
        if j < i {
            assert(nodes[j]@ != nodes[i]@);
        } else {
            assert(nodes[i]@ != nodes[j]@);
        }
    }
}

/// Scan an arena for a value's identity; the returned index is its slot.
pub(crate) fn find_node(nodes: &Vec<NodeData>, v: &NodeData) -> (r: Option<usize>)
    ensures
        match r {
            Some(i) => i < nodes@.len() && nodes@[i as int]@ == v@,
            None => !contains_key(nodes@, v@),
        },
{
    let n = nodes.len();
    let mut i: usize = 0;
    while i < n
        invariant
            n == nodes@.len(),
            i <= n,
            forall|j: int| 0 <= j < i ==> nodes@[j]@ != v@,
        decreases n - i,
    {
        if nodes[i].eq(v) {
            return Some(i);
        }
        i = i + 1;
    }
    None
}

/// Append a value to a deduplicated arena unless its identity is already
/// there; the returned index is the identity's slot either way.
pub(crate) fn insert_node(nodes: &mut Vec<NodeData>, v: NodeData) -> (i: usize)
    requires
        nodes_distinct(old(nodes)@),
    ensures
        final(nodes)@ == insert_node_spec(old(nodes)@, v),
        nodes_distinct(final(nodes)@),
        i < final(nodes)@.len(),
        final(nodes)@[i as int]@ == v@,
        i as int == key_index(final(nodes)@, v@),
        contains_key(final(nodes)@, v@),
        forall|k: NodeKey| contains_key(old(nodes)@, k) ==> contains_key(final(nodes)@, k),
        forall|k: NodeKey|
            contains_key(final(nodes)@, k) ==> contains_key(old(nodes)@, k) || k == v@,
{
    match find_node(nodes, &v) {
        Some(i) => {
            proof {
                lemma_key_index_unique(nodes@, v@, i as int);
            }
            i
        },
        None => {
            let i = nodes.len();
            nodes.push(v);
            proof {
                assert forall|p: int, q: int|
                    0 <= p < q < nodes@.len() implies nodes@[p]@ != nodes@[q]@ by {
                    if q < nodes@.len() - 1 {
                        assert(old(nodes)@[p]@ != old(nodes)@[q]@);
                    } else {
                        assert(!contains_key(old(nodes)@, nodes@[q]@));
                    }
                }
                lemma_key_index_unique(nodes@, nodes@[i as int]@, i as int);
                assert forall|k: NodeKey| contains_key(old(nodes)@, k) implies contains_key(
                    nodes@,
                    k,
                ) by {
                    let w = choose|j: int| 0 <= j < old(nodes)@.len() && old(nodes)@[j]@ == k;
                    assert(nodes@[w]@ == k);
                }
                assert forall|k: NodeKey|
                    contains_key(nodes@, k) implies contains_key(old(nodes)@, k) || k
                    == nodes@[i as int]@ by {
                    let w = choose|j: int| 0 <= j < nodes@.len() && nodes@[j]@ == k;
                    if w < nodes@.len() - 1 {
                        assert(old(nodes)@[w]@ == k);
                    }
                }
            }
            i
        },
    }
}

/// A directed graph: an append-only arena of deduplicated nodes and an
/// append-only arena of edges in insertion order. A stored edge
/// `(src, dst)` is traversable only from `src` to `dst`.
#[derive(Debug)]
pub struct DirectedGraph {
    nodes: Vec<NodeData>,
    edges: Vec<Edge>,
}

/// An undirected graph: the same arenas, with each stored edge traversable
/// both ways without being duplicated in storage.
#[derive(Debug)]
pub struct UndirectedGraph {
    nodes: Vec<NodeData>,
    edges: Vec<Edge>,
}

impl DirectedGraph {
    /// The node arena, as a mathematical sequence.
    pub closed spec fn node_seq(self) -> Seq<NodeData> {
        self.nodes@
    }

    /// The edge arena, as a mathematical sequence.
    pub closed spec fn edge_seq(self) -> Seq<Edge> {
        self.edges@
    }

    /// The node identities, in arena order.
    pub open spec fn node_keys(self) -> Seq<NodeKey> {
        keys_of(self.node_seq())
    }

    /// Well-formedness: nodes are deduplicated and every edge endpoint is a
    /// live arena index.
    pub open spec fn wf(self) -> bool {
        &&& nodes_distinct(self.node_seq())
        &&& forall|i: int|
            0 <= i < self.edge_seq().len() ==> (#[trigger] self.edge_seq()[i]).src
                < self.node_seq().len() && self.edge_seq()[i].dst < self.node_seq().len()
    }

    /// Some stored edge leads from identity `a` to identity `b`.
    pub open spec fn has_edge_key(self, a: NodeKey, b: NodeKey) -> bool {
        exists|i: int|
            0 <= i < self.edge_seq().len() && (#[trigger] self.edge_seq()[i]).src
                < self.node_seq().len() && self.edge_seq()[i].dst < self.node_seq().len()
                && self.node_seq()[self.edge_seq()[i].src as int]@ == a
                && self.node_seq()[self.edge_seq()[i].dst as int]@ == b
    }

    /// An empty graph: no nodes, no edges.
    pub fn new() -> (g: Self)
        ensures
            g.wf(),
            g.node_seq() == Seq::<NodeData>::empty(),
            g.edge_seq() == Seq::<Edge>::empty(),
    {
        DirectedGraph { nodes: Vec::new(), edges: Vec::new() }
    }

    /// Wrap already well-formed arenas as a graph.
    pub(crate) fn from_arenas(nodes: Vec<NodeData>, edges: Vec<Edge>) -> (g: Self)
        requires
            nodes_distinct(nodes@),
            forall|i: int|
                0 <= i < edges@.len() ==> (#[trigger] edges@[i]).src < nodes@.len()
                    && edges@[i].dst < nodes@.len(),
        ensures
            g.wf(),
            g.node_seq() == nodes@,
            g.edge_seq() == edges@,
    {
        DirectedGraph { nodes, edges }
    }

    /// How many distinct node identities the graph holds.
    pub fn node_count(&self) -> (n: usize)
        ensures
            n == self.node_seq().len(),
    {
        self.nodes.len()
    }

    /// How many edges the graph holds, duplicates and self-loops included.
    pub fn edge_count(&self) -> (n: usize)
        ensures
            n == self.edge_seq().len(),
    {
        self.edges.len()
    }

    /// The value stored for one arena index.
    pub fn node_at(&self, i: usize) -> (v: &NodeData)
        requires
            i < self.node_seq().len(),
        ensures
            v@ == self.node_seq()[i as int]@,
    {
        &self.nodes[i]
    }

    /// The node arena itself, for the crate's search routines.
    pub(crate) fn nodes_ref(&self) -> (r: &Vec<NodeData>)
        ensures
            r@ == self.node_seq(),
    {
        &self.nodes
    }

    /// The stored edge record at one arena index.
    pub fn edge_at(&self, i: usize) -> (e: Edge)
        requires
            i < self.edge_seq().len(),
        ensures
            e == self.edge_seq()[i as int],
    {
        self.edges[i]
    }

    /// Whether a value's identity is a node of the graph.
    pub fn has_node(&self, v: &NodeData) -> (r: bool)
        ensures
            r == contains_key(self.node_seq(), v@),
    {
        find_node(&self.nodes, v).is_some()
    }

    /// Insert a value's identity as a node unless already present; the
    /// returned index is the identity's arena slot either way. Edges are
    /// untouched.
    pub fn add_node(&mut self, v: NodeData) -> (i: usize)
        requires
            old(self).wf(),
        ensures
            final(self).wf(),
            final(self).node_seq() == insert_node_spec(old(self).node_seq(), v),
            final(self).edge_seq() == old(self).edge_seq(),
            i < final(self).node_seq().len(),
            final(self).node_seq()[i as int]@ == v@,
            i as int == key_index(final(self).node_seq(), v@),
            contains_key(final(self).node_seq(), v@),
            forall|k: NodeKey|
                contains_key(old(self).node_seq(), k) ==> contains_key(
                    final(self).node_seq(),
                    k,
                ),
            forall|k: NodeKey|
                contains_key(final(self).node_seq(), k) ==> contains_key(
                    old(self).node_seq(),
                    k,
                ) || k == v@,
    {
        let i = insert_node(&mut self.nodes, v);
        proof {
            assert(old(self).node_seq().len() <= self.node_seq().len());
            assert forall|j: int| 0 <= j < self.edge_seq().len() implies (
            #[trigger] self.edge_seq()[j]).src < self.node_seq().len()
                && self.edge_seq()[j].dst < self.node_seq().len() by {
                assert(self.edge_seq()[j] == old(self).edge_seq()[j]);
            }
        }
        i
    }

    /// Whether some stored edge leads from `a`'s identity to `b`'s; the
    /// direction matters.
    pub fn has_edge(&self, a: &NodeData, b: &NodeData) -> (r: bool)
        requires
            self.wf(),
        ensures
            r == self.has_edge_key(a@, b@),
    {
        let m = self.edges.len();
        let mut i: usize = 0;
        while i < m
            invariant
                self.wf(),
                m == self.edge_seq().len(),
                i <= m,
                forall|j: int|
                    0 <= j < i ==> !(self.node_seq()[(#[trigger] self.edge_seq()[j]).src as int]@
                        == a@ && self.node_seq()[self.edge_seq()[j].dst as int]@ == b@),
            decreases m - i,
        {
            let e = self.edges[i];
            if self.nodes[e.src].eq(a) && self.nodes[e.dst].eq(b) {
                return true;
            }
            i = i + 1;
        }
        false
    }

    /// Insert one edge from `a` to `b` with the given weight bit pattern.
    /// Each endpoint's identity is added to the node arena unless already
    /// present (`a` before `b`); the edge is appended after all existing
    /// edges, so duplicates and self-loops accumulate.
    pub fn add_edge(&mut self, a: NodeData, b: NodeData, weight: u64)
        requires
            old(self).wf(),
        ensures
            final(self).wf(),
            final(self).node_seq() == insert_node_spec(
                insert_node_spec(old(self).node_seq(), a),
                b,
            ),
            final(self).edge_seq() == old(self).edge_seq().push(
                Edge {
                    src: key_index(final(self).node_seq(), a@) as usize,
                    dst: key_index(final(self).node_seq(), b@) as usize,
                    weight,
                },
            ),
            contains_key(final(self).node_seq(), a@),
            contains_key(final(self).node_seq(), b@),
            forall|k: NodeKey|
                contains_key(old(self).node_seq(), k) ==> contains_key(
                    final(self).node_seq(),
                    k,
                ),
            forall|k: NodeKey|
                contains_key(final(self).node_seq(), k) ==> contains_key(
                    old(self).node_seq(),
                    k,
                ) || k == a@ || k == b@,
            final(self).has_edge_key(a@, b@),
            forall|x: NodeKey, y: NodeKey|
                old(self).has_edge_key(x, y) ==> final(self).has_edge_key(x, y),
            forall|x: NodeKey, y: NodeKey|
                final(self).has_edge_key(x, y) ==> old(self).has_edge_key(x, y) || (x == a@ && y
                    == b@),
    {
        let ghost ka = a@;
        let ghost kb = b@;
        let ia = insert_node(&mut self.nodes, a);
        let ib = insert_node(&mut self.nodes, b);
        proof {
            lemma_key_index_unique(self.nodes@, ka, ia as int);
        }
        let e = Edge { src: ia, dst: ib, weight };
        self.edges.push(e);
        proof {
            assert forall|x: NodeKey, y: NodeKey|
                old(self).has_edge_key(x, y) implies self.has_edge_key(x, y) by {
                let i = choose|i: int|
                    0 <= i < old(self).edge_seq().len() && (#[trigger] old(self).edge_seq()[i]).src
                        < old(self).node_seq().len() && old(self).edge_seq()[i].dst < old(
                        self,
                    ).node_seq().len() && old(self).node_seq()[old(self).edge_seq()[i].src as int]@
                        == x && old(self).node_seq()[old(self).edge_seq()[i].dst as int]@ == y;
                assert(self.edge_seq()[i] == old(self).edge_seq()[i]);
                assert(self.node_seq()[old(self).edge_seq()[i].src as int]@ == x);
            }
            assert forall|x: NodeKey, y: NodeKey|
                self.has_edge_key(x, y) implies old(self).has_edge_key(x, y) || (x == ka && y
                == kb) by {
                let i = choose|i: int|
                    0 <= i < self.edge_seq().len() && (#[trigger] self.edge_seq()[i]).src
                        < self.node_seq().len() && self.edge_seq()[i].dst < self.node_seq().len()
                        && self.node_seq()[self.edge_seq()[i].src as int]@ == x
                        && self.node_seq()[self.edge_seq()[i].dst as int]@ == y;
                if i < self.edge_seq().len() - 1 {
                    assert(old(self).edge_seq()[i] == self.edge_seq()[i]);
                }
            }
            assert(self.edge_seq().last() == e);
            assert(self.has_edge_key(ka, kb));
        }
    }
}

/// Directed asymmetry law: inserting the edge `(a, b)` makes `(a, b)`
/// traversable, and does not make the reverse `(b, a)` traversable unless
/// it already was or `a` and `b` are the same node. `g` is the graph
/// before the insertion and `h` the graph after it, as `add_edge` leaves
/// them related.
pub proof fn lemma_directed_asymmetry(g: DirectedGraph, h: DirectedGraph, a: NodeKey, b: NodeKey)
    requires
        h.has_edge_key(a, b),
        forall|x: NodeKey, y: NodeKey|
            h.has_edge_key(x, y) ==> g.has_edge_key(x, y) || (x == a && y == b),
        !g.has_edge_key(b, a),
        a != b,
    ensures
        h.has_edge_key(a, b),
        !h.has_edge_key(b, a),
{
}

impl UndirectedGraph {
    /// The node arena, as a mathematical sequence.
    pub closed spec fn node_seq(self) -> Seq<NodeData> {
        self.nodes@
    }

    /// The edge arena, as a mathematical sequence.
    pub closed spec fn edge_seq(self) -> Seq<Edge> {
        self.edges@
    }

    /// The node identities, in arena order.
    pub open spec fn node_keys(self) -> Seq<NodeKey> {
        keys_of(self.node_seq())
    }

    /// Well-formedness: nodes are deduplicated and every edge endpoint is a
    /// live arena index.
    pub open spec fn wf(self) -> bool {
        &&& nodes_distinct(self.node_seq())
        &&& forall|i: int|
            0 <= i < self.edge_seq().len() ==> (#[trigger] self.edge_seq()[i]).src
                < self.node_seq().len() && self.edge_seq()[i].dst < self.node_seq().len()
    }

    /// Some stored edge joins identities `a` and `b`, in either stored
    /// orientation: undirected adjacency is symmetric.
    pub open spec fn has_edge_key(self, a: NodeKey, b: NodeKey) -> bool {
        exists|i: int|
            0 <= i < self.edge_seq().len() && (#[trigger] self.edge_seq()[i]).src
                < self.node_seq().len() && self.edge_seq()[i].dst < self.node_seq().len() && ((
            self.node_seq()[self.edge_seq()[i].src as int]@ == a
                && self.node_seq()[self.edge_seq()[i].dst as int]@ == b) || (
            self.node_seq()[self.edge_seq()[i].src as int]@ == b
                && self.node_seq()[self.edge_seq()[i].dst as int]@ == a))
    }

    /// An empty graph: no nodes, no edges.
    pub fn new() -> (g: Self)
        ensures
            g.wf(),
            g.node_seq() == Seq::<NodeData>::empty(),
            g.edge_seq() == Seq::<Edge>::empty(),
    {
        UndirectedGraph { nodes: Vec::new(), edges: Vec::new() }
    }

    /// Wrap already well-formed arenas as a graph.
    pub(crate) fn from_arenas(nodes: Vec<NodeData>, edges: Vec<Edge>) -> (g: Self)
        requires
            nodes_distinct(nodes@),
            forall|i: int|
                0 <= i < edges@.len() ==> (#[trigger] edges@[i]).src < nodes@.len()
                    && edges@[i].dst < nodes@.len(),
        ensures
            g.wf(),
            g.node_seq() == nodes@,
            g.edge_seq() == edges@,
    {
        UndirectedGraph { nodes, edges }
    }

    /// How many distinct node identities the graph holds.
    pub fn node_count(&self) -> (n: usize)
        ensures
            n == self.node_seq().len(),
    {
        self.nodes.len()
    }

    /// How many stored edge records the graph holds; an undirected edge is
    /// stored once however many ways it can be traversed.
    pub fn edge_count(&self) -> (n: usize)
        ensures
            n == self.edge_seq().len(),
    {
        self.edges.len()
    }

    /// The value stored for one arena index.
    pub fn node_at(&self, i: usize) -> (v: &NodeData)
        requires
            i < self.node_seq().len(),
        ensures
            v@ == self.node_seq()[i as int]@,
    {
        &self.nodes[i]
    }

    /// The node arena itself, for the crate's search routines.
    pub(crate) fn nodes_ref(&self) -> (r: &Vec<NodeData>)
        ensures
            r@ == self.node_seq(),
    {
        &self.nodes
    }

    /// The stored edge record at one arena index.
    pub fn edge_at(&self, i: usize) -> (e: Edge)
        requires
            i < self.edge_seq().len(),
        ensures
            e == self.edge_seq()[i as int],
    {
        self.edges[i]
    }

    /// Whether a value's identity is a node of the graph.
    pub fn has_node(&self, v: &NodeData) -> (r: bool)
        ensures
            r == contains_key(self.node_seq(), v@),
    {
        find_node(&self.nodes, v).is_some()
    }

    /// Insert a value's identity as a node unless already present; the
    /// returned index is the identity's arena slot either way. Edges are
    /// untouched.
    pub fn add_node(&mut self, v: NodeData) -> (i: usize)
        requires
            old(self).wf(),
        ensures
            final(self).wf(),
            final(self).node_seq() == insert_node_spec(old(self).node_seq(), v),
            final(self).edge_seq() == old(self).edge_seq(),
            i < final(self).node_seq().len(),
            final(self).node_seq()[i as int]@ == v@,
            i as int == key_index(final(self).node_seq(), v@),
            contains_key(final(self).node_seq(), v@),
            forall|k: NodeKey|
                contains_key(old(self).node_seq(), k) ==> contains_key(
                    final(self).node_seq(),
                    k,
                ),
            forall|k: NodeKey|
                contains_key(final(self).node_seq(), k) ==> contains_key(
                    old(self).node_seq(),
                    k,
                ) || k == v@,
    {
        let i = insert_node(&mut self.nodes, v);
        proof {
            assert(old(self).node_seq().len() <= self.node_seq().len());
            assert forall|j: int| 0 <= j < self.edge_seq().len() implies (
            #[trigger] self.edge_seq()[j]).src < self.node_seq().len()
                && self.edge_seq()[j].dst < self.node_seq().len() by {
                assert(self.edge_seq()[j] == old(self).edge_seq()[j]);
            }
        }
        i
    }

    /// Whether some stored edge joins the identities of `a` and `b`, in
    /// either stored orientation.
    pub fn has_edge(&self, a: &NodeData, b: &NodeData) -> (r: bool)
        requires
            self.wf(),
        ensures
            r == self.has_edge_key(a@, b@),
    {
        let m = self.edges.len();
        let mut i: usize = 0;
        while i < m
            invariant
                self.wf(),
                m == self.edge_seq().len(),
                i <= m,
                forall|j: int|
                    0 <= j < i ==> !((self.node_seq()[(#[trigger] self.edge_seq()[j]).src as int]@
                        == a@ && self.node_seq()[self.edge_seq()[j].dst as int]@ == b@) || (
                    self.node_seq()[self.edge_seq()[j].src as int]@ == b@
                        && self.node_seq()[self.edge_seq()[j].dst as int]@ == a@)),
            decreases m - i,
        {
            let e = self.edges[i];
            if (self.nodes[e.src].eq(a) && self.nodes[e.dst].eq(b)) || (self.nodes[e.src].eq(b)
                && self.nodes[e.dst].eq(a)) {
                return true;
            }
            i = i + 1;
        }
        false
    }

    /// Insert one edge joining `a` and `b` with the given weight bit
    /// pattern. Each endpoint's identity is added to the node arena unless
    /// already present (`a` before `b`); the record is stored once, and
    /// adjacency reports it in both directions.
    pub fn add_edge(&mut self, a: NodeData, b: NodeData, weight: u64)
        requires
            old(self).wf(),
        ensures
            final(self).wf(),
            final(self).node_seq() == insert_node_spec(
                insert_node_spec(old(self).node_seq(), a),
                b,
            ),
            final(self).edge_seq() == old(self).edge_seq().push(
                Edge {
                    src: key_index(final(self).node_seq(), a@) as usize,
                    dst: key_index(final(self).node_seq(), b@) as usize,
                    weight,
                },
            ),
            contains_key(final(self).node_seq(), a@),
            contains_key(final(self).node_seq(), b@),
            forall|k: NodeKey|
                contains_key(old(self).node_seq(), k) ==> contains_key(
                    final(self).node_seq(),
                    k,
                ),
            forall|k: NodeKey|
                contains_key(final(self).node_seq(), k) ==> contains_key(
                    old(self).node_seq(),
                    k,
                ) || k == a@ || k == b@,
            final(self).has_edge_key(a@, b@),
            final(self).has_edge_key(b@, a@),
            forall|x: NodeKey, y: NodeKey|
                old(self).has_edge_key(x, y) ==> final(self).has_edge_key(x, y),
            forall|x: NodeKey, y: NodeKey|
                final(self).has_edge_key(x, y) ==> old(self).has_edge_key(x, y) || (x == a@ && y
                    == b@) || (x == b@ && y == a@),
    {
        let ghost ka = a@;
        let ghost kb = b@;
        let ia = insert_node(&mut self.nodes, a);
        let ib = insert_node(&mut self.nodes, b);
        proof {
            lemma_key_index_unique(self.nodes@, ka, ia as int);
        }
        let e = Edge { src: ia, dst: ib, weight };
        self.edges.push(e);
        proof {
            assert forall|x: NodeKey, y: NodeKey|
                old(self).has_edge_key(x, y) implies self.has_edge_key(x, y) by {
                let i = choose|i: int|
                    0 <= i < old(self).edge_seq().len() && (#[trigger] old(self).edge_seq()[i]).src
                        < old(self).node_seq().len() && old(self).edge_seq()[i].dst < old(
                        self,
                    ).node_seq().len() && ((old(self).node_seq()[old(
                        self,
                    ).edge_seq()[i].src as int]@ == x && old(self).node_seq()[old(
                        self,
                    ).edge_seq()[i].dst as int]@ == y) || (old(self).node_seq()[old(
                        self,
                    ).edge_seq()[i].src as int]@ == y && old(self).node_seq()[old(
                        self,
                    ).edge_seq()[i].dst as int]@ == x));
                assert(self.edge_seq()[i] == old(self).edge_seq()[i]);
                assert(self.node_seq()[old(self).edge_seq()[i].src as int]@ == old(
                    self,
                ).node_seq()[old(self).edge_seq()[i].src as int]@);
                assert(self.node_seq()[old(self).edge_seq()[i].dst as int]@ == old(
                    self,
                ).node_seq()[old(self).edge_seq()[i].dst as int]@);
            }
            assert forall|x: NodeKey, y: NodeKey|
                self.has_edge_key(x, y) implies old(self).has_edge_key(x, y) || (x == ka && y
                == kb) || (x == kb && y == ka) by {
                let i = choose|i: int|
                    0 <= i < self.edge_seq().len() && (#[trigger] self.edge_seq()[i]).src
                        < self.node_seq().len() && self.edge_seq()[i].dst < self.node_seq().len()
                        && ((self.node_seq()[self.edge_seq()[i].src as int]@ == x
                        && self.node_seq()[self.edge_seq()[i].dst as int]@ == y) || (
                    self.node_seq()[self.edge_seq()[i].src as int]@ == y
                        && self.node_seq()[self.edge_seq()[i].dst as int]@ == x));
                if i < self.edge_seq().len() - 1 {
                    assert(old(self).edge_seq()[i] == self.edge_seq()[i]);
                }
            }
            assert(self.edge_seq().last() == e);
            assert(self.has_edge_key(ka, kb));
            assert(self.has_edge_key(kb, ka));
        }
    }
}

/// Undirected symmetry law: adjacency in an undirected graph is
/// symmetric, so inserting the edge `(a, b)` makes both `(a, b)` and
/// `(b, a)` report as present.
pub proof fn lemma_undirected_symmetry(g: UndirectedGraph, a: NodeKey, b: NodeKey)
    ensures
        g.has_edge_key(a, b) <==> g.has_edge_key(b, a),
{
}

} // verus!
