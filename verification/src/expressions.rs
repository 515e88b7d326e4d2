use vstd::prelude::*;

use crate::builder::built_from;
use crate::column::Column;
use crate::components::groups_disjoint;
use crate::components::same_group;
use crate::errors::GraphError;
use crate::graph::contains_key;
use crate::graph::DirectedGraph;
use crate::node::NodeData;
use crate::scc::get_cycles;
use crate::scc::mutual_keys;
use crate::scc::reaches;

verus! {

/// A supported column's cells as node values, nulls kept in place.
pub open spec fn column_cells(c: Column) -> Seq<Option<NodeData>> {
    match c {
        Column::Int64(vs) => vs@.map_values(
            |o: Option<i64>|
                match o {
                    Some(x) => Some(NodeData::Int(x)),
                    None => None::<NodeData>,
                },
        ),
        Column::Float64(vs) => vs@.map_values(
            |o: Option<u64>|
                match o {
                    Some(x) => Some(NodeData::Float(x)),
                    None => None::<NodeData>,
                },
        ),
        Column::Text(vs) => vs@.map_values(
            |o: Option<String>|
                match o {
                    Some(x) => Some(NodeData::Text(x)),
                    None => None::<NodeData>,
                },
        ),
        Column::Boolean(_) => Seq::empty(),
        Column::Other(_) => Seq::empty(),
    }
}

/// How many rows a column has.
pub open spec fn column_len(c: Column) -> int {
    match c {
        Column::Int64(vs) => vs@.len() as int,
        Column::Float64(vs) => vs@.len() as int,
        Column::Text(vs) => vs@.len() as int,
        Column::Boolean(vs) => vs@.len() as int,
        Column::Other(_) => 0,
    }
}

/// Two columns carry the same supported domain.
pub open spec fn same_supported_kind(a: Column, b: Column) -> bool {
    ||| (a is Int64 && b is Int64)
    ||| (a is Float64 && b is Float64)
    ||| (a is Text && b is Text)
}

/// The cycle groups of the graph that two equal-domain columns describe:
/// some well-formed graph is built from exactly those columns' cells (one
/// node per distinct non-null identity, one default-weight edge per row
/// whose two cells are both present), and the groups are its multi-node
/// strongly connected components: pairwise disjoint, each of two or more
/// mutually reachable members, with every distinct mutually reachable pair
/// of the graph reported in one group, and nothing reported on an acyclic
/// graph.
pub open spec fn cycles_of_built(s: Column, d: Column, cycles: Seq<Vec<NodeData>>) -> bool {
    exists|g: DirectedGraph|
        {
            &&& #[trigger] g.wf()
            &&& built_from(g.node_seq(), g.edge_seq(), column_cells(s), column_cells(d), None)
            &&& forall|k: int| 0 <= k < cycles.len() ==> (#[trigger] cycles[k])@.len() >= 2
            &&& groups_disjoint(cycles)
            &&& forall|k: int, j: int|
                0 <= k < cycles.len() && 0 <= j < cycles[k]@.len() ==> contains_key(
                    g.node_seq(),
                    (#[trigger] cycles[k]@[j])@,
                )
            &&& forall|k: int, j1: int, j2: int|
                #![trigger cycles[k]@[j1], cycles[k]@[j2]]
                0 <= k < cycles.len() && 0 <= j1 < cycles[k]@.len() && 0 <= j2
                    < cycles[k]@.len() ==> mutual_keys(g, cycles[k]@[j1]@, cycles[k]@[j2]@)
            &&& forall|i: int, j: int|
                0 <= i < g.node_seq().len() && 0 <= j < g.node_seq().len() && i != j
                    && #[trigger] reaches(g, i, j) && #[trigger] reaches(g, j, i) ==> same_group(
                    cycles,
                    g.node_seq()[i]@,
                    g.node_seq()[j]@,
                )
            &&& (cycles.len() > 0 ==> g.cyclic())
        }
}

fn cells_of_ints(vs: &Vec<Option<i64>>) -> (out: Vec<Option<NodeData>>)
    ensures
        out@ == column_cells(Column::Int64(*vs)),
{
    let n = vs.len();
    let mut out: Vec<Option<NodeData>> = Vec::new();
    for i in 0..n
        invariant
            n == vs@.len(),
            out@.len() == i,
            forall|k: int|
                0 <= k < i ==> #[trigger] out@[k] == column_cells(Column::Int64(*vs))[k],
    {
        match vs[i] {
            Some(x) => {
                out.push(Some(NodeData::Int(x)));
            },
            None => {
                out.push(None);
            },
        }
    }
    proof {
        assert(out@ =~= column_cells(Column::Int64(*vs)));
    }
    out
}

fn cells_of_floats(vs: &Vec<Option<u64>>) -> (out: Vec<Option<NodeData>>)
    ensures
        out@ == column_cells(Column::Float64(*vs)),
{
    let n = vs.len();
    let mut out: Vec<Option<NodeData>> = Vec::new();
    for i in 0..n
        invariant
            n == vs@.len(),
            out@.len() == i,
            forall|k: int|
                0 <= k < i ==> #[trigger] out@[k] == column_cells(Column::Float64(*vs))[k],
    {
        match vs[i] {
            Some(x) => {
                out.push(Some(NodeData::Float(x)));
            },
            None => {
                out.push(None);
            },
        }
    }
    proof {
        assert(out@ =~= column_cells(Column::Float64(*vs)));
    }
    out
}

fn cells_of_texts(vs: &Vec<Option<String>>) -> (out: Vec<Option<NodeData>>)
    ensures
        out@ == column_cells(Column::Text(*vs)),
{
    let n = vs.len();
    let mut out: Vec<Option<NodeData>> = Vec::new();
    for i in 0..n
        invariant
            n == vs@.len(),
            out@.len() == i,
            forall|k: int|
                0 <= k < i ==> #[trigger] out@[k] == column_cells(Column::Text(*vs))[k],
    {
        match &vs[i] {
            Some(x) => {
                out.push(Some(NodeData::Text(x.clone())));
            },
            None => {
                out.push(None);
            },
        }
    }
    proof {
        assert(out@ =~= column_cells(Column::Text(*vs)));
    }
    out
}

/// Find the cycle groups among the edges two parallel columns describe.
/// The columns must share one supported domain, else `InvalidDataType`,
/// and have equal length, else `MissingData`; a null in either cell drops
/// that row's edge, never re-pairing the columns. On success the groups
/// are exactly the multi-node strongly connected components of the graph
/// the two columns describe.
pub fn has_cycles(sources: &Column, destinations: &Column) -> (r: Result<
    Vec<Vec<NodeData>>,
    GraphError,
>)
    ensures
        (r is Ok) <==> (same_supported_kind(*sources, *destinations) && column_len(*sources)
            == column_len(*destinations)),
        !same_supported_kind(*sources, *destinations) ==> (r matches Err(e) && e
            matches GraphError::InvalidDataType(_)),
        same_supported_kind(*sources, *destinations) && column_len(*sources) != column_len(
            *destinations,
        ) ==> (r matches Err(e) && e matches GraphError::MissingData(_)),
        r matches Ok(cycles) ==> cycles_of_built(*sources, *destinations, cycles@),
{
    let cell_pair: Option<(Vec<Option<NodeData>>, Vec<Option<NodeData>>)> = match (
        sources,
        destinations,
    ) {
        (Column::Int64(a), Column::Int64(b)) => Some((cells_of_ints(a), cells_of_ints(b))),
        (Column::Float64(a), Column::Float64(b)) => Some(
            (cells_of_floats(a), cells_of_floats(b)),
        ),
        (Column::Text(a), Column::Text(b)) => Some((cells_of_texts(a), cells_of_texts(b))),
        _ => None,
    };
    match cell_pair {
        Some((s_cells, d_cells)) => {
            if s_cells.len() != d_cells.len() {
                return Err(GraphError::MissingData("Missing Datapoints".to_owned()));
            }
            match DirectedGraph::from_columns(&s_cells, &d_cells, None) {
                Ok(graph) => {
                    let cycles = get_cycles(&graph);
                    proof {
                        assert(cycles_of_built(*sources, *destinations, cycles@));
                    }
                    Ok(cycles)
                },
                Err(_) => vstd::pervasive::unreached(),
            }
        },
        None => Err(
            GraphError::InvalidDataType("Input columns must have the same datatype".to_owned()),
        ),
    }
}

} // verus!
