use vstd::prelude::*;

use crate::errors::GraphError;
use crate::graph::keys_of;
use crate::node::NodeData;
use crate::node::NodeKey;

verus! {

/// A column handed in from a tabular source, already read into plain
/// values. An entry of `None` is a null. Floats arrive as raw IEEE 754
/// bit patterns; the engine canonicalizes them on ingestion, so all NaNs
/// name one node and both zeroes name one node. A column whose element
/// domain the engine does not support arrives as `Boolean` or, for any
/// other domain, as `Other` carrying the column type's name.
pub enum Column {
    Int64(Vec<Option<i64>>),
    Float64(Vec<Option<u64>>),
    Text(Vec<Option<String>>),
    Boolean(Vec<Option<bool>>),
    Other(String),
}

/// The identities of a column's non-null entries, in column order, under
/// the mapping `f` from entry to identity.
pub open spec fn col_keys<T>(vs: Seq<Option<T>>, f: spec_fn(T) -> NodeKey) -> Seq<NodeKey>
    decreases vs.len(),
{
    if vs.len() == 0 {
        Seq::empty()
    } else {
        let rest = col_keys(vs.drop_last(), f);
        match vs.last() {
            Option::Some(x) => rest.push(f(x)),
            Option::None => rest,
        }
    }
}

/// The identity an integer entry names.
pub open spec fn int_key(x: i64) -> NodeKey {
    NodeKey::Int(x as int)
}

/// The identity a float entry names: its canonical bit pattern, so all
/// NaNs and both zeroes collapse.
pub open spec fn float_key(x: u64) -> NodeKey {
    NodeKey::Float(crate::node::canonical_float_bits(x))
}

/// The identity a text entry names.
pub open spec fn text_key(x: String) -> NodeKey {
    NodeKey::Text(x@)
}

/// The identity a node value names.
pub open spec fn data_key(x: NodeData) -> NodeKey {
    x@
}

/// The identities of an integer column's non-null entries, in order.
pub open spec fn int_keys(vs: Seq<Option<i64>>) -> Seq<NodeKey> {
    col_keys(vs, |x: i64| int_key(x))
}

/// The identities of a float column's non-null entries, in order.
pub open spec fn float_keys(vs: Seq<Option<u64>>) -> Seq<NodeKey> {
    col_keys(vs, |x: u64| float_key(x))
}

/// The identities of a text column's non-null entries, in order.
pub open spec fn text_keys(vs: Seq<Option<String>>) -> Seq<NodeKey> {
    col_keys(vs, |x: String| text_key(x))
}

/// The identities of a node-value column's non-null entries, in order.
pub open spec fn data_keys(vs: Seq<Option<NodeData>>) -> Seq<NodeKey> {
    col_keys(vs, |n: NodeData| data_key(n))
}

fn extract_ints(vs: &Vec<Option<i64>>) -> (out: Vec<NodeData>)
    ensures
        keys_of(out@) == int_keys(vs@),
{
    let n = vs.len();
    let mut out: Vec<NodeData> = Vec::new();
    for i in 0..n
        invariant
            n == vs@.len(),
            keys_of(out@) == int_keys(vs@.take(i as int)),
    {
        proof {
            assert(vs@.take(i + 1).drop_last() =~= vs@.take(i as int));
            assert(vs@.take(i + 1).last() == vs@[i as int]);
        }
        match vs[i] {
            Some(x) => {
                out.push(NodeData::Int(x));
                proof {
                    assert(keys_of(out@) =~= keys_of(out@.drop_last()).push(NodeKey::Int(x as int)));
                }
            },
            None => {},
        }
    }
    proof {
        assert(vs@.take(n as int) =~= vs@);
    }
    out
}

fn extract_floats(vs: &Vec<Option<u64>>) -> (out: Vec<NodeData>)
    ensures
        keys_of(out@) == float_keys(vs@),
{
    let n = vs.len();
    let mut out: Vec<NodeData> = Vec::new();
    for i in 0..n
        invariant
            n == vs@.len(),
            keys_of(out@) == float_keys(vs@.take(i as int)),
    {
        proof {
            assert(vs@.take(i + 1).drop_last() =~= vs@.take(i as int));
            assert(vs@.take(i + 1).last() == vs@[i as int]);
        }
        match vs[i] {
            Some(x) => {
                out.push(NodeData::from_float_bits(x));
                proof {
                    assert(keys_of(out@) =~= keys_of(out@.drop_last()).push(float_key(x)));
                }
            },
            None => {},
        }
    }
    proof {
        assert(vs@.take(n as int) =~= vs@);
    }
    out
}

fn extract_texts(vs: &Vec<Option<String>>) -> (out: Vec<NodeData>)
    ensures
        keys_of(out@) == text_keys(vs@),
{
    let n = vs.len();
    let mut out: Vec<NodeData> = Vec::new();
    for i in 0..n
        invariant
            n == vs@.len(),
            keys_of(out@) == text_keys(vs@.take(i as int)),
    {
        proof {
            assert(vs@.take(i + 1).drop_last() =~= vs@.take(i as int));
            assert(vs@.take(i + 1).last() == vs@[i as int]);
        }
        match &vs[i] {
            Some(x) => {
                let ghost k = NodeKey::Text(x@);
                out.push(NodeData::Text(x.clone()));
                proof {
                    assert(keys_of(out@) =~= keys_of(out@.drop_last()).push(k));
                }
            },
            None => {},
        }
    }
    proof {
        assert(vs@.take(n as int) =~= vs@);
    }
    out
}

/// Read a column's non-null entries as node values, in column order.
/// Integer, float and text columns succeed; any other column domain is
/// rejected with `InvalidDataType` and no partial result.
pub fn extract_node_data(column: &Column) -> (r: Result<Vec<NodeData>, GraphError>)
    ensures
        match column {
            Column::Int64(vs) => r matches Ok(out) && keys_of(out@) == int_keys(vs@),
            Column::Float64(vs) => r matches Ok(out) && keys_of(out@) == float_keys(vs@),
            Column::Text(vs) => r matches Ok(out) && keys_of(out@) == text_keys(vs@),
            Column::Boolean(_) => r matches Err(e) && e matches GraphError::InvalidDataType(_),
            Column::Other(_) => r matches Err(e) && e matches GraphError::InvalidDataType(_),
        },
{
    match column {
        Column::Int64(vs) => Ok(extract_ints(vs)),
        Column::Float64(vs) => Ok(extract_floats(vs)),
        Column::Text(vs) => Ok(extract_texts(vs)),
        Column::Boolean(_) => Err(GraphError::InvalidDataType("Boolean".to_owned())),
        Column::Other(name) => Err(GraphError::InvalidDataType(name.clone())),
    }
}

} // verus!
