use vstd::prelude::*;

verus! {

/// The mathematical identity of a node: what a `NodeData` stands for.
///
/// Equality of `NodeKey`s is the identity the graph deduplicates by: two
/// values of different variants are never the same node, even when they are
/// numerically comparable.
pub enum NodeKey {
    Int(int),
    Float(u64),
    Text(Seq<char>),
}

/// The exponent mask of an IEEE 754 binary64 bit pattern.
pub const FLOAT_EXP_MASK: u64 = 0x7FF0_0000_0000_0000;

/// The fraction mask of an IEEE 754 binary64 bit pattern.
pub const FLOAT_FRAC_MASK: u64 = 0x000F_FFFF_FFFF_FFFF;

/// The one bit pattern every NaN is collapsed to: the standard quiet NaN.
pub const CANONICAL_NAN_BITS: u64 = 0x7FF8_0000_0000_0000;

/// The bit pattern of negative zero, collapsed onto positive zero.
pub const NEGATIVE_ZERO_BITS: u64 = 0x8000_0000_0000_0000;

/// The bit pattern encodes a NaN: exponent all ones, fraction nonzero.
pub open spec fn is_nan_bits(b: u64) -> bool {
    (b & FLOAT_EXP_MASK) == FLOAT_EXP_MASK && (b & FLOAT_FRAC_MASK) != 0
}

/// The canonical identity of a float bit pattern: every NaN is one value
/// and the two zeroes are one value; every other float keeps its own
/// pattern. Every place where raw float bits enter the engine applies
/// this, so all NaNs name one node and both zeroes name one node.
pub open spec fn canonical_float_bits(b: u64) -> u64 {
    if is_nan_bits(b) {
        CANONICAL_NAN_BITS
    } else if b == NEGATIVE_ZERO_BITS {
        0
    } else {
        b
    }
}

/// A node identity value, drawn from one of the three supported domains.
///
/// - `Int`: a 64-bit signed integer.
/// - `Float`: a 64-bit float, carried as an IEEE 754 bit pattern. Its
///   identity — the view, and `==` with it — is the canonical pattern
///   (see `canonical_float_bits`): all NaNs are one node and both zeroes
///   are one node, however the bits were produced.
/// - `Text`: a UTF-8 string.
///
/// Equality is otherwise structural: `Int(1)` and `Float`'s `1.0` are
/// different nodes.
#[derive(Debug)]
pub enum NodeData {
    Int(i64),
    Float(u64),
    Text(String),
}

/// The canonical pattern of a raw float bit pattern, computed.
pub fn canonical_bits(b: u64) -> (r: u64)
    ensures
        r == canonical_float_bits(b),
{
    let e = b & FLOAT_EXP_MASK;
    let f = b & FLOAT_FRAC_MASK;
    if e == FLOAT_EXP_MASK && f != 0 {
        CANONICAL_NAN_BITS
    } else if b == NEGATIVE_ZERO_BITS {
        0
    } else {
        b
    }
}

impl NodeData {
    /// The float node a raw bit pattern names; equality canonicalizes, so
    /// any NaN pattern and either zero may be handed in.
    pub fn from_float_bits(b: u64) -> (r: NodeData)
        ensures
            r@ == NodeKey::Float(canonical_float_bits(b)),
    {
        NodeData::Float(b)
    }
}

impl View for NodeData {
    type V = NodeKey;

    open spec fn view(&self) -> NodeKey {
        match self {
            NodeData::Int(i) => NodeKey::Int(*i as int),
            NodeData::Float(b) => NodeKey::Float(canonical_float_bits(*b)),
            NodeData::Text(s) => NodeKey::Text(s@),
        }
    }
}

impl Clone for NodeData {
    fn clone(&self) -> (r: Self)
        ensures
            r@ == self@,
    {
        match self {
            NodeData::Int(i) => NodeData::Int(*i),
            NodeData::Float(b) => NodeData::Float(*b),
            NodeData::Text(s) => NodeData::Text(s.clone()),
        }
    }
}

impl PartialEq for NodeData {
    fn eq(&self, other: &Self) -> (r: bool)
    {
        match (self, other) {
            (NodeData::Int(a), NodeData::Int(b)) => a == b,
            (NodeData::Float(a), NodeData::Float(b)) => canonical_bits(*a) == canonical_bits(*b),
            (NodeData::Text(a), NodeData::Text(b)) => a.eq(b),
            _ => false,
        }
    }
}

impl vstd::std_specs::cmp::PartialEqSpecImpl for NodeData {
    open spec fn obeys_eq_spec() -> bool {
        true
    }

    open spec fn eq_spec(&self, other: &Self) -> bool {
        self@ == other@
    }
}

impl Eq for NodeData {}

} // verus!
