//! A graph engine over tabular edge lists.
//!
//! Parallel columns of source and destination node values (integers, floats
//! by bit pattern, or text), with an optional weight column, are turned into
//! an in-memory graph: nodes are deduplicated into an append-only arena,
//! edges keep input order, duplicates and self-loops included. The graph
//! answers structural queries: strongly connected components and cycle
//! groups, topological order, connected components, and weighted shortest
//! path.

mod builder;
mod column;
mod components;
mod errors;
mod expressions;
mod graph;
mod node;
mod scc;
mod shortest;
mod topo;
mod weights;

pub use builder::all_input_keys;
pub use builder::build_graph;
pub use builder::built_from;
pub use builder::edge_matches_row;
pub use builder::first_seen;
pub use builder::lemma_dedup_invariant;
pub use builder::lemma_first_seen;
pub use builder::present_upto;
pub use builder::triple_present;
pub use builder::weight_at;
pub use builder::weights_view;
pub use column::col_keys;
pub use column::data_key;
pub use column::data_keys;
pub use column::extract_node_data;
pub use column::float_key;
pub use column::float_keys;
pub use column::int_key;
pub use column::int_keys;
pub use column::text_key;
pub use column::text_keys;
pub use column::Column;
pub use components::group_holds;
pub use components::group_key_holds;
pub use components::groups_disjoint;
pub use components::same_group;
pub use errors::GraphError;
pub use expressions::column_cells;
pub use expressions::column_len;
pub use expressions::cycles_of_built;
pub use expressions::has_cycles;
pub use expressions::same_supported_kind;
pub use graph::contains_key;
pub use graph::insert_node_spec;
pub use graph::key_index;
pub use graph::keys_of;
pub use graph::lemma_directed_asymmetry;
pub use graph::lemma_key_index_unique;
pub use graph::lemma_undirected_symmetry;
pub use graph::nodes_distinct;
pub use graph::DirectedGraph;
pub use graph::Edge;
pub use graph::UndirectedGraph;
pub use graph::DEFAULT_WEIGHT_BITS;
pub use node::canonical_bits;
pub use node::canonical_float_bits;
pub use node::is_nan_bits;
pub use node::NodeData;
pub use node::CANONICAL_NAN_BITS;
pub use node::FLOAT_EXP_MASK;
pub use node::FLOAT_FRAC_MASK;
pub use node::NEGATIVE_ZERO_BITS;
pub use node::NodeKey;
pub use scc::edge_step;
pub use scc::get_cycles;
pub use scc::is_walk;
pub use scc::lemma_acyclic_completeness;
pub use scc::mutual_keys;
pub use scc::reaches;
pub use shortest::connected;
pub use shortest::connected_keys;
pub use shortest::edge_with_weight;
pub use shortest::fold_add;
pub use shortest::is_uwalk;
pub use shortest::joins;
pub use shortest::lemma_connected_self;
pub use shortest::lemma_connected_step;
pub use shortest::lemma_connected_sym;
pub use shortest::lemma_connected_trans;
pub use shortest::path_total;
pub use shortest::ustep;
pub use shortest::ustep_w;
pub use topo::order_contains;
pub use topo::order_respects_edges;
pub use weights::add_bits;
pub use weights::lt_bits;
pub use weights::FLOAT_MAGNITUDE_MASK;
pub use weights::ZERO_WEIGHT_BITS;
