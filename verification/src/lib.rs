//! The query and storage logic of an embedded vector, graph and document engine.

pub mod background;
pub mod call_laws;
pub mod collection;
pub mod condition_laws;
pub mod confirm;
pub mod cost;
pub mod display;
pub mod edge;
pub mod error;
pub mod fetch;
pub mod fetch_laws;
pub mod field_index;
pub mod fields;
pub mod filter;
pub mod float_bits;
pub mod graph;
pub mod hnsw_snapshot;
pub mod hybrid;
pub mod id_map;
pub mod index;
pub mod index_history;
pub mod index_laws;
pub mod infer;
pub mod infer_laws;
pub mod inference;
pub mod insert;
pub mod join;
pub mod join_laws;
pub mod journal;
pub mod key_order;
pub mod location;
pub mod log_laws;
pub mod number_laws;
pub mod output_laws;
pub mod plan;
pub mod query_laws;
pub mod recovery;
pub mod replay;
pub mod result;
pub mod row_laws;
pub mod rows;
pub mod score;
pub mod search;
pub mod search_laws;
pub mod selection;
pub mod shell;
pub mod sort;
pub mod text;
pub mod tracking;
pub mod traverse;
pub mod types;
pub mod update;
pub mod value;
pub mod walk_laws;
pub mod write_laws;
