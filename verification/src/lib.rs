//! Sequential range lists: a compact, base-anchored representation of a
//! sequence of insert and delete operations on a text document, together with
//! the operations that build, merge, convert and transform such lists.

pub mod ops;
pub mod locate;
pub mod delete;
pub mod merge;
pub mod convert;
pub mod transform;
pub mod document;
pub mod baseops;
pub mod segment_view;
pub mod random_data;
pub mod discontinuous;
pub mod range_tree;
pub mod btree;
pub mod oplog;
pub mod range_key;
pub mod doc_view;
pub mod canonical;
pub mod doc_delete;
pub mod doc_replay;
pub mod round_trip;
pub mod tally;
pub mod merge_view;
pub mod transform_view;
pub mod transform_map;
