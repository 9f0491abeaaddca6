//! The data structures, diagnostics and session rules of a compiler front end.

pub mod aligned;
pub mod base_n;
pub mod binary_search_util;
pub mod error_messages;
pub mod errors;
pub mod feature;
pub mod flock;
pub mod fs_util;
pub mod fx;
pub mod helpers;
pub mod hir_analysis;
pub mod id_map;
pub mod interface;
pub mod intern;
pub mod iter_ext;
pub mod marker;
pub mod profiling;
pub mod sharded;
pub mod sort;
pub mod stable_hash;
pub mod stable_order;
pub mod svh;
pub mod sync;
pub mod temp_dir;
pub mod text;
pub mod text_map;
pub mod unhash;
