//! Diagnostics: what they are, how they are counted and printed, and in which order.

pub mod codes;
pub mod dcx;
pub mod diag;
pub mod diagnostic_impls;
pub mod formatting;
pub mod handle;
pub mod item_scope;
pub mod laws;
pub mod level;
pub mod plain_emitter;
pub mod stash;
pub mod suggestion;
pub mod wording;
