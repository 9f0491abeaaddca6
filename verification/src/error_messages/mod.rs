//! The messages of a diagnostic, the spans they point at, and the arguments they are filled with.

pub mod args;
pub mod message;
pub mod span;
