//! What a compilation does and decides around the compiler's passes.

pub mod cfg;
pub mod check_cfg;
pub mod crate_info;
pub mod dep_info;
pub mod laws;
pub mod limits;
pub mod macro_stats;
pub mod outputs;
pub mod passes;
pub mod session;
pub mod util;
