//! Session modes, shared containers and the parallel stages of a session.

pub mod cost;
pub mod drain;
pub mod measure;
pub mod mode;
pub mod par_context;
pub mod parallel;
pub mod plan;
pub mod scope;
pub mod settle;
pub mod slots;
pub mod stage;
pub mod vec;
pub mod worker_local;
