use vstd::prelude::*;

pub mod access_log;
pub mod arena;
pub mod cache;
pub mod env_config;
pub mod rc_refcell;
mod text;
pub mod wav;

pub use cache::Cache;

verus! {

} // verus!
