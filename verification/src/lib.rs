pub mod builder;
pub mod cht;
pub mod codec;
pub mod config;
pub mod counters;
pub mod hll;
pub mod lookup;
pub mod resolve;
pub mod split;
pub mod taxonomy;
pub mod text;
pub mod utils;
