//! Planning and judging the load of a cluster that serves a language model, and talking to
//! the server that runs it.
//!
//! - `distribution`, `chunking`, `plan`: which node holds which layers, by their VRAM.
//! - `balance`, `stats`: whether the load is unbalanced, what to move, and what was done.
//! - `balancer`, `shared`, `config`, `profile`, `cluster`: the balancer that puts these
//!   together, and its clones.
//! - `vllm`, `stream`, `json`: requests to a vLLM server, and its replies.
//! - `binary32`, `rounding`, `decimal`, `ordering`, `text`: arithmetic, printing, sorting and
//!   trimming that the rest is built on.
//! - `greedy_laws`, `plan_laws`, `arithmetic_laws`: what a distribution is, what holds of every
//!   plan, and what the arithmetic gives.
pub mod arithmetic_laws;
pub mod balance;
pub mod balancer;
pub mod binary32;
pub mod chunking;
pub mod cluster;
pub mod config;
pub mod decimal;
pub mod distribution;
pub mod greedy_laws;
pub mod json;
pub mod ordering;
pub mod plan;
pub mod plan_laws;
pub mod profile;
pub mod rounding;
pub mod shared;
pub mod stats;
pub mod stream;
pub mod text;
pub mod vllm;
