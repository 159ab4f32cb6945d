//! The engine of a service that builds many packages with two toolchains
//! and records what each build gave.
//!
//! `run_graph` holds the graph of the tasks of one experiment, `builder`
//! builds it, and `workers` holds what the workers of a run decide.
//! `experiments` holds the store of experiments and `db` the recorded
//! outcomes. The modules whose names end in `lemmas` state and prove what
//! holds of these: no task is handed out twice, a failure takes along
//! exactly what depended on it, a full run leaves only the root and two
//! outcomes for each package, and more. `stable_graph` and `time` hold the
//! few assumptions about `petgraph` and `chrono` that the proofs rest on.

pub mod builder;
pub mod built_lemmas;
pub mod config;
pub mod crates;
pub mod db;
pub mod dirs;
pub mod errors;
pub mod ex;
pub mod experiments;
pub mod failure_lemmas;
pub mod graph_lemmas;
pub mod records;
pub mod results;
pub mod run_graph;
pub mod run_lemmas;
pub mod stable_graph;
pub mod status;
pub mod store_lemmas;
pub mod tasks;
pub mod time;
pub mod toolchain;
pub mod util;
pub mod workers;
