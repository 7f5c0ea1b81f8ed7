//! Node lifecycle and domain-membership engine for a fleet of tunnelled
//! inference nodes.
//!
//! - `models`, `state`, `db`: the state store, its rows, its mathematical
//!   view, and the queries and updates that run on it.
//! - `redism`: the router store, with the per-domain membership sets in
//!   cumulative-score encoding.
//! - `frps`: the tunnel event processor and the node listings.
//! - `node_services`, `domain_nodes`: what nodes report of themselves, and
//!   the administration of domain membership.
//! - `maintenance`: request routing and the three maintenance jobs.
//! - `laws`: what holds across these.
//! - `text`, `table`, `query`, `assoc`, `args`: strings, table vocabulary,
//!   query strings, a keyed collection, and the command-line settings.
pub mod args;
pub mod text;
pub mod table;
pub mod models;
pub mod state;
pub mod db;
pub mod assoc;
pub mod redism;
pub mod query;
pub mod frps;
pub mod domain_nodes;
pub mod node_services;
pub mod maintenance;
pub mod laws;
