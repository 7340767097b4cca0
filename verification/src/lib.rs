//! Core of a cooperative, single-threaded multi-agent runtime:
//! a supervisor that drives a tick loop and routes typed messages between
//! agents, and a keyword-indexed memory store with ranked search and a
//! lossless text persistence format.

pub mod academy;
pub mod agent;
pub mod archimedes;
pub mod characters;
pub mod codec;
pub mod keywords;
pub mod library;
pub mod memory_store;
pub mod message;
pub mod prompts;
pub mod protection;
pub mod supervisor;
pub mod text;
pub mod thomas;
