//! IPCow: address and port parsing, error bookkeeping and the decision
//! logic of a multi-port TCP listener and host scanner, with contracts.

pub mod config;
pub mod cube;
pub mod discovery;
pub mod error;
pub mod fuzzing;
pub mod handlers;
pub mod ping;
pub mod sockparse;
pub mod state;
pub mod text;
pub mod types;
pub mod web_server;
