//! The server's decisions: configuration, backend selection, admission, and
//! what its administrative tools report.

pub mod admin;
pub mod backend;
pub mod config;
pub mod http;
pub mod json;
pub mod laws;
pub mod load;
pub mod load_laws;
pub mod message;
pub mod serve;
