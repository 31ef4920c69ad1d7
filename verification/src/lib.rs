//! Parsing and result logic of a DNS server checker: server lists, bootstrap
//! addresses, expected answers and the aggregation of lookup outcomes.

pub mod text;
pub mod addr;
pub mod span;
pub mod config;
pub mod server;
pub mod check;
pub mod lookup;
pub mod service;
pub mod laws;
