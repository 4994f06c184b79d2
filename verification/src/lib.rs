//! Port lists, scan configuration and the UDP probe database of a port scanner.
pub mod text;
pub mod payload;
pub mod ports;
pub mod database;
pub mod input;
pub mod port_strategy;
pub mod round_trip;
pub mod database_laws;
