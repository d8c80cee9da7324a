//! Server side of a table of bare nullifiers.

pub mod event_laws;
pub mod following;
pub mod pir_stub;
pub mod pir_ypir;
pub mod routes;
pub mod schedule;
pub mod server;
pub mod state;
