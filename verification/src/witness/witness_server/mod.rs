//! Server side of the witness PIR database.

pub mod pir_stub;
pub mod routes;
pub mod server;
pub mod state;
pub mod window_laws;
