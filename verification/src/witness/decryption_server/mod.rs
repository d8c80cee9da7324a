//! Server side of the decryption PIR database.

pub mod pir_stub;
pub mod routes;
pub mod server;
pub mod state;
