//! The broker side: codecs, client records, the coordinator, and the
//! configuration.

pub mod client;
pub mod cliente;
pub mod configuracion;
pub mod configuration;
pub mod coordinator;
pub mod packet;
pub mod paquete;
pub mod utils;
pub mod wildcard;
