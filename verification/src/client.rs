//! The client side: the packet builders and parsers an MQTT client
//! needs.

pub mod connection;
pub mod packet;
pub mod paquete;
pub mod utils;
