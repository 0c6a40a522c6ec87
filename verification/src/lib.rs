//! A verified core of an MQTT 3.1.1 broker.
//!
//! The `server` half holds the broker logic: the wildcard matcher, the
//! remaining-length and packet codecs, the per-client record, and the
//! coordinator that owns the broker-wide state.  The `client` half holds the
//! packet builders and parsers an MQTT client needs.  Sockets, channels and
//! files stay outside; every function here computes on plain values.

pub mod client;
pub mod server;
pub mod text;
