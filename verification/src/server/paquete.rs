//! An older packet-type table kept alongside the current one, without the
//! internal broken-stream sentinel.

use vstd::prelude::*;
use crate::server::packet::{is_mqtt_protocol_name, CONNECTION_PROTOCOL_REJECTED, MQTT_VERSION};

verus! {

/// The wire packet types.
pub enum Paquetes {
    Connect,
    ConnAck,
    Publish,
    PubAck,
    PubRel,
    PubComp,
    Subscribe,
    SubAck,
    Unsubscribe,
    UnsubAck,
    PingReq,
    PingResp,
    Disconnect,
}

/// The packet type named by the high nibble of a fixed-header byte; an
/// unknown nibble reads as DISCONNECT.
pub open spec fn paquete_of_byte(code: u8) -> Paquetes {
    let high = code & 0xF0;
    if high == 0x10 {
        Paquetes::Connect
    } else if high == 0x20 {
        Paquetes::ConnAck
    } else if high == 0x30 {
        Paquetes::Publish
    } else if high == 0x40 {
        Paquetes::PubAck
    } else if high == 0x60 {
        Paquetes::PubRel
    } else if high == 0x70 {
        Paquetes::PubComp
    } else if high == 0x80 {
        Paquetes::Subscribe
    } else if high == 0x90 {
        Paquetes::SubAck
    } else if high == 0xA0 {
        Paquetes::Unsubscribe
    } else if high == 0xB0 {
        Paquetes::UnsubAck
    } else if high == 0xC0 {
        Paquetes::PingReq
    } else if high == 0xD0 {
        Paquetes::PingResp
    } else {
        Paquetes::Disconnect
    }
}

/// The fixed-header byte a packet type is sent with.
pub open spec fn byte_of_paquete(code: Paquetes) -> u8 {
    match code {
        Paquetes::Connect => 0x10,
        Paquetes::ConnAck => 0x20,
        Paquetes::Publish => 0x30,
        Paquetes::PubAck => 0x40,
        Paquetes::PubRel => 0x62,
        Paquetes::PubComp => 0x70,
        Paquetes::Subscribe => 0x82,
        Paquetes::SubAck => 0x90,
        Paquetes::Unsubscribe => 0xA2,
        Paquetes::UnsubAck => 0xB0,
        Paquetes::PingReq => 0xC0,
        Paquetes::PingResp => 0xD0,
        Paquetes::Disconnect => 0xE0,
    }
}

impl core::convert::From<u8> for Paquetes {
    fn from(code: u8) -> (paquete: Paquetes) {
        match code & 0xF0 {
            0x10 => Paquetes::Connect,
            0x20 => Paquetes::ConnAck,
            0x30 => Paquetes::Publish,
            0x40 => Paquetes::PubAck,
            0x60 => Paquetes::PubRel,
            0x70 => Paquetes::PubComp,
            0x80 => Paquetes::Subscribe,
            0x90 => Paquetes::SubAck,
            0xA0 => Paquetes::Unsubscribe,
            0xB0 => Paquetes::UnsubAck,
            0xC0 => Paquetes::PingReq,
            0xD0 => Paquetes::PingResp,
            _ => Paquetes::Disconnect,
        }
    }
}

impl vstd::std_specs::convert::FromSpecImpl<u8> for Paquetes {
    open spec fn obeys_from_spec() -> bool {
        true
    }

    open spec fn from_spec(code: u8) -> Paquetes {
        paquete_of_byte(code)
    }
}

impl core::convert::From<Paquetes> for u8 {
    fn from(code: Paquetes) -> (byte: u8) {
        match code {
            Paquetes::Connect => 0x10,
            Paquetes::ConnAck => 0x20,
            Paquetes::Publish => 0x30,
            Paquetes::PubAck => 0x40,
            Paquetes::PubRel => 0x62,
            Paquetes::PubComp => 0x70,
            Paquetes::Subscribe => 0x82,
            Paquetes::SubAck => 0x90,
            Paquetes::Unsubscribe => 0xA2,
            Paquetes::UnsubAck => 0xB0,
            Paquetes::PingReq => 0xC0,
            Paquetes::PingResp => 0xD0,
            Paquetes::Disconnect => 0xE0,
        }
    }
}

impl vstd::std_specs::convert::FromSpecImpl<Paquetes> for u8 {
    open spec fn obeys_from_spec() -> bool {
        true
    }

    open spec fn from_spec(code: Paquetes) -> u8 {
        byte_of_paquete(code)
    }
}

/// Check that a CONNECT opens with the MQTT protocol name.
pub fn verificar_nombre_protocolo(buffer: &[u8]) -> (result: Result<(), u8>)
    requires
        buffer@.len() >= 6,
    ensures
        result == if is_mqtt_protocol_name(buffer@) {
            Ok::<(), u8>(())
        } else {
            Err::<(), u8>(CONNECTION_PROTOCOL_REJECTED)
        },
{
    if buffer[0] == 0x00 && buffer[1] == 0x04 && buffer[2] == 0x4D && buffer[3] == 0x51
        && buffer[4] == 0x54 && buffer[5] == 0x54 {
        Ok(())
    } else {
        Err(CONNECTION_PROTOCOL_REJECTED)
    }
}

/// Check that a CONNECT names protocol level 4.
pub fn verificar_version_protocolo(nivel: &u8) -> (result: Result<(), u8>)
    ensures
        result == if *nivel == MQTT_VERSION {
            Ok::<(), u8>(())
        } else {
            Err::<(), u8>(CONNECTION_PROTOCOL_REJECTED)
        },
{
    if *nivel == MQTT_VERSION {
        return Ok(());
    }
    Err(CONNECTION_PROTOCOL_REJECTED)
}

} // verus!
