//! The connection options an MQTT client sends: the CONNECT flag bits and
//! the user's identity, credentials, will and keep-alive.

use vstd::prelude::*;

verus! {

/// Flags required for a client connection.
pub struct FlagsConnection {
    pub username: bool,
    pub password: bool,
    pub will_retain: bool,
    pub will_flag: bool,
    pub clean_session: bool,
}

/// Information about the client, with each text field's byte length as it
/// is sent on the wire.
pub struct UserInformation {
    pub id_length: u16,
    pub id: String,
    pub username_length: u16,
    pub username: Option<String>,
    pub password_length: u16,
    pub password: Option<String>,
    pub will_topic_length: u16,
    pub will_topic: Option<String>,
    pub will_message_length: u16,
    pub will_message: Option<String>,
    pub will_qos: u8,
    pub keep_alive: u16,
}

/// The CONNECT flags byte: username, password, will-retain, two will-QoS
/// bits, will and clean-session.
pub open spec fn connect_flags_byte(flags: FlagsConnection, will_qos: u8) -> u8 {
    (((((if flags.username {
        0x80u8
    } else {
        0x00u8
    }) | (if flags.password {
        0x40u8
    } else {
        0x00u8
    })) | (if flags.will_retain {
        0x20u8
    } else {
        0x00u8
    })) | ((will_qos << 3) & 0x18)) | (if flags.will_flag {
        0x04u8
    } else {
        0x00u8
    })) | (if flags.clean_session {
        0x02u8
    } else {
        0x00u8
    })
}

/// Build the CONNECT flags byte.
pub fn create_byte_with_flags(flags: &FlagsConnection, will_qos: &u8) -> (byte_flags: u8)
    ensures
        byte_flags == connect_flags_byte(*flags, *will_qos),
{
    let username_bit: u8 = if flags.username {
        0x80
    } else {
        0x00
    };
    let password_bit: u8 = if flags.password {
        0x40
    } else {
        0x00
    };
    let retain_bit: u8 = if flags.will_retain {
        0x20
    } else {
        0x00
    };
    let qos_bits: u8 = (*will_qos << 3) & 0x18;
    let will_bit: u8 = if flags.will_flag {
        0x04
    } else {
        0x00
    };
    let clean_bit: u8 = if flags.clean_session {
        0x02
    } else {
        0x00
    };
    ((((username_bit | password_bit) | retain_bit) | qos_bits) | will_bit) | clean_bit
}

/// The length of a CONNECT body for these options: the fixed twelve bytes
/// plus every field sent, each length-prefixed field costing two more.
pub open spec fn connection_length(flags: FlagsConnection, info: UserInformation) -> int {
    12 + info.id_length + (if flags.username {
        info.username_length + 2int
    } else {
        0int
    }) + (if flags.password {
        info.password_length + 2int
    } else {
        0int
    }) + (if flags.will_flag {
        info.will_topic_length + info.will_message_length + 4int
    } else {
        0int
    })
}

/// Compute the length of the CONNECT body these options will produce.
pub fn calculate_connection_length(
    flags: &FlagsConnection,
    user_information: &UserInformation,
) -> (length: usize)
    ensures
        length == connection_length(*flags, *user_information),
{
    let mut length: usize = 12;
    length = length + user_information.id_length as usize;
    if flags.username {
        length = length + user_information.username_length as usize + 2;
    }
    if flags.password {
        length = length + user_information.password_length as usize + 2;
    }
    if flags.will_flag {
        length = length + user_information.will_topic_length as usize
            + user_information.will_message_length as usize + 4;
    }
    length
}

} // verus!
