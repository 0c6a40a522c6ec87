//! The client's packets: reading the broker's answers and building the
//! frames a client sends.  Every builder states the bytes it produces, and
//! the PUBLISH builder also states that parsing its frame gives back the
//! topic, packet id and payload it was built from: encoding then decoding
//! is the identity.

use vstd::prelude::*;
use vstd::utf8::{decode_utf8, encode_utf8, valid_utf8};
use crate::client::connection::{
    connect_flags_byte, connection_length, create_byte_with_flags, calculate_connection_length,
    FlagsConnection, UserInformation,
};
use crate::server::packet::{
    be16, credentials_ok, publish_cmd_payload, publish_cmd_pid, publish_cmd_topic,
    publish_cmd_wf, push_bytes, qos_bit_set, ConnectError,
};
use crate::server::utils::remaining_length_bytes;
use crate::text::utf8_to_string;

verus! {

/// All possible packet types.
pub enum Packet {
    Connect,
    ConnAck,
    Publish,
    PubAck,
    PubRel,
    PubComp,
    Subscribe,
    SubAck,
    Unsubscribe,
    UnsubAck,
    PingReq,
    PingResp,
    Disconnect,
}

/// The packet type named by the high nibble of a fixed-header byte; an
/// unknown nibble reads as DISCONNECT.
pub open spec fn packet_of_byte(code: u8) -> Packet {
    let high = code & 0xF0;
    if high == 0x10 {
        Packet::Connect
    } else if high == 0x20 {
        Packet::ConnAck
    } else if high == 0x30 {
        Packet::Publish
    } else if high == 0x40 {
        Packet::PubAck
    } else if high == 0x60 {
        Packet::PubRel
    } else if high == 0x70 {
        Packet::PubComp
    } else if high == 0x80 {
        Packet::Subscribe
    } else if high == 0x90 {
        Packet::SubAck
    } else if high == 0xA0 {
        Packet::Unsubscribe
    } else if high == 0xB0 {
        Packet::UnsubAck
    } else if high == 0xC0 {
        Packet::PingReq
    } else if high == 0xD0 {
        Packet::PingResp
    } else {
        Packet::Disconnect
    }
}

/// The fixed-header byte a packet type is sent with.
pub open spec fn byte_of_packet(code: Packet) -> u8 {
    match code {
        Packet::Connect => 0x10,
        Packet::ConnAck => 0x20,
        Packet::Publish => 0x30,
        Packet::PubAck => 0x40,
        Packet::PubRel => 0x62,
        Packet::PubComp => 0x70,
        Packet::Subscribe => 0x82,
        Packet::SubAck => 0x90,
        Packet::Unsubscribe => 0xA2,
        Packet::UnsubAck => 0xB0,
        Packet::PingReq => 0xC0,
        Packet::PingResp => 0xD0,
        Packet::Disconnect => 0xE0,
    }
}

impl core::convert::From<u8> for Packet {
    fn from(code: u8) -> (packet: Packet) {
        match code & 0xF0 {
            0x10 => Packet::Connect,
            0x20 => Packet::ConnAck,
            0x30 => Packet::Publish,
            0x40 => Packet::PubAck,
            0x60 => Packet::PubRel,
            0x70 => Packet::PubComp,
            0x80 => Packet::Subscribe,
            0x90 => Packet::SubAck,
            0xA0 => Packet::Unsubscribe,
            0xB0 => Packet::UnsubAck,
            0xC0 => Packet::PingReq,
            0xD0 => Packet::PingResp,
            _ => Packet::Disconnect,
        }
    }
}

impl vstd::std_specs::convert::FromSpecImpl<u8> for Packet {
    open spec fn obeys_from_spec() -> bool {
        true
    }

    open spec fn from_spec(code: u8) -> Packet {
        packet_of_byte(code)
    }
}

impl core::convert::From<Packet> for u8 {
    fn from(package: Packet) -> (byte: u8) {
        match package {
            Packet::Connect => 0x10,
            Packet::ConnAck => 0x20,
            Packet::Publish => 0x30,
            Packet::PubAck => 0x40,
            Packet::PubRel => 0x62,
            Packet::PubComp => 0x70,
            Packet::Subscribe => 0x82,
            Packet::SubAck => 0x90,
            Packet::Unsubscribe => 0xA2,
            Packet::UnsubAck => 0xB0,
            Packet::PingReq => 0xC0,
            Packet::PingResp => 0xD0,
            Packet::Disconnect => 0xE0,
        }
    }
}

impl vstd::std_specs::convert::FromSpecImpl<Packet> for u8 {
    open spec fn obeys_from_spec() -> bool {
        true
    }

    open spec fn from_spec(code: Packet) -> u8 {
        byte_of_packet(code)
    }
}

/// Read a CONNACK body: session-present and the return code.
pub fn read_connack(buffer: &Vec<u8>) -> (answer: (u8, u8))
    requires
        buffer@.len() >= 2,
    ensures
        answer.0 == buffer@[0],
        answer.1 == buffer@[1],
{
    (buffer[0], buffer[1])
}

/// Read a PUBACK body: the acknowledged packet id.
pub fn read_puback(buffer: &Vec<u8>) -> (packet_identifier: u16)
    requires
        buffer@.len() >= 2,
    ensures
        packet_identifier as nat == be16(buffer@[0], buffer@[1]),
{
    (buffer[0] as u16) * 256 + buffer[1] as u16
}

/// Read a SUBACK body: the packet id and one granted-QoS code per topic.
pub fn read_suback(buffer: &Vec<u8>) -> (answer: (u16, Vec<u8>))
    requires
        buffer@.len() >= 2,
    ensures
        answer.0 as nat == be16(buffer@[0], buffer@[1]),
        answer.1@ == buffer@.skip(2),
{
    let packet_identifier = (buffer[0] as u16) * 256 + buffer[1] as u16;
    let topic_results = crate::text::sub_vec(buffer, 2, buffer.len());
    proof {
        assert(topic_results@ =~= buffer@.skip(2));
    }
    (packet_identifier, topic_results)
}

/// Read an UNSUBACK body: the packet id.
pub fn read_unsuback(buffer: &Vec<u8>) -> (packet_identifier: u16)
    requires
        buffer@.len() >= 2,
    ensures
        packet_identifier as nat == be16(buffer@[0], buffer@[1]),
{
    (buffer[0] as u16) * 256 + buffer[1] as u16
}

/// A PINGRESP carries nothing beyond its fixed header.
pub fn read_pingresp() {
}

/// Read a PUBLISH body: the topic, the payload as text, and the packet id
/// when the QoS-1 bit of the fixed-header byte is set.  Nothing comes back
/// when a field runs past the buffer or is not UTF-8.
pub fn read_publish(byte_0: u8, buffer: &Vec<u8>) -> (publication: Option<
    (String, String, Option<u16>),
>)
    ensures
        match publication {
            Some(p) => {
                &&& publish_cmd_wf(seq![byte_0] + buffer@)
                &&& p.0@ == publish_cmd_topic(seq![byte_0] + buffer@)
                &&& valid_utf8(publish_cmd_payload(seq![byte_0] + buffer@)) && p.1@ == decode_utf8(
                    publish_cmd_payload(seq![byte_0] + buffer@),
                )
                &&& if qos_bit_set(byte_0) {
                    p.2 matches Some(pid) && pid as nat == publish_cmd_pid(seq![byte_0] + buffer@)
                } else {
                    p.2 is None
                }
            },
            None => {
                ||| !publish_cmd_wf(seq![byte_0] + buffer@)
                ||| !valid_utf8(
                    crate::server::packet::publish_cmd_topic_bytes(seq![byte_0] + buffer@),
                )
                ||| !valid_utf8(publish_cmd_payload(seq![byte_0] + buffer@))
            },
        },
{
    let ghost cmd = seq![byte_0] + buffer@;
    if buffer.len() < 2 {
        return None;
    }
    let topic_len: usize = (buffer[0] as usize) * 256 + buffer[1] as usize;
    let used: usize = if byte_0 & 0x02 == 2 {
        topic_len + 4
    } else {
        topic_len + 2
    };
    if buffer.len() < used {
        return None;
    }
    proof {
        assert(cmd[1] == buffer@[0] && cmd[2] == buffer@[1]);
        assert(publish_cmd_wf(cmd));
    }
    let topic_bytes = crate::text::sub_vec(buffer, 2, 2 + topic_len);
    proof {
        assert(topic_bytes@ =~= crate::server::packet::publish_cmd_topic_bytes(cmd));
    }
    let topic_name = match utf8_to_string(topic_bytes.as_slice()) {
        Some(t) => t,
        None => {
            return None;
        },
    };
    let mut packet_identifier: Option<u16> = None;
    if byte_0 & 0x02 == 2 {
        let pid_hi = buffer[topic_len + 2];
        let pid_lo = buffer[topic_len + 3];
        packet_identifier = Some((pid_hi as u16) * 256 + pid_lo as u16);
        proof {
            assert(cmd[3 + topic_len as int] == buffer@[topic_len as int + 2]);
            assert(cmd[4 + topic_len as int] == buffer@[topic_len as int + 3]);
        }
    }
    let payload_bytes = crate::text::sub_vec(buffer, used, buffer.len());
    proof {
        assert(payload_bytes@ =~= publish_cmd_payload(cmd));
    }
    let message = match utf8_to_string(payload_bytes.as_slice()) {
        Some(m) => m,
        None => {
            return None;
        },
    };
    Some((topic_name, message, packet_identifier))
}

/// Convert bytes to a UTF-8 string; invalid input is refused.
pub fn bytes2string(bytes: &[u8]) -> (text: Result<String, u8>)
    ensures
        match text {
            Ok(s) => valid_utf8(bytes@) && s@ == decode_utf8(bytes@),
            Err(code) => !valid_utf8(bytes@) && code == 1,
        },
{
    match utf8_to_string(bytes) {
        Some(s) => Ok(s),
        None => Err(1),
    }
}

/// A two-byte big-endian length followed by the encoded text.
pub open spec fn lp_field_bytes(s: Seq<char>) -> Seq<u8> {
    seq![
        (encode_utf8(s).len() / 256) as u8,
        (encode_utf8(s).len() % 256) as u8,
    ] + encode_utf8(s)
}

/// Whether the wire lengths carried in the user information agree with the
/// fields actually sent for these flags.
pub open spec fn connection_info_wf(flags: FlagsConnection, info: UserInformation) -> bool {
    &&& info.id_length as nat == encode_utf8(info.id@).len()
    &&& flags.will_flag ==> (info.will_topic matches Some(t) && info.will_topic_length as nat
        == encode_utf8(t@).len())
    &&& flags.will_flag ==> (info.will_message matches Some(m) && info.will_message_length as nat
        == encode_utf8(m@).len())
    &&& flags.username ==> (info.username matches Some(u) && info.username_length as nat
        == encode_utf8(u@).len())
    &&& flags.password ==> (info.password matches Some(p) && info.password_length as nat
        == encode_utf8(p@).len())
}

/// The CONNECT body for these options: protocol name and level, the flag
/// byte, the keep-alive, and the length-prefixed client id, will fields
/// and credentials.
pub open spec fn connect_body_bytes(flags: FlagsConnection, info: UserInformation) -> Seq<u8> {
    seq![
        0x00u8,
        0x04u8,
        0x4Du8,
        0x51u8,
        0x54u8,
        0x54u8,
        0x04u8,
        connect_flags_byte(flags, info.will_qos),
        (info.keep_alive / 256) as u8,
        (info.keep_alive % 256) as u8,
    ] + lp_field_bytes(info.id@) + (if flags.will_flag {
        lp_field_bytes(info.will_topic.unwrap()@) + lp_field_bytes(info.will_message.unwrap()@)
    } else {
        Seq::<u8>::empty()
    }) + (if flags.username {
        lp_field_bytes(info.username.unwrap()@)
    } else {
        Seq::<u8>::empty()
    }) + (if flags.password {
        lp_field_bytes(info.password.unwrap()@)
    } else {
        Seq::<u8>::empty()
    })
}

/// Build the body of a CONNECT packet for these options.
#[verifier::rlimit(100)]
#[verifier::spinoff_prover]
fn build_connect_body(
    flags: &FlagsConnection,
    user_information: &UserInformation,
) -> (body: Vec<u8>)
    requires
        connection_info_wf(*flags, *user_information),
    ensures
        body@ == connect_body_bytes(*flags, *user_information),
        body@.len() == connection_length(*flags, *user_information),
{
    let mut buffer = Vec::<u8>::new();
    buffer.push(0x00);
    buffer.push(0x04);
    buffer.push(0x4D);
    buffer.push(0x51);
    buffer.push(0x54);
    buffer.push(0x54);
    buffer.push(0x04);
    let byte_flags = create_byte_with_flags(flags, &user_information.will_qos);
    buffer.push(byte_flags);
    buffer.push((user_information.keep_alive / 256) as u8);
    buffer.push((user_information.keep_alive % 256) as u8);
    buffer.push((user_information.id_length / 256) as u8);
    buffer.push((user_information.id_length % 256) as u8);
    push_bytes(&mut buffer, user_information.id.as_str().as_bytes());
    if flags.will_flag {
        if let Some(will_topic) = &user_information.will_topic {
            if let Some(will_message) = &user_information.will_message {
                buffer.push((user_information.will_topic_length / 256) as u8);
                buffer.push((user_information.will_topic_length % 256) as u8);
                push_bytes(&mut buffer, will_topic.as_str().as_bytes());
                buffer.push((user_information.will_message_length / 256) as u8);
                buffer.push((user_information.will_message_length % 256) as u8);
                push_bytes(&mut buffer, will_message.as_str().as_bytes());
            }
        }
    }
    if flags.username {
        if let Some(username) = &user_information.username {
            buffer.push((user_information.username_length / 256) as u8);
            buffer.push((user_information.username_length % 256) as u8);
            push_bytes(&mut buffer, username.as_str().as_bytes());
        }
    }
    if flags.password {
        if let Some(password) = &user_information.password {
            buffer.push((user_information.password_length / 256) as u8);
            buffer.push((user_information.password_length % 256) as u8);
            push_bytes(&mut buffer, password.as_str().as_bytes());
        }
    }
    proof {
        assert(buffer@ =~= connect_body_bytes(*flags, *user_information));
    }
    buffer
}

/// Build the CONNECT packet for these options: the fixed header and the
/// body behind a remaining-length field.
pub fn build_connection_packet(
    flags: &FlagsConnection,
    user_information: &UserInformation,
) -> (packet: Vec<u8>)
    requires
        connection_info_wf(*flags, *user_information),
    ensures
        packet@ == seq![0x10u8] + remaining_length_bytes(
            connection_length(*flags, *user_information) as nat,
        ) + connect_body_bytes(*flags, *user_information),
{
    let body = build_connect_body(flags, user_information);
    let buffer_size = calculate_connection_length(flags, user_information);
    let mut remaining_length = crate::server::utils::remaining_length_encode(buffer_size);
    let mut packet = Vec::<u8>::new();
    packet.push(0x10);
    packet.append(&mut remaining_length);
    let mut body_vec = body;
    packet.append(&mut body_vec);
    proof {
        assert(packet@ =~= seq![0x10u8] + remaining_length_bytes(
            connection_length(*flags, *user_information) as nat,
        ) + connect_body_bytes(*flags, *user_information));
    }
    packet
}

/// A length-prefixed field parses to its text and the index after it.
proof fn lemma_lp_field_parse(prefix: Seq<u8>, s: Seq<char>, suffix: Seq<u8>)
    requires
        encode_utf8(s).len() <= 65535,
    ensures
        crate::server::packet::lp_field(
            prefix + lp_field_bytes(s) + suffix,
            prefix.len() as int,
        ) == Some::<(Seq<u8>, int)>(
            (encode_utf8(s), prefix.len() + 2 + encode_utf8(s).len() as int),
        ),
        crate::server::packet::lp_string(prefix + lp_field_bytes(s) + suffix, prefix.len() as int, true)
            == Some::<(Option<Seq<char>>, int)>(
            (Some(s), prefix.len() + 2 + encode_utf8(s).len() as int),
        ),
{
    broadcast use vstd::utf8::encode_utf8_valid_utf8, vstd::utf8::encode_utf8_decode_utf8;

    let b = prefix + lp_field_bytes(s) + suffix;
    let i = prefix.len() as int;
    let n = encode_utf8(s).len() as int;
    assert(b[i] == (encode_utf8(s).len() / 256) as u8);
    assert(b[i + 1] == (encode_utf8(s).len() % 256) as u8);
    assert(be16(b[i], b[i + 1]) == n) by {
        assert(encode_utf8(s).len() / 256 <= 255);
    }
    assert(b.subrange(i + 2, i + 2 + n) =~= encode_utf8(s));
}

/// The index after the client id in a CONNECT body.
pub open spec fn offset_after_id(info: UserInformation) -> int {
    12 + encode_utf8(info.id@).len() as int
}

/// The index after the will fields in a CONNECT body.
pub open spec fn offset_after_wills(flags: FlagsConnection, info: UserInformation) -> int {
    offset_after_id(info) + if flags.will_flag {
        4 + encode_utf8(info.will_topic.unwrap()@).len() as int + encode_utf8(
            info.will_message.unwrap()@,
        ).len() as int
    } else {
        0int
    }
}

/// The index after the username in a CONNECT body.
pub open spec fn offset_after_user(flags: FlagsConnection, info: UserInformation) -> int {
    offset_after_wills(flags, info) + if flags.username {
        2 + encode_utf8(info.username.unwrap()@).len() as int
    } else {
        0int
    }
}

/// The fixed head of a built CONNECT body reads back field by field.
#[verifier::spinoff_prover]
proof fn lemma_connect_head(flags: FlagsConnection, info: UserInformation)
    requires
        connection_info_wf(flags, info),
        info.will_qos <= 3,
    ensures
        ({
            let b = connect_body_bytes(flags, info);
            &&& b.len() >= offset_after_id(info)
            &&& crate::server::packet::is_mqtt_protocol_name(b)
            &&& b[6] == 4
            &&& be16(b[8], b[9]) == info.keep_alive
            &&& be16(b[10], b[11]) == encode_utf8(info.id@).len()
            &&& b.subrange(12, offset_after_id(info)) == encode_utf8(info.id@)
            &&& vstd::utf8::valid_utf8(encode_utf8(info.id@))
            &&& decode_utf8(encode_utf8(info.id@)) == info.id@
            &&& (b[7] & 0x80 == 0x80) == flags.username
            &&& (b[7] & 0x40 == 0x40) == flags.password
            &&& (b[7] & 0x20 == 0x20) == flags.will_retain
            &&& ((b[7] & 0x18) >> 3) == info.will_qos
            &&& (b[7] & 0x04 == 0x04) == flags.will_flag
            &&& (b[7] & 0x02 == 0x02) == flags.clean_session
        }),
{
    vstd::utf8::encode_utf8_valid_utf8(info.id@);
    vstd::utf8::encode_utf8_decode_utf8(info.id@);
    let b = connect_body_bytes(flags, info);
    let id = encode_utf8(info.id@);
    let fb = connect_flags_byte(flags, info.will_qos);
    let u_bit: u8 = if flags.username {
        0x80
    } else {
        0x00
    };
    let p_bit: u8 = if flags.password {
        0x40
    } else {
        0x00
    };
    let r_bit: u8 = if flags.will_retain {
        0x20
    } else {
        0x00
    };
    let q_bits: u8 = (info.will_qos << 3) & 0x18;
    let w_bit: u8 = if flags.will_flag {
        0x04
    } else {
        0x00
    };
    let c_bit: u8 = if flags.clean_session {
        0x02
    } else {
        0x00
    };
    let qv = info.will_qos;
    assert((fb & 0x80 == 0x80) == (u_bit == 0x80) && (fb & 0x40 == 0x40) == (p_bit == 0x40) && (
    fb & 0x20 == 0x20) == (r_bit == 0x20) && ((fb & 0x18) >> 3) == qv && (fb & 0x04 == 0x04) == (
    w_bit == 0x04) && (fb & 0x02 == 0x02) == (c_bit == 0x02)) by (bit_vector)
        requires
            fb == ((((u_bit | p_bit) | r_bit) | q_bits) | w_bit) | c_bit,
            u_bit == 0x80 || u_bit == 0x00,
            p_bit == 0x40 || p_bit == 0x00,
            r_bit == 0x20 || r_bit == 0x00,
            q_bits == (qv << 3) & 0x18,
            w_bit == 0x04 || w_bit == 0x00,
            c_bit == 0x02 || c_bit == 0x00,
            qv <= 3,
    ;
    assert(b[7] == fb);
    assert(be16(b[8], b[9]) == info.keep_alive) by {
        assert(info.keep_alive / 256 <= 255);
    }
    assert(b[10] == (id.len() / 256) as u8 && b[11] == (id.len() % 256) as u8);
    assert(be16(b[10], b[11]) == id.len()) by {
        assert(id.len() / 256 <= 255);
    }
    assert(b.subrange(12, 12 + id.len() as int) =~= id);
}

/// The optional fields of a built CONNECT body each parse at their offset.
#[verifier::rlimit(100)]
#[verifier::spinoff_prover]
proof fn lemma_connect_fields(flags: FlagsConnection, info: UserInformation)
    requires
        connection_info_wf(flags, info),
    ensures
        flags.will_flag ==> crate::server::packet::lp_string(
            connect_body_bytes(flags, info),
            offset_after_id(info),
            true,
        ) == Some::<(Option<Seq<char>>, int)>(
            (
                Some(info.will_topic.unwrap()@),
                offset_after_id(info) + 2 + encode_utf8(info.will_topic.unwrap()@).len() as int,
            ),
        ),
        flags.will_flag ==> crate::server::packet::lp_string(
            connect_body_bytes(flags, info),
            offset_after_id(info) + 2 + encode_utf8(info.will_topic.unwrap()@).len() as int,
            true,
        ) == Some::<(Option<Seq<char>>, int)>(
            (Some(info.will_message.unwrap()@), offset_after_wills(flags, info)),
        ),
        flags.username ==> crate::server::packet::lp_string(
            connect_body_bytes(flags, info),
            offset_after_wills(flags, info),
            true,
        ) == Some::<(Option<Seq<char>>, int)>(
            (Some(info.username.unwrap()@), offset_after_user(flags, info)),
        ),
        flags.password ==> crate::server::packet::lp_string(
            connect_body_bytes(flags, info),
            offset_after_user(flags, info),
            true,
        ) == Some::<(Option<Seq<char>>, int)>(
            (
                Some(info.password.unwrap()@),
                offset_after_user(flags, info) + 2 + encode_utf8(
                    info.password.unwrap()@,
                ).len() as int,
            ),
        ),
{
    let b = connect_body_bytes(flags, info);
    let head = seq![
        0x00u8,
        0x04u8,
        0x4Du8,
        0x51u8,
        0x54u8,
        0x54u8,
        0x04u8,
        connect_flags_byte(flags, info.will_qos),
        (info.keep_alive / 256) as u8,
        (info.keep_alive % 256) as u8,
    ];
    let wills: Seq<u8> = if flags.will_flag {
        lp_field_bytes(info.will_topic.unwrap()@) + lp_field_bytes(info.will_message.unwrap()@)
    } else {
        Seq::<u8>::empty()
    };
    let users: Seq<u8> = if flags.username {
        lp_field_bytes(info.username.unwrap()@)
    } else {
        Seq::<u8>::empty()
    };
    let passes: Seq<u8> = if flags.password {
        lp_field_bytes(info.password.unwrap()@)
    } else {
        Seq::<u8>::empty()
    };
    assert(b == head + lp_field_bytes(info.id@) + wills + users + passes);
    let pre_id = head + lp_field_bytes(info.id@);
    assert(pre_id.len() == offset_after_id(info));
    if flags.will_flag {
        let wt = info.will_topic.unwrap()@;
        let wm = info.will_message.unwrap()@;
        assert(b =~= pre_id + lp_field_bytes(wt) + (lp_field_bytes(wm) + users + passes));
        lemma_lp_field_parse(pre_id, wt, lp_field_bytes(wm) + users + passes);
        let pre_wm = pre_id + lp_field_bytes(wt);
        assert(b =~= pre_wm + lp_field_bytes(wm) + (users + passes));
        lemma_lp_field_parse(pre_wm, wm, users + passes);
    }
    let pre_u = pre_id + wills;
    assert(pre_u.len() == offset_after_wills(flags, info));
    if flags.username {
        let un = info.username.unwrap()@;
        assert(b =~= pre_u + lp_field_bytes(un) + passes);
        lemma_lp_field_parse(pre_u, un, passes);
    }
    let pre_p = pre_u + users;
    assert(pre_p.len() == offset_after_user(flags, info));
    if flags.password {
        let pw = info.password.unwrap()@;
        assert(b =~= pre_p + lp_field_bytes(pw) + Seq::<u8>::empty());
        lemma_lp_field_parse(pre_p, pw, Seq::<u8>::empty());
    }
}

/// Parsing the CONNECT body a client builds gives back exactly the fields
/// it was built from: encoding and then decoding a connection is the
/// identity, whenever the broker's checks let it through at all — the
/// client id is non-empty, credentials are sent when the broker demands
/// them, and any credentials sent are ones the broker accepts.
#[verifier::rlimit(100)]
#[verifier::spinoff_prover]
pub proof fn lemma_connect_round_trip(
    flags: FlagsConnection,
    info: UserInformation,
    password_required: bool,
    credential_lines: Seq<Seq<char>>,
)
    requires
        connection_info_wf(flags, info),
        info.will_qos <= 3,
        encode_utf8(info.id@).len() >= 1,
        password_required ==> flags.username && flags.password,
        flags.username && flags.password ==> credentials_ok(
            info.username.unwrap()@,
            info.password.unwrap()@,
            credential_lines,
        ),
    ensures
        crate::server::packet::connect_decision(
            connect_body_bytes(flags, info),
            password_required,
            credential_lines,
        ) == Ok::<crate::server::packet::ConnectInfoV, ConnectError>(
            crate::server::packet::ConnectInfoV {
                client_id: info.id@,
                clean_session: if flags.clean_session {
                    1u8
                } else {
                    0u8
                },
                keep_alive: info.keep_alive,
                will_topic: if flags.will_flag {
                    Some(info.will_topic.unwrap()@)
                } else {
                    None
                },
                will_message: if flags.will_flag {
                    Some(info.will_message.unwrap()@)
                } else {
                    None
                },
                will_qos: info.will_qos,
                will_retain: flags.will_retain,
                username: if flags.username {
                    Some(info.username.unwrap()@)
                } else {
                    None
                },
                password: if flags.password {
                    Some(info.password.unwrap()@)
                } else {
                    None
                },
            },
        ),
{
    lemma_connect_head(flags, info);
    lemma_connect_fields(flags, info);
    let b = connect_body_bytes(flags, info);
    assert(b.len() >= 12);
    assert(be16(b[10], b[11]) == encode_utf8(info.id@).len());
    assert(12 + be16(b[10], b[11]) as int == offset_after_id(info));
}

/// The payload of a SUBSCRIBE: each topic length-prefixed and followed by
/// the requested QoS.
pub open spec fn subscribe_payload_bytes(topics: Seq<Seq<char>>, qos: bool) -> Seq<u8>
    decreases topics.len(),
{
    if topics.len() == 0 {
        seq![]
    } else {
        lp_field_bytes(topics[0]) + seq![
            if qos {
                1u8
            } else {
                0u8
            },
        ] + subscribe_payload_bytes(topics.skip(1), qos)
    }
}

/// Build a SUBSCRIBE packet: the packet id, then each topic with its
/// requested QoS.
pub fn build_subscribe_packet(topics: &Vec<String>, qos: bool, packet_id: u16) -> (packet: Vec<
    u8,
>)
    requires
        forall|i: int|
            0 <= i < topics@.len() ==> encode_utf8(#[trigger] topics@[i]@).len() <= 65535,
    ensures
        packet@ == seq![0x82u8] + remaining_length_bytes(
            (2 + subscribe_payload_bytes(topics@.map_values(|t: String| t@), qos).len()) as nat,
        ) + seq![(packet_id / 256) as u8, (packet_id % 256) as u8]
            + subscribe_payload_bytes(topics@.map_values(|t: String| t@), qos),
{
    let ghost tv = topics@.map_values(|t: String| t@);
    let mut buffer = Vec::<u8>::new();
    buffer.push((packet_id / 256) as u8);
    buffer.push((packet_id % 256) as u8);
    let mut i: usize = 0;

    proof {
        assert(tv.take(0) =~= Seq::<Seq<char>>::empty());
        assert(buffer@ =~= seq![(packet_id / 256) as u8, (packet_id % 256) as u8]
            + subscribe_payload_bytes(tv.take(0), qos));
    }
    #[verifier::loop_isolation(false)]
    while i < topics.len()
        invariant
            i <= topics@.len(),
            buffer@ == seq![(packet_id / 256) as u8, (packet_id % 256) as u8]
                + subscribe_payload_bytes(tv.take(i as int), qos),
        decreases topics@.len() - i,
    {
        let topic_bytes = topics[i].as_str().as_bytes();
        let topic_len = topic_bytes.len();
        buffer.push((topic_len / 256) as u8);
        buffer.push((topic_len % 256) as u8);
        push_bytes(&mut buffer, topic_bytes);
        if qos {
            buffer.push(1);
        } else {
            buffer.push(0);
        }
        i = i + 1;
        proof {
            lemma_subscribe_payload_snoc(tv, i as int - 1, qos);
            assert(buffer@ =~= seq![(packet_id / 256) as u8, (packet_id % 256) as u8]
                + subscribe_payload_bytes(tv.take(i as int), qos));
        }
    }
    proof {
        assert(tv.take(topics@.len() as int) =~= tv);
    }
    let mut final_buffer = crate::server::utils::remaining_length_encode(buffer.len());
    final_buffer.insert(0, 0x82);
    let mut body = buffer;
    final_buffer.append(&mut body);
    proof {
        assert(final_buffer@ =~= seq![0x82u8] + remaining_length_bytes(
            (2 + subscribe_payload_bytes(tv, qos).len()) as nat,
        ) + seq![(packet_id / 256) as u8, (packet_id % 256) as u8] + subscribe_payload_bytes(
            tv,
            qos,
        ));
    }
    final_buffer
}

/// Adding one topic extends the payload by that topic's field.
proof fn lemma_subscribe_payload_snoc(topics: Seq<Seq<char>>, i: int, qos: bool)
    requires
        0 <= i < topics.len(),
    ensures
        subscribe_payload_bytes(topics.take(i + 1), qos) == subscribe_payload_bytes(
            topics.take(i),
            qos,
        ) + lp_field_bytes(topics[i]) + seq![
            if qos {
                1u8
            } else {
                0u8
            },
        ],
    decreases i,
{
    if i == 0 {
        assert(topics.take(1)[0] == topics[0]);
        assert(topics.take(1).skip(1) =~= Seq::<Seq<char>>::empty());
        assert(topics.take(0) =~= Seq::<Seq<char>>::empty());
        assert(subscribe_payload_bytes(topics.take(1), qos) =~= subscribe_payload_bytes(
            topics.take(0),
            qos,
        ) + lp_field_bytes(topics[0]) + seq![
            if qos {
                1u8
            } else {
                0u8
            },
        ]);
    } else {
        let t = topics.skip(1);
        lemma_subscribe_payload_snoc(t, i - 1, qos);
        assert(topics.take(i + 1)[0] == topics[0]);
        assert(topics.take(i + 1).skip(1) =~= t.take(i));
        assert(topics.take(i).skip(1) =~= t.take(i - 1));
        assert(t[i - 1] == topics[i]);
        assert(subscribe_payload_bytes(topics.take(i + 1), qos) =~= subscribe_payload_bytes(
            topics.take(i),
            qos,
        ) + lp_field_bytes(topics[i]) + seq![
            if qos {
                1u8
            } else {
                0u8
            },
        ]);
    }
}

/// The payload of an UNSUBSCRIBE: each topic length-prefixed.
pub open spec fn unsubscribe_payload_bytes(topics: Seq<Seq<char>>) -> Seq<u8>
    decreases topics.len(),
{
    if topics.len() == 0 {
        seq![]
    } else {
        lp_field_bytes(topics[0]) + unsubscribe_payload_bytes(topics.skip(1))
    }
}

/// Adding one topic extends the payload by that topic's field.
proof fn lemma_unsubscribe_payload_snoc(topics: Seq<Seq<char>>, i: int)
    requires
        0 <= i < topics.len(),
    ensures
        unsubscribe_payload_bytes(topics.take(i + 1)) == unsubscribe_payload_bytes(
            topics.take(i),
        ) + lp_field_bytes(topics[i]),
    decreases i,
{
    if i == 0 {
        assert(topics.take(1)[0] == topics[0]);
        assert(topics.take(1).skip(1) =~= Seq::<Seq<char>>::empty());
        assert(topics.take(0) =~= Seq::<Seq<char>>::empty());
        assert(unsubscribe_payload_bytes(topics.take(1)) =~= unsubscribe_payload_bytes(
            topics.take(0),
        ) + lp_field_bytes(topics[0]));
    } else {
        let t = topics.skip(1);
        lemma_unsubscribe_payload_snoc(t, i - 1);
        assert(topics.take(i + 1)[0] == topics[0]);
        assert(topics.take(i + 1).skip(1) =~= t.take(i));
        assert(topics.take(i).skip(1) =~= t.take(i - 1));
        assert(t[i - 1] == topics[i]);
        assert(unsubscribe_payload_bytes(topics.take(i + 1)) =~= unsubscribe_payload_bytes(
            topics.take(i),
        ) + lp_field_bytes(topics[i]));
    }
}

/// Build an UNSUBSCRIBE packet: the packet id, then each topic.
pub fn build_unsubscribe_packet(topics: &Vec<String>, packet_id: u16) -> (packet: Vec<u8>)
    requires
        forall|i: int|
            0 <= i < topics@.len() ==> encode_utf8(#[trigger] topics@[i]@).len() <= 65535,
    ensures
        packet@ == seq![0xA2u8] + remaining_length_bytes(
            (2 + unsubscribe_payload_bytes(topics@.map_values(|t: String| t@)).len()) as nat,
        ) + seq![(packet_id / 256) as u8, (packet_id % 256) as u8] + unsubscribe_payload_bytes(
            topics@.map_values(|t: String| t@),
        ),
{
    let ghost tv = topics@.map_values(|t: String| t@);
    let mut buffer = Vec::<u8>::new();
    buffer.push((packet_id / 256) as u8);
    buffer.push((packet_id % 256) as u8);
    let mut i: usize = 0;

    proof {
        assert(tv.take(0) =~= Seq::<Seq<char>>::empty());
        assert(buffer@ =~= seq![(packet_id / 256) as u8, (packet_id % 256) as u8]
            + unsubscribe_payload_bytes(tv.take(0)));
    }
    #[verifier::loop_isolation(false)]
    while i < topics.len()
        invariant
            i <= topics@.len(),
            buffer@ == seq![(packet_id / 256) as u8, (packet_id % 256) as u8]
                + unsubscribe_payload_bytes(tv.take(i as int)),
        decreases topics@.len() - i,
    {
        let topic_bytes = topics[i].as_str().as_bytes();
        let topic_len = topic_bytes.len();
        buffer.push((topic_len / 256) as u8);
        buffer.push((topic_len % 256) as u8);
        push_bytes(&mut buffer, topic_bytes);
        i = i + 1;
        proof {
            lemma_unsubscribe_payload_snoc(tv, i as int - 1);
            assert(buffer@ =~= seq![(packet_id / 256) as u8, (packet_id % 256) as u8]
                + unsubscribe_payload_bytes(tv.take(i as int)));
        }
    }
    proof {
        assert(tv.take(topics@.len() as int) =~= tv);
    }
    let mut final_buffer = crate::server::utils::remaining_length_encode(buffer.len());
    final_buffer.insert(0, 0xA2);
    let mut body = buffer;
    final_buffer.append(&mut body);
    proof {
        assert(final_buffer@ =~= seq![0xA2u8] + remaining_length_bytes(
            (2 + unsubscribe_payload_bytes(tv).len()) as nat,
        ) + seq![(packet_id / 256) as u8, (packet_id % 256) as u8] + unsubscribe_payload_bytes(
            tv,
        ));
    }
    final_buffer
}

/// The fixed-header byte of a PUBLISH with these flags.
pub open spec fn publish_byte_0(dup: bool, qos: bool, retain: bool) -> u8 {
    ((0x30u8 | (if dup {
        0x04u8
    } else {
        0x00u8
    })) | (if retain {
        0x01u8
    } else {
        0x00u8
    })) | (if qos {
        0x02u8
    } else {
        0x00u8
    })
}

/// The body of a PUBLISH: the length-prefixed topic, a packet id when QoS
/// 1, and the payload.
pub open spec fn publish_body_bytes(
    topic: Seq<char>,
    message: Seq<char>,
    qos: bool,
    packet_id: u16,
) -> Seq<u8> {
    lp_field_bytes(topic) + (if qos {
        seq![(packet_id / 256) as u8, (packet_id % 256) as u8]
    } else {
        Seq::<u8>::empty()
    }) + encode_utf8(message)
}

/// Build a PUBLISH packet, and give back exactly what a decoder will read
/// out of it: the topic, the packet id when QoS 1, and the payload.
/// Encoding and then decoding a publication is the identity.
pub fn build_publish_packet(
    topic: &String,
    message: &String,
    dup: bool,
    qos: bool,
    retain: bool,
    packet_id: u16,
) -> (packet: Vec<u8>)
    requires
        encode_utf8(topic@).len() <= 65535,
    ensures
        ({
            let body = publish_body_bytes(topic@, message@, qos, packet_id);
            let byte_0 = publish_byte_0(dup, qos, retain);
            &&& packet@ == seq![byte_0] + remaining_length_bytes(body.len()) + body
            &&& publish_cmd_wf(seq![byte_0] + body)
            &&& publish_cmd_topic(seq![byte_0] + body) == topic@
            &&& qos ==> publish_cmd_pid(seq![byte_0] + body) == packet_id as nat
            &&& publish_cmd_payload(seq![byte_0] + body) == encode_utf8(message@)
        }),
{
    broadcast use vstd::utf8::encode_utf8_valid_utf8, vstd::utf8::encode_utf8_decode_utf8;

    let topic_bytes = topic.as_str().as_bytes();
    let topic_len = topic_bytes.len();
    let mut buffer = Vec::<u8>::new();
    buffer.push((topic_len / 256) as u8);
    buffer.push((topic_len % 256) as u8);
    push_bytes(&mut buffer, topic_bytes);
    if qos {
        buffer.push((packet_id / 256) as u8);
        buffer.push((packet_id % 256) as u8);
    }
    push_bytes(&mut buffer, message.as_str().as_bytes());
    let ghost body = publish_body_bytes(topic@, message@, qos, packet_id);
    proof {
        assert(buffer@ =~= body);
    }
    let dup_bit: u8 = if dup {
        0x04
    } else {
        0x00
    };
    let retain_bit: u8 = if retain {
        0x01
    } else {
        0x00
    };
    let qos_bit: u8 = if qos {
        0x02
    } else {
        0x00
    };
    let first_byte: u8 = ((0x30 | dup_bit) | retain_bit) | qos_bit;
    let mut final_buffer = crate::server::utils::remaining_length_encode(buffer.len());
    final_buffer.insert(0, first_byte);
    let mut body_vec = buffer;
    final_buffer.append(&mut body_vec);
    proof {
        let byte_0 = publish_byte_0(dup, qos, retain);
        let cmd = seq![byte_0] + body;
        assert(final_buffer@ =~= seq![byte_0] + remaining_length_bytes(body.len()) + body);
        let d = dup_bit;
        let r = retain_bit;
        let q = qos_bit;
        assert((((0x30u8 | d) | r) | q) & 0x02 == q && (((0x30u8 | d) | r) | q) & 0x01 == r)
            by (bit_vector)
            requires
                d == 0x04 || d == 0x00,
                r == 0x01 || r == 0x00,
                q == 0x02 || q == 0x00,
        ;
        assert(cmd[1] == (topic_len / 256) as u8 && cmd[2] == (topic_len % 256) as u8);
        assert(be16(cmd[1], cmd[2]) == topic_len) by {
            assert(topic_len as nat / 256 <= 255);
            assert((topic_len / 256) as u8 as nat * 256 + (topic_len % 256) as u8 as nat
                == topic_len);
        }
        assert(publish_cmd_wf(cmd));
        assert(crate::server::packet::publish_cmd_topic_bytes(cmd) =~= encode_utf8(topic@));
        assert(publish_cmd_topic(cmd) == topic@);
        assert(publish_cmd_payload(cmd) =~= encode_utf8(message@));
        if qos {
            assert(cmd[3 + topic_len as int] == (packet_id / 256) as u8);
            assert(cmd[4 + topic_len as int] == (packet_id % 256) as u8);
        }
    }
    final_buffer
}

/// The PINGREQ frame.
pub fn build_pingreq_packet() -> (packet: Vec<u8>)
    ensures
        packet@ == seq![0xC0u8, 0x00u8],
{
    let packet = vec![0xC0u8, 0x00u8];
    proof {
        assert(packet@ =~= seq![0xC0u8, 0x00u8]);
    }
    packet
}

/// The PUBACK frame for a packet id.
pub fn build_puback_packet(packet_identifier: u16) -> (packet: Vec<u8>)
    ensures
        packet@ == seq![
            0x40u8,
            0x02u8,
            (packet_identifier / 256) as u8,
            (packet_identifier % 256) as u8,
        ],
{
    let packet = vec![
        0x40u8,
        0x02u8,
        (packet_identifier / 256) as u8,
        (packet_identifier % 256) as u8,
    ];
    proof {
        assert(packet@ =~= seq![
            0x40u8,
            0x02u8,
            (packet_identifier / 256) as u8,
            (packet_identifier % 256) as u8,
        ]);
    }
    packet
}

/// The DISCONNECT frame.
pub fn build_disconnect_packet() -> (packet: Vec<u8>)
    ensures
        packet@ == seq![0xE0u8, 0x00u8],
{
    let packet = vec![0xE0u8, 0x00u8];
    proof {
        assert(packet@ =~= seq![0xE0u8, 0x00u8]);
    }
    packet
}

} // verus!
