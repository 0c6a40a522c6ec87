//! Control-packet types and the CONNECT processing of the broker: packet
//! type codes, protocol-name and protocol-level checks, and the parsing and
//! auth decision taken on a CONNECT body.

use vstd::prelude::*;
use vstd::utf8::{decode_utf8, valid_utf8};
use crate::text::{chars_of, char_vecs_equal, first_index_of, index_of_char, split_lines, split_lines_exec, sub_vec, utf8_to_string, views_of};
use crate::server::utils::{remaining_length_bytes, first_terminator, lemma_first_terminator_is, lemma_first_terminator_props, lemma_remaining_length_bytes_shape, lemma_remaining_length_bytes_terminator};

verus! {

pub const MQTT_VERSION: u8 = 4;
pub const SUCCESSFUL_CONNECTION: u8 = 0;
pub const CONNECTION_PROTOCOL_REJECTED: u8 = 1;
pub const CONNECTION_IDENTIFIER_REFUSED: u8 = 2;
pub const CONNECTION_USER_OR_PASS_REFUSED: u8 = 4;

/// Type of recognized packets.  `Disgrace` is not a wire packet: it is the
/// internal sentinel for a connection whose stream broke.
pub enum Packet {
    Connect,
    ConnAck,
    Publish,
    PubAck,
    PubRel,
    PubComp,
    Subscribe,
    SubAck,
    Unsubscribe,
    UnsubAck,
    PingReq,
    PingResp,
    Disconnect,
    Disgrace,
}

/// The packet type named by the high nibble of a fixed-header byte.
pub open spec fn packet_of_byte(code: u8) -> Packet {
    let high = code & 0xF0;
    if high == 0x10 {
        Packet::Connect
    } else if high == 0x20 {
        Packet::ConnAck
    } else if high == 0x30 {
        Packet::Publish
    } else if high == 0x40 {
        Packet::PubAck
    } else if high == 0x60 {
        Packet::PubRel
    } else if high == 0x70 {
        Packet::PubComp
    } else if high == 0x80 {
        Packet::Subscribe
    } else if high == 0x90 {
        Packet::SubAck
    } else if high == 0xA0 {
        Packet::Unsubscribe
    } else if high == 0xB0 {
        Packet::UnsubAck
    } else if high == 0xC0 {
        Packet::PingReq
    } else if high == 0xD0 {
        Packet::PingResp
    } else if high == 0xE0 {
        Packet::Disconnect
    } else {
        Packet::Disgrace
    }
}

/// The fixed-header byte a packet type is sent with; SUBSCRIBE, UNSUBSCRIBE
/// and PUBREL carry their reserved flag bits.
pub open spec fn byte_of_packet(code: Packet) -> u8 {
    match code {
        Packet::Connect => 0x10,
        Packet::ConnAck => 0x20,
        Packet::Publish => 0x30,
        Packet::PubAck => 0x40,
        Packet::PubRel => 0x62,
        Packet::PubComp => 0x70,
        Packet::Subscribe => 0x82,
        Packet::SubAck => 0x90,
        Packet::Unsubscribe => 0xA2,
        Packet::UnsubAck => 0xB0,
        Packet::PingReq => 0xC0,
        Packet::PingResp => 0xD0,
        Packet::Disconnect => 0xE0,
        Packet::Disgrace => 0x00,
    }
}

impl core::convert::From<u8> for Packet {
    fn from(code: u8) -> (packet: Packet) {
        match code & 0xF0 {
            0x10 => Packet::Connect,
            0x20 => Packet::ConnAck,
            0x30 => Packet::Publish,
            0x40 => Packet::PubAck,
            0x60 => Packet::PubRel,
            0x70 => Packet::PubComp,
            0x80 => Packet::Subscribe,
            0x90 => Packet::SubAck,
            0xA0 => Packet::Unsubscribe,
            0xB0 => Packet::UnsubAck,
            0xC0 => Packet::PingReq,
            0xD0 => Packet::PingResp,
            0xE0 => Packet::Disconnect,
            _ => Packet::Disgrace,
        }
    }
}

impl vstd::std_specs::convert::FromSpecImpl<u8> for Packet {
    open spec fn obeys_from_spec() -> bool {
        true
    }

    open spec fn from_spec(code: u8) -> Packet {
        packet_of_byte(code)
    }
}

impl core::convert::From<Packet> for u8 {
    fn from(code: Packet) -> (byte: u8) {
        match code {
            Packet::Connect => 0x10,
            Packet::ConnAck => 0x20,
            Packet::Publish => 0x30,
            Packet::PubAck => 0x40,
            Packet::PubRel => 0x62,
            Packet::PubComp => 0x70,
            Packet::Subscribe => 0x82,
            Packet::SubAck => 0x90,
            Packet::Unsubscribe => 0xA2,
            Packet::UnsubAck => 0xB0,
            Packet::PingReq => 0xC0,
            Packet::PingResp => 0xD0,
            Packet::Disconnect => 0xE0,
            Packet::Disgrace => 0x00,
        }
    }
}

impl vstd::std_specs::convert::FromSpecImpl<Packet> for u8 {
    open spec fn obeys_from_spec() -> bool {
        true
    }

    open spec fn from_spec(code: Packet) -> u8 {
        byte_of_packet(code)
    }
}

/// A command envelope handed to the coordinator: which connection it came
/// from, the packet type, and the packet body.
pub struct PacketThings {
    pub thread_id: usize,
    pub packet_type: Packet,
    pub bytes: Vec<u8>,
}

/// The six bytes every CONNECT opens with: a two-byte length and `MQTT`.
pub open spec fn is_mqtt_protocol_name(s: Seq<u8>) -> bool {
    s.len() >= 6 && s[0] == 0x00 && s[1] == 0x04 && s[2] == 0x4D && s[3] == 0x51 && s[4] == 0x54
        && s[5] == 0x54
}

/// Check that a CONNECT opens with the MQTT protocol name.
pub fn verify_protocol_name(buffer: &[u8]) -> (result: Result<(), u8>)
    requires
        buffer@.len() >= 6,
    ensures
        result == if is_mqtt_protocol_name(buffer@) {
            Ok::<(), u8>(())
        } else {
            Err::<(), u8>(CONNECTION_PROTOCOL_REJECTED)
        },
{
    if buffer[0] == 0x00 && buffer[1] == 0x04 && buffer[2] == 0x4D && buffer[3] == 0x51
        && buffer[4] == 0x54 && buffer[5] == 0x54 {
        Ok(())
    } else {
        Err(CONNECTION_PROTOCOL_REJECTED)
    }
}

/// Check that a CONNECT names protocol level 4.
pub fn verify_version_protocol(level: &u8) -> (result: Result<(), u8>)
    ensures
        result == if *level == MQTT_VERSION {
            Ok::<(), u8>(())
        } else {
            Err::<(), u8>(CONNECTION_PROTOCOL_REJECTED)
        },
{
    if *level == MQTT_VERSION {
        return Ok(());
    }
    Err(CONNECTION_PROTOCOL_REJECTED)
}

/// Convert bytes to a UTF-8 string; invalid input gives the empty string.
pub fn bytes2string(bytes: &[u8]) -> (s: String)
    ensures
        valid_utf8(bytes@) ==> s@ == decode_utf8(bytes@),
        !valid_utf8(bytes@) ==> s@ == Seq::<char>::empty(),
{
    match utf8_to_string(bytes) {
        Some(s) => s,
        None => String::new(),
    }
}

/// A two-byte big-endian integer.
pub open spec fn be16(hi: u8, lo: u8) -> nat {
    hi as nat * 256 + lo as nat
}

/// Whether the QoS-1 bit of a PUBLISH fixed-header byte is set.
pub open spec fn qos_bit_set(byte_0: u8) -> bool {
    byte_0 & 0x02 == 2
}

/// Whether the RETAIN bit of a PUBLISH fixed-header byte is set.
pub open spec fn retain_bit_set(byte_0: u8) -> bool {
    byte_0 & 0x01 == 1
}

/// A frame with the DUP bit forced on.
pub open spec fn with_dup(frame: Seq<u8>) -> Seq<u8> {
    frame.update(0, frame[0] | 0x08)
}

/// A PUBLISH command as the coordinator receives it: the fixed-header byte,
/// then topic length, topic, a packet id when QoS 1, and the payload.  Well
/// formed when every field it names lies within the buffer.
pub open spec fn publish_cmd_wf(bytes: Seq<u8>) -> bool {
    &&& bytes.len() >= 3
    &&& bytes.len() >= 3 + be16(bytes[1], bytes[2]) + if qos_bit_set(bytes[0]) {
        2int
    } else {
        0int
    }
}

/// The topic bytes of a PUBLISH command.
pub open spec fn publish_cmd_topic_bytes(bytes: Seq<u8>) -> Seq<u8> {
    bytes.subrange(3, 3 + be16(bytes[1], bytes[2]) as int)
}

/// The topic of a PUBLISH command as the broker reads it: empty when the
/// command is malformed or the topic is not UTF-8, in which case the
/// coordinator drops the publication.
pub open spec fn publish_cmd_topic(bytes: Seq<u8>) -> Seq<char> {
    if publish_cmd_wf(bytes) && valid_utf8(publish_cmd_topic_bytes(bytes)) {
        decode_utf8(publish_cmd_topic_bytes(bytes))
    } else {
        Seq::<char>::empty()
    }
}

/// The payload of a PUBLISH command: what follows the topic and, for QoS
/// 1, the packet id.
pub open spec fn publish_cmd_payload(bytes: Seq<u8>) -> Seq<u8> {
    bytes.skip(3 + be16(bytes[1], bytes[2]) as int + if qos_bit_set(bytes[0]) {
        2int
    } else {
        0int
    })
}

/// The packet id of a QoS-1 PUBLISH command.
pub open spec fn publish_cmd_pid(bytes: Seq<u8>) -> nat {
    let tl = be16(bytes[1], bytes[2]) as int;
    be16(bytes[3 + tl], bytes[4 + tl])
}

/// The frame fanned out to subscribers for a PUBLISH command: the PUBLISH
/// type code keeps only the QoS bit, and the body is re-framed behind a
/// fresh remaining-length field.
pub open spec fn publish_frame_of_cmd(bytes: Seq<u8>) -> Seq<u8> {
    let body = bytes.skip(1);
    seq![0x30 | (bytes[0] & 0x02)] + crate::server::utils::remaining_length_bytes(body.len())
        + body
}

/// A frame held for redelivery: a PUBLISH with both the QoS-1 and DUP bits
/// set, the RETAIN bit clear, a terminated remaining-length field, and a
/// body long enough to carry its topic and packet id.
pub open spec fn queued_publish_wf(frame: Seq<u8>) -> bool {
    &&& frame.len() >= 2
    &&& frame[0] == 0x3A
    &&& first_terminator(frame.skip(1)) < frame.len() - 1
    &&& {
        let body = queued_publish_body(frame);
        body.len() >= 4 + be16(body[0], body[1])
    }
}

/// The body of a redelivery frame: what follows the remaining-length field.
pub open spec fn queued_publish_body(frame: Seq<u8>) -> Seq<u8> {
    frame.skip(2 + first_terminator(frame.skip(1)) as int)
}

/// The packet id embedded in a redelivery frame.
pub open spec fn queued_publish_pid(frame: Seq<u8>) -> nat {
    let body = queued_publish_body(frame);
    let tl = be16(body[0], body[1]) as int;
    be16(body[2 + tl], body[3 + tl])
}

/// The packet id embedded in a frame held for redelivery.
pub fn read_queued_pid(frame: &Vec<u8>) -> (pid: u16)
    requires
        queued_publish_wf(frame@),
    ensures
        pid as nat == queued_publish_pid(frame@),
{
    let ghost ft = first_terminator(frame@.skip(1)) as int;
    proof {
        lemma_first_terminator_props(frame@.skip(1));
    }
    let frame_len = frame.len();
    proof {
        assert(ft < frame_len - 1);
    }
    let mut k: usize = 1;

    #[verifier::loop_isolation(false)]
    while frame[k] & 0x80 != 0
        invariant
            1 <= k <= ft + 1,
            ft < frame@.len() - 1,
            forall|j: int| 0 <= j < k - 1 ==> frame@.skip(1)[j] & 0x80 != 0,
        decreases ft + 1 - k,
    {
        proof {
            assert(frame@.skip(1)[k - 1] == frame@[k as int]);
            assert(k - 1 < ft) by {
                if k - 1 == ft {
                    assert(frame@.skip(1)[ft] & 0x80 == 0);
                }
            }
            assert(k as int + 1 <= ft + 1);
            assert(ft + 1 < frame@.len());
        }
        k = k + 1;
    }
    proof {
        assert(frame@.skip(1)[k - 1] == frame@[k as int]);
        crate::server::utils::lemma_first_terminator_is(frame@.skip(1), k as int - 1);
        assert(ft == k - 1);
        let body = queued_publish_body(frame@);
        assert(body =~= frame@.skip(k as int + 1));
        assert(body[0] == frame@[k as int + 1] && body[1] == frame@[k as int + 2]);
    }
    let tl: usize = (frame[k + 1] as usize) * 256 + frame[k + 2] as usize;
    proof {
        let body = queued_publish_body(frame@);
        assert(body[2 + tl] == frame@[k as int + 3 + tl] && body[3 + tl] == frame@[k as int + 4
            + tl]);
    }
    let pid_hi = frame[k + 3 + tl];
    let pid_lo = frame[k + 4 + tl];
    (pid_hi as u16) * 256 + pid_lo as u16
}

/// Whether a PUBLISH command asks to be retained.
pub fn is_to_retained(packet: &PacketThings) -> (retained: bool)
    requires
        packet.bytes@.len() >= 1,
    ensures
        retained == retain_bit_set(packet.bytes@[0]),
{
    (packet.bytes[0] & 0x01) == 1
}

/// The frame a QoS-1 PUBLISH command leaves in the redelivery queue is well
/// formed and keeps the packet id of the command.
pub proof fn lemma_queued_publish_frame(bytes: Seq<u8>)
    requires
        publish_cmd_wf(bytes),
        qos_bit_set(bytes[0]),
    ensures
        queued_publish_wf(with_dup(publish_frame_of_cmd(bytes))),
        queued_publish_pid(with_dup(publish_frame_of_cmd(bytes))) == publish_cmd_pid(bytes),
        with_dup(publish_frame_of_cmd(bytes)).len() >= 1,
        with_dup(publish_frame_of_cmd(bytes))[0] == 0x3A,
{
    let body = bytes.skip(1);
    let rl = remaining_length_bytes(body.len());
    let frame = publish_frame_of_cmd(bytes);
    let queued = with_dup(frame);
    let b0 = bytes[0];
    assert(b0 & 0x02 == 2 ==> ((0x30u8 | (b0 & 0x02)) | 0x08) == 0x3A) by (bit_vector);
    assert(frame[0] == 0x30u8 | (b0 & 0x02));
    assert(queued[0] == frame[0] | 0x08);
    lemma_remaining_length_bytes_shape(body.len());
    lemma_remaining_length_bytes_terminator(body.len());
    assert(queued.skip(1) =~= rl + body);
    assert forall|j: int| 0 <= j < rl.len() - 1 implies (rl + body)[j] & 0x80 != 0 by {
        assert((rl + body)[j] == rl[j]);
    }
    assert((rl + body)[rl.len() - 1] == rl.last());
    lemma_first_terminator_is(rl + body, rl.len() - 1);
    assert(queued_publish_body(queued) =~= body);
    assert(body[0] == bytes[1] && body[1] == bytes[2]);
    let tl = be16(bytes[1], bytes[2]) as int;
    assert(body[2 + tl] == bytes[3 + tl] && body[3 + tl] == bytes[4 + tl]);
}

/// Extract the packet id of a QoS-1 PUBLISH body and wrap the body, with
/// its fixed-header byte back in front, as a command for the coordinator.
/// A body too short for the fields its header byte names is refused.
pub fn make_publication(
    thread_id: usize,
    buffer_packet: Vec<u8>,
    byte_0: u8,
) -> (result: Option<(PacketThings, u16)>)
    ensures
        match result {
            Some(output) => {
                &&& publish_cmd_wf(seq![byte_0] + buffer_packet@)
                &&& output.0.thread_id == thread_id
                &&& output.0.packet_type is Publish
                &&& output.0.bytes@ == seq![byte_0] + buffer_packet@
                &&& output.1 as nat == if qos_bit_set(byte_0) {
                    publish_cmd_pid(seq![byte_0] + buffer_packet@)
                } else {
                    0
                }
            },
            None => !publish_cmd_wf(seq![byte_0] + buffer_packet@),
        },
{
    let ghost cmd_bytes = seq![byte_0] + buffer_packet@;
    if buffer_packet.len() < 2 {
        return None;
    }
    let topic_size: usize = (buffer_packet[0] as usize) * 256 + buffer_packet[1] as usize;
    proof {
        assert(cmd_bytes[1] == buffer_packet@[0] && cmd_bytes[2] == buffer_packet@[1]);
        assert(cmd_bytes.len() == buffer_packet@.len() + 1);
    }
    let mut packet_identifier: u16 = 0;
    if byte_0 & 0x02 == 2 {
        if buffer_packet.len() < topic_size + 4 {
            return None;
        }
        let pid_hi = buffer_packet[topic_size + 2];
        let pid_lo = buffer_packet[topic_size + 3];
        packet_identifier = (pid_hi as u16) * 256 + pid_lo as u16;
        proof {
            assert(cmd_bytes[3 + topic_size] == buffer_packet@[topic_size + 2]);
            assert(cmd_bytes[4 + topic_size] == buffer_packet@[topic_size + 3]);
        }
    } else {
        if buffer_packet.len() < topic_size + 2 {
            return None;
        }
    }
    let mut bytes = buffer_packet;
    bytes.insert(0, byte_0);
    proof {
        assert(bytes@ =~= cmd_bytes);
    }
    let packet_to_server = PacketThings { thread_id, packet_type: Packet::Publish, bytes };
    Some((packet_to_server, packet_identifier))
}

/// Read the topic a PUBLISH command names; empty when the command is
/// malformed or its topic is not UTF-8, which makes the coordinator drop it.
pub fn process_publish(packet: &PacketThings) -> (topic_name: String)
    ensures
        topic_name@ == publish_cmd_topic(packet.bytes@),
{
    if packet.bytes.len() < 3 {
        return String::new();
    }
    let topic_size: usize = (packet.bytes[1] as usize) * 256 + packet.bytes[2] as usize;
    let need: usize = if packet.bytes[0] & 0x02 == 2 {
        topic_size + 5
    } else {
        topic_size + 3
    };
    if packet.bytes.len() < need {
        return String::new();
    }
    let topic_bytes = crate::text::sub_vec(&packet.bytes, 3, 3 + topic_size);
    proof {
        assert(topic_bytes@ =~= publish_cmd_topic_bytes(packet.bytes@));
    }
    match utf8_to_string(topic_bytes.as_slice()) {
        Some(s) => s,
        None => String::new(),
    }
}

/// Whether `user` with `pass` is accepted by the credential lines: the
/// first line of the form `user=pass` whose user part matches decides, and
/// a line without `=` decides nothing.
pub open spec fn credentials_ok(user: Seq<char>, pass: Seq<char>, lines: Seq<Seq<char>>) -> bool
    decreases lines.len(),
{
    if lines.len() == 0 {
        false
    } else {
        let line = lines[0];
        let eq = first_index_of(line, '=') as int;
        if eq < line.len() && line.take(eq) == user {
            line.skip(eq + 1) == pass
        } else {
            credentials_ok(user, pass, lines.skip(1))
        }
    }
}

/// Whether username and password are accepted by the credentials text.
pub fn user_and_password_correct(user: &str, password: &str, credentials: &str) -> (accepted:
    bool)
    ensures
        accepted == credentials_ok(user@, password@, split_lines(credentials@)),
{
    let user_chars = chars_of(user);
    let pass_chars = chars_of(password);
    let cred_chars = chars_of(credentials);
    let lines = split_lines_exec(&cred_chars);
    let ghost all_lines = views_of(lines@);
    let mut i: usize = 0;

    proof {
        assert(all_lines.skip(0) =~= all_lines);
    }
    #[verifier::loop_isolation(false)]
    while i < lines.len()
        invariant
            i <= lines@.len(),
            credentials_ok(user@, password@, all_lines) == credentials_ok(
                user@,
                password@,
                all_lines.skip(i as int),
            ),
        decreases lines@.len() - i,
    {
        proof {
            assert(all_lines.skip(i as int)[0] == lines@[i as int]@);
            assert(all_lines.skip(i as int).skip(1) =~= all_lines.skip(i as int + 1));
        }
        let line = &lines[i];
        let eq = index_of_char(line, '=');
        if eq < line.len() {
            let name = sub_vec(line, 0, eq);
            proof {
                assert(name@ =~= line@.take(eq as int));
            }
            if char_vecs_equal(&name, &user_chars) {
                let pw = sub_vec(line, eq + 1, line.len());
                proof {
                    assert(pw@ =~= line@.skip(eq as int + 1));
                }
                return char_vecs_equal(&pw, &pass_chars);
            }
        }
        i = i + 1;
    }
    proof {
        assert(all_lines.skip(lines@.len() as int) =~= Seq::<Seq<char>>::empty());
    }
    false
}

/// Why a CONNECT was refused.
#[derive(Clone, Copy, Debug, PartialEq, Eq, Structural)]
pub enum ConnectError {
    /// A named field runs past the buffer, or a text field is not UTF-8:
    /// the connection is closed without a CONNACK.
    Malformed,
    /// Wrong protocol name or level: CONNACK return code 1.
    ProtocolViolation,
    /// Empty client id, or credentials missing though required: return
    /// code 2.  An empty id is refused whether or not the session is
    /// clean: the broker keys every session by its client id, so it
    /// assigns none of its own.
    IdentifierRejected,
    /// Username and password given but not accepted: return code 4.
    AuthFailure,
}

impl ConnectError {
    /// The CONNACK return code for the refusal; none for a malformed
    /// packet, which is answered by closing the connection.
    pub fn return_code(&self) -> (code: Option<u8>)
        ensures
            code == match *self {
                ConnectError::Malformed => None::<u8>,
                ConnectError::ProtocolViolation => Some(CONNECTION_PROTOCOL_REJECTED),
                ConnectError::IdentifierRejected => Some(CONNECTION_IDENTIFIER_REFUSED),
                ConnectError::AuthFailure => Some(CONNECTION_USER_OR_PASS_REFUSED),
            },
    {
        match self {
            ConnectError::Malformed => None,
            ConnectError::ProtocolViolation => Some(CONNECTION_PROTOCOL_REJECTED),
            ConnectError::IdentifierRejected => Some(CONNECTION_IDENTIFIER_REFUSED),
            ConnectError::AuthFailure => Some(CONNECTION_USER_OR_PASS_REFUSED),
        }
    }
}

/// The fields of an accepted CONNECT.
#[derive(Debug)]
pub struct ConnectInfo {
    pub client_id: String,
    pub clean_session: u8,
    pub keep_alive: u16,
    pub will_topic: Option<String>,
    pub will_message: Option<String>,
    pub will_qos: u8,
    pub will_retain: bool,
    pub username: Option<String>,
    pub password: Option<String>,
}

/// The mathematical value of an accepted CONNECT.
#[verifier::ext_equal]
pub struct ConnectInfoV {
    pub client_id: Seq<char>,
    pub clean_session: u8,
    pub keep_alive: u16,
    pub will_topic: Option<Seq<char>>,
    pub will_message: Option<Seq<char>>,
    pub will_qos: u8,
    pub will_retain: bool,
    pub username: Option<Seq<char>>,
    pub password: Option<Seq<char>>,
}

impl View for ConnectInfo {
    type V = ConnectInfoV;

    open spec fn view(&self) -> ConnectInfoV {
        ConnectInfoV {
            client_id: self.client_id@,
            clean_session: self.clean_session,
            keep_alive: self.keep_alive,
            will_topic: match self.will_topic {
                Some(t) => Some(t@),
                None => None,
            },
            will_message: match self.will_message {
                Some(m) => Some(m@),
                None => None,
            },
            will_qos: self.will_qos,
            will_retain: self.will_retain,
            username: match self.username {
                Some(u) => Some(u@),
                None => None,
            },
            password: match self.password {
                Some(p) => Some(p@),
                None => None,
            },
        }
    }
}

/// The two-byte-length-prefixed field at `i`, with the index after it; none
/// when it runs past the buffer.
pub open spec fn lp_field(bytes: Seq<u8>, i: int) -> Option<(Seq<u8>, int)> {
    if i + 2 > bytes.len() {
        None
    } else {
        let l = be16(bytes[i], bytes[i + 1]) as int;
        if i + 2 + l > bytes.len() {
            None
        } else {
            Some((bytes.subrange(i + 2, i + 2 + l), i + 2 + l))
        }
    }
}

/// A length-prefixed UTF-8 string at `i` when `present`, and nothing
/// otherwise; none when the field runs past the buffer or is not UTF-8.
pub open spec fn lp_string(bytes: Seq<u8>, i: int, present: bool) -> Option<
    (Option<Seq<char>>, int),
> {
    if !present {
        Some((None, i))
    } else {
        match lp_field(bytes, i) {
            None => None,
            Some(field) => if valid_utf8(field.0) {
                Some((Some(decode_utf8(field.0)), field.1))
            } else {
                None
            },
        }
    }
}

/// The broker's whole decision on a CONNECT body: the parsed fields when it
/// is accepted, and the reason when it is refused.  The checks run in the
/// order the broker makes them: protocol name, protocol level, client id,
/// credentials present when the broker requires a password, the optional
/// will, username and password fields, and last the credentials file.  An
/// empty client id draws return code 2 regardless of the clean-session
/// flag: the broker never assigns ids, so a nameless session has nothing
/// to be resumed under.
pub open spec fn connect_decision(
    bytes: Seq<u8>,
    password_required: bool,
    credential_lines: Seq<Seq<char>>,
) -> Result<ConnectInfoV, ConnectError> {
    if bytes.len() < 12 {
        Err(ConnectError::Malformed)
    } else if !is_mqtt_protocol_name(bytes) {
        Err(ConnectError::ProtocolViolation)
    } else if bytes[6] != MQTT_VERSION {
        Err(ConnectError::ProtocolViolation)
    } else {
        let flags = bytes[7];
        let id_len = be16(bytes[10], bytes[11]) as int;
        if bytes.len() < 12 + id_len {
            Err(ConnectError::Malformed)
        } else if !valid_utf8(bytes.subrange(12, 12 + id_len)) {
            Err(ConnectError::Malformed)
        } else if id_len == 0 {
            Err(ConnectError::IdentifierRejected)
        } else if password_required && (flags & 0x80 != 0x80 || flags & 0x40 != 0x40) {
            Err(ConnectError::IdentifierRejected)
        } else {
            let will_flag = flags & 0x04 == 0x04;
            match lp_string(bytes, 12 + id_len, will_flag) {
                None => Err(ConnectError::Malformed),
                Some(wt) => match lp_string(bytes, wt.1, will_flag) {
                    None => Err(ConnectError::Malformed),
                    Some(wm) => match lp_string(bytes, wm.1, flags & 0x80 == 0x80) {
                        None => Err(ConnectError::Malformed),
                        Some(un) => match lp_string(bytes, un.1, flags & 0x40 == 0x40) {
                            None => Err(ConnectError::Malformed),
                            Some(pw) => if un.0 is Some && pw.0 is Some && !credentials_ok(
                                un.0.unwrap(),
                                pw.0.unwrap(),
                                credential_lines,
                            ) {
                                Err(ConnectError::AuthFailure)
                            } else {
                                Ok(
                                    ConnectInfoV {
                                        client_id: decode_utf8(bytes.subrange(12, 12 + id_len)),
                                        clean_session: if flags & 0x02 == 0x02 {
                                            1u8
                                        } else {
                                            0u8
                                        },
                                        keep_alive: (be16(bytes[8], bytes[9]) as u16),
                                        will_topic: wt.0,
                                        will_message: wm.0,
                                        will_qos: (flags & 0x18) >> 3,
                                        will_retain: flags & 0x20 == 0x20,
                                        username: un.0,
                                        password: pw.0,
                                    },
                                )
                            },
                        },
                    },
                },
            }
        }
    }
}

/// The field at `i` as an owned vector, with the index after it.
fn read_lp_field(bytes: &Vec<u8>, i: usize) -> (field: Option<(Vec<u8>, usize)>)
    requires
        i <= bytes@.len(),
    ensures
        match field {
            Some(f) => {
                &&& lp_field(bytes@, i as int) == Some((f.0@, f.1 as int))
                &&& f.1 <= bytes@.len()
            },
            None => lp_field(bytes@, i as int) is None,
        },
{
    if bytes.len() - i < 2 {
        return None;
    }
    let l: usize = (bytes[i] as usize) * 256 + bytes[i + 1] as usize;
    if bytes.len() - i - 2 < l {
        return None;
    }
    let field = sub_vec(bytes, i + 2, i + 2 + l);
    Some((field, i + 2 + l))
}

/// The optional string field at `i`: the string and the index after it.
fn read_lp_string(bytes: &Vec<u8>, i: usize, present: bool) -> (field: Option<
    (Option<String>, usize),
>)
    requires
        i <= bytes@.len(),
    ensures
        match field {
            Some(f) => {
                &&& lp_string(bytes@, i as int, present) matches Some(s) && s.1 == f.1 as int
                    && match f.0 {
                    Some(text) => s.0 == Some(text@),
                    None => s.0 is None,
                }
                &&& f.1 <= bytes@.len()
            },
            None => lp_string(bytes@, i as int, present) is None,
        },
{
    if !present {
        return Some((None, i));
    }
    match read_lp_field(bytes, i) {
        None => None,
        Some(f) => match utf8_to_string(f.0.as_slice()) {
            Some(text) => Some((Some(text), f.1)),
            None => None,
        },
    }
}

/// Take the broker's decision on a CONNECT body: parse it, check protocol
/// name and level, client id, and the credential rules, and hand back the
/// fields of an accepted connection or the refusal.
pub fn make_connection(
    buffer_packet: &Vec<u8>,
    password_required: bool,
    credentials: &str,
) -> (result: Result<ConnectInfo, ConnectError>)
    ensures
        match result {
            Ok(info) => connect_decision(
                buffer_packet@,
                password_required,
                split_lines(credentials@),
            ) == Ok::<ConnectInfoV, ConnectError>(info@),
            Err(e) => connect_decision(
                buffer_packet@,
                password_required,
                split_lines(credentials@),
            ) == Err::<ConnectInfoV, ConnectError>(e),
        },
{
    let ghost lines = split_lines(credentials@);
    if buffer_packet.len() < 12 {
        return Err(ConnectError::Malformed);
    }
    if verify_protocol_name(buffer_packet.as_slice()).is_err() {
        return Err(ConnectError::ProtocolViolation);
    }
    if verify_version_protocol(&buffer_packet[6]).is_err() {
        return Err(ConnectError::ProtocolViolation);
    }
    let flags = buffer_packet[7];
    let id_len: usize = (buffer_packet[10] as usize) * 256 + buffer_packet[11] as usize;
    if buffer_packet.len() - 12 < id_len {
        return Err(ConnectError::Malformed);
    }
    let id_bytes = sub_vec(buffer_packet, 12, 12 + id_len);
    let client_id = match utf8_to_string(id_bytes.as_slice()) {
        Some(s) => s,
        None => {
            return Err(ConnectError::Malformed);
        },
    };
    if id_len == 0 {
        return Err(ConnectError::IdentifierRejected);
    }
    if password_required && (flags & 0x80 != 0x80 || flags & 0x40 != 0x40) {
        return Err(ConnectError::IdentifierRejected);
    }
    let will_flag = flags & 0x04 == 0x04;
    let (will_topic, after_wt) = match read_lp_string(buffer_packet, 12 + id_len, will_flag) {
        Some(f) => f,
        None => {
            return Err(ConnectError::Malformed);
        },
    };
    let (will_message, after_wm) = match read_lp_string(buffer_packet, after_wt, will_flag) {
        Some(f) => f,
        None => {
            return Err(ConnectError::Malformed);
        },
    };
    let (username, after_un) = match read_lp_string(
        buffer_packet,
        after_wm,
        flags & 0x80 == 0x80,
    ) {
        Some(f) => f,
        None => {
            return Err(ConnectError::Malformed);
        },
    };
    let (password, _after_pw) = match read_lp_string(
        buffer_packet,
        after_un,
        flags & 0x40 == 0x40,
    ) {
        Some(f) => f,
        None => {
            return Err(ConnectError::Malformed);
        },
    };
    if let Some(user) = &username {
        if let Some(pass) = &password {
            if !user_and_password_correct(user.as_str(), pass.as_str(), credentials) {
                return Err(ConnectError::AuthFailure);
            }
        }
    }
    let keep_alive: u16 = (buffer_packet[8] as u16) * 256 + buffer_packet[9] as u16;
    let info = ConnectInfo {
        client_id,
        clean_session: if flags & 0x02 == 0x02 {
            1
        } else {
            0
        },
        keep_alive,
        will_topic,
        will_message,
        will_qos: (flags & 0x18) >> 3,
        will_retain: flags & 0x20 == 0x20,
        username,
        password,
    };
    Ok(info)
}

/// The mathematical value of a command envelope.
#[verifier::ext_equal]
pub struct PacketThingsV {
    pub thread_id: nat,
    pub packet_type: Packet,
    pub bytes: Seq<u8>,
}

impl View for PacketThings {
    type V = PacketThingsV;

    open spec fn view(&self) -> PacketThingsV {
        PacketThingsV {
            thread_id: self.thread_id as nat,
            packet_type: self.packet_type,
            bytes: self.bytes@,
        }
    }
}

/// The connection fields a CONNECT command carries to the coordinator.
#[verifier::ext_equal]
pub struct ConnectCmdV {
    pub client_id: Seq<char>,
    pub clean_session: u8,
    pub will_topic: Option<Seq<char>>,
    pub will_message: Option<Seq<char>>,
    pub will_qos: u8,
    pub will_retained: bool,
}

/// The fields encoded in a CONNECT command envelope: a one-byte-length
/// client id, the clean-session flag, and the optional will as one-byte
/// length topic and message with QoS and retain flags.  None when a field
/// runs past the buffer, a text field is not UTF-8, or the id is empty.
pub open spec fn parse_connect_cmd(bytes: Seq<u8>) -> Option<ConnectCmdV> {
    if bytes.len() < 1 {
        None
    } else {
        let n = bytes[0] as int;
        if n == 0 || bytes.len() < n + 3 || !valid_utf8(bytes.subrange(1, 1 + n)) {
            None
        } else {
            let client_id = decode_utf8(bytes.subrange(1, 1 + n));
            let clean_session = bytes[n + 1];
            if bytes[n + 2] != 1 {
                Some(
                    ConnectCmdV {
                        client_id,
                        clean_session,
                        will_topic: None,
                        will_message: None,
                        will_qos: 0,
                        will_retained: false,
                    },
                )
            } else {
                if bytes.len() < n + 4 {
                    None
                } else {
                    let tl = bytes[n + 3] as int;
                    if bytes.len() < n + 5 + tl {
                        None
                    } else {
                        let ml = bytes[n + 4 + tl] as int;
                        if bytes.len() < n + 7 + tl + ml {
                            None
                        } else {
                            let topic_bytes = bytes.subrange(n + 4, n + 4 + tl);
                            let message_bytes = bytes.subrange(n + 5 + tl, n + 5 + tl + ml);
                            if !valid_utf8(topic_bytes) || !valid_utf8(message_bytes) {
                                None
                            } else {
                                Some(
                                    ConnectCmdV {
                                        client_id,
                                        clean_session,
                                        will_topic: Some(decode_utf8(topic_bytes)),
                                        will_message: Some(decode_utf8(message_bytes)),
                                        will_qos: bytes[n + 5 + tl + ml],
                                        will_retained: bytes[n + 6 + tl + ml] == 1,
                                    },
                                )
                            }
                        }
                    }
                }
            }
        }
    }
}

/// A decoded CONNECT command never carries an empty client id.
pub proof fn lemma_connect_cmd_id_nonempty(bytes: Seq<u8>)
    requires
        parse_connect_cmd(bytes) is Some,
    ensures
        parse_connect_cmd(bytes).unwrap().client_id.len() > 0,
{
    let n = bytes[0] as int;
    let id_bytes = bytes.subrange(1, 1 + n);
    assert(id_bytes.len() >= 1);
    assert(decode_utf8(id_bytes).len() >= 1);
}

/// Append all of `src` to `dst`.
pub fn push_bytes(dst: &mut Vec<u8>, src: &[u8])
    ensures
        final(dst)@ == old(dst)@ + src@,
{
    let mut i: usize = 0;

    #[verifier::loop_isolation(false)]
    while i < src.len()
        invariant
            i <= src@.len(),
            dst@ == old(dst)@ + src@.take(i as int),
        decreases src@.len() - i,
    {
        dst.push(src[i]);
        i = i + 1;
        proof {
            assert(dst@ =~= old(dst)@ + src@.take(i as int));
        }
    }
    proof {
        assert(old(dst)@ + src@.take(src@.len() as int) =~= old(dst)@ + src@);
    }
}

/// Encode accepted connection fields as the envelope the coordinator reads.
/// The envelope holds one-byte lengths, so each text field must fit in 255
/// bytes, and a will needs both its topic and its message.
pub fn build_connect_command(info: &ConnectInfo) -> (bytes: Vec<u8>)
    requires
        1 <= vstd::utf8::encode_utf8(info.client_id@).len() <= 255,
        info.will_topic is Some <==> info.will_message is Some,
        info.will_topic matches Some(t) ==> vstd::utf8::encode_utf8(t@).len() <= 255,
        info.will_message matches Some(m) ==> vstd::utf8::encode_utf8(m@).len() <= 255,
    ensures
        parse_connect_cmd(bytes@) == Some(
            ConnectCmdV {
                client_id: info.client_id@,
                clean_session: info.clean_session,
                will_topic: match info.will_topic {
                    Some(t) => Some(t@),
                    None => None,
                },
                will_message: match info.will_message {
                    Some(m) => Some(m@),
                    None => None,
                },
                will_qos: if info.will_topic is Some {
                    info.will_qos
                } else {
                    0u8
                },
                will_retained: if info.will_topic is Some {
                    info.will_retain
                } else {
                    false
                },
            },
        ),
{
    broadcast use vstd::utf8::encode_utf8_valid_utf8, vstd::utf8::encode_utf8_decode_utf8;

    let id_bytes = info.client_id.as_str().as_bytes();
    let mut bytes = Vec::<u8>::new();
    bytes.push(id_bytes.len() as u8);
    push_bytes(&mut bytes, id_bytes);
    bytes.push(info.clean_session);
    let ghost n = id_bytes@.len() as int;
    if let Some(topic) = &info.will_topic {
        if let Some(message) = &info.will_message {
            bytes.push(1);
            let topic_bytes = topic.as_str().as_bytes();
            let message_bytes = message.as_str().as_bytes();
            bytes.push(topic_bytes.len() as u8);
            push_bytes(&mut bytes, topic_bytes);
            bytes.push(message_bytes.len() as u8);
            push_bytes(&mut bytes, message_bytes);
            bytes.push(info.will_qos);
            if info.will_retain {
                bytes.push(1);
            } else {
                bytes.push(0);
            }
            proof {
                let b = bytes@;
                let tl = topic_bytes@.len() as int;
                let ml = message_bytes@.len() as int;
                assert(b.subrange(1, 1 + n) =~= id_bytes@);
                assert(b.subrange(n + 4, n + 4 + tl) =~= topic_bytes@);
                assert(b.subrange(n + 5 + tl, n + 5 + tl + ml) =~= message_bytes@);
            }
        }
    } else {
        bytes.push(0);
        proof {
            assert(bytes@.subrange(1, 1 + n) =~= id_bytes@);
        }
    }
    bytes
}

/// The subscriptions asked for from `i` on in a SUBSCRIBE payload: topics
/// with their requested QoS capped at 1, in order.  None when a field runs
/// past the buffer or a topic is not UTF-8: such a payload is malformed
/// and closes the offending connection.
pub open spec fn subscribe_entries(bytes: Seq<u8>, i: int) -> Option<
    Seq<crate::server::client::SubscriptionV>,
>
    decreases bytes.len() - i,
{
    if i < 0 || i > bytes.len() {
        None
    } else if i == bytes.len() {
        Some(seq![])
    } else if i + 2 > bytes.len() {
        None
    } else {
        let tl = be16(bytes[i], bytes[i + 1]) as int;
        if i + 3 + tl > bytes.len() {
            None
        } else {
            let topic_bytes = bytes.subrange(i + 2, i + 2 + tl);
            if !valid_utf8(topic_bytes) {
                None
            } else {
            let topic = decode_utf8(topic_bytes);
            let qos = bytes[i + 2 + tl] & 0x01;
            match subscribe_entries(bytes, i + 3 + tl) {
                None => None,
                Some(rest) => Some(
                    seq![crate::server::client::SubscriptionV { topic, qos }] + rest,
                ),
            }
            }
        }
    }
}

/// The topics named from `i` on in an UNSUBSCRIBE payload, in order.  None
/// when a field runs past the buffer or a topic is not UTF-8.
pub open spec fn unsubscribe_entries(bytes: Seq<u8>, i: int) -> Option<Seq<Seq<char>>>
    decreases bytes.len() - i,
{
    if i < 0 || i > bytes.len() {
        None
    } else if i == bytes.len() {
        Some(seq![])
    } else if i + 2 > bytes.len() {
        None
    } else {
        let tl = be16(bytes[i], bytes[i + 1]) as int;
        if i + 2 + tl > bytes.len() {
            None
        } else {
            let topic_bytes = bytes.subrange(i + 2, i + 2 + tl);
            if !valid_utf8(topic_bytes) {
                None
            } else {
                let topic = decode_utf8(topic_bytes);
                match unsubscribe_entries(bytes, i + 2 + tl) {
                    None => None,
                    Some(rest) => Some(seq![topic] + rest),
                }
            }
        }
    }
}

/// The connection fields of a CONNECT command envelope, as owned values.
pub struct ConnectCmd {
    pub client_id: String,
    pub clean_session: u8,
    pub will_topic: Option<String>,
    pub will_message: Option<String>,
    pub will_qos: u8,
    pub will_retained: bool,
}

impl View for ConnectCmd {
    type V = ConnectCmdV;

    open spec fn view(&self) -> ConnectCmdV {
        ConnectCmdV {
            client_id: self.client_id@,
            clean_session: self.clean_session,
            will_topic: match self.will_topic {
                Some(t) => Some(t@),
                None => None,
            },
            will_message: match self.will_message {
                Some(m) => Some(m@),
                None => None,
            },
            will_qos: self.will_qos,
            will_retained: self.will_retained,
        }
    }
}

/// Decode a CONNECT command envelope; none when it is malformed.
pub fn read_connect_cmd(bytes: &Vec<u8>) -> (cmd: Option<ConnectCmd>)
    ensures
        match cmd {
            Some(c) => parse_connect_cmd(bytes@) == Some(c@),
            None => parse_connect_cmd(bytes@) is None,
        },
{
    if bytes.len() < 1 {
        return None;
    }
    let n = bytes[0] as usize;
    if n == 0 || bytes.len() < n + 3 {
        return None;
    }
    let id_bytes = sub_vec(bytes, 1, 1 + n);
    proof {
        assert(id_bytes@ =~= bytes@.subrange(1, 1 + n as int));
    }
    let client_id = match utf8_to_string(id_bytes.as_slice()) {
        Some(s) => s,
        None => {
            return None;
        },
    };
    let clean_session = bytes[n + 1];
    if bytes[n + 2] != 1 {
        return Some(
            ConnectCmd {
                client_id,
                clean_session,
                will_topic: None,
                will_message: None,
                will_qos: 0,
                will_retained: false,
            },
        );
    }
    if bytes.len() < n + 4 {
        return None;
    }
    let tl = bytes[n + 3] as usize;
    if bytes.len() < n + 5 + tl {
        return None;
    }
    let ml = bytes[n + 4 + tl] as usize;
    if bytes.len() < n + 7 + tl + ml {
        return None;
    }
    let topic_bytes = sub_vec(bytes, n + 4, n + 4 + tl);
    let message_bytes = sub_vec(bytes, n + 5 + tl, n + 5 + tl + ml);
    proof {
        assert(topic_bytes@ =~= bytes@.subrange(n as int + 4, n as int + 4 + tl as int));
        assert(message_bytes@ =~= bytes@.subrange(
            n as int + 5 + tl as int,
            n as int + 5 + tl as int + ml as int,
        ));
    }
    let will_topic = match utf8_to_string(topic_bytes.as_slice()) {
        Some(s) => s,
        None => {
            return None;
        },
    };
    let will_message = match utf8_to_string(message_bytes.as_slice()) {
        Some(s) => s,
        None => {
            return None;
        },
    };
    Some(
        ConnectCmd {
            client_id,
            clean_session,
            will_topic: Some(will_topic),
            will_message: Some(will_message),
            will_qos: bytes[n + 5 + tl + ml],
            will_retained: bytes[n + 6 + tl + ml] == 1,
        },
    )
}

/// Parse the topic list of a SUBSCRIBE payload; none when the payload is
/// malformed.
pub fn parse_subscribe_topics(bytes: &Vec<u8>) -> (entries: Option<
    Vec<crate::server::client::Subscription>,
>)
    ensures
        match entries {
            Some(list) => {
                &&& bytes@.len() >= 2
                &&& list@.len() * 3 + 2 <= bytes@.len()
                &&& subscribe_entries(bytes@, 2) == Some(
                    list@.map_values(|s: crate::server::client::Subscription| s@),
                )
            },
            None => bytes@.len() < 2 || subscribe_entries(bytes@, 2) is None,
        },
{
    if bytes.len() < 2 {
        return None;
    }
    let mut list = Vec::<crate::server::client::Subscription>::new();
    let mut i: usize = 2;

    #[verifier::loop_isolation(false)]
    while i < bytes.len()
        invariant
            2 <= i <= bytes@.len(),
            list@.len() * 3 + 2 <= i,
            subscribe_entries(bytes@, 2) == match subscribe_entries(bytes@, i as int) {
                None => None::<Seq<crate::server::client::SubscriptionV>>,
                Some(rest) => Some(
                    list@.map_values(|s: crate::server::client::Subscription| s@) + rest,
                ),
            },
        decreases bytes@.len() - i,
    {
        if bytes.len() - i < 2 {
            return None;
        }
        let tl: usize = (bytes[i] as usize) * 256 + bytes[i + 1] as usize;
        if bytes.len() - i - 2 < tl + 1 {
            return None;
        }
        let topic_bytes = sub_vec(bytes, i + 2, i + 2 + tl);
        proof {
            assert(topic_bytes@ =~= bytes@.subrange(i as int + 2, i as int + 2 + tl as int));
        }
        let topic = match utf8_to_string(topic_bytes.as_slice()) {
            Some(topic) => topic,
            None => {
                return None;
            },
        };
        let qos = bytes[i + 2 + tl] & 0x01;
        let entry = crate::server::client::Subscription { topic, qos };
        let ghost before = list@.map_values(|s: crate::server::client::Subscription| s@);
        list.push(entry);
        proof {
            assert(list@.map_values(|s: crate::server::client::Subscription| s@) =~= before.push(
                entry@,
            ));
            let tail = subscribe_entries(bytes@, i as int + 3 + tl as int);
            if tail is Some {
                assert(before.push(entry@) + tail.unwrap() =~= before + (seq![entry@]
                    + tail.unwrap()));
            }
        }
        i = i + 3 + tl;
    }
    proof {
        assert(subscribe_entries(bytes@, bytes@.len() as int) == Some(
            Seq::<crate::server::client::SubscriptionV>::empty(),
        ));
        assert(list@.map_values(|s: crate::server::client::Subscription| s@)
            + Seq::<crate::server::client::SubscriptionV>::empty() =~= list@.map_values(
            |s: crate::server::client::Subscription| s@,
        ));
    }
    Some(list)
}

/// Parse the topic list of an UNSUBSCRIBE payload; none when the payload
/// is malformed.
pub fn parse_unsubscribe_topics(bytes: &Vec<u8>) -> (topics: Option<Vec<String>>)
    ensures
        match topics {
            Some(list) => bytes@.len() >= 2 && unsubscribe_entries(bytes@, 2) == Some(
                list@.map_values(|t: String| t@),
            ),
            None => bytes@.len() < 2 || unsubscribe_entries(bytes@, 2) is None,
        },
{
    if bytes.len() < 2 {
        return None;
    }
    let mut list = Vec::<String>::new();
    let mut i: usize = 2;

    #[verifier::loop_isolation(false)]
    while i < bytes.len()
        invariant
            2 <= i <= bytes@.len(),
            unsubscribe_entries(bytes@, 2) == match unsubscribe_entries(bytes@, i as int) {
                None => None::<Seq<Seq<char>>>,
                Some(rest) => Some(list@.map_values(|t: String| t@) + rest),
            },
        decreases bytes@.len() - i,
    {
        if bytes.len() - i < 2 {
            return None;
        }
        let tl: usize = (bytes[i] as usize) * 256 + bytes[i + 1] as usize;
        if bytes.len() - i - 2 < tl {
            return None;
        }
        let topic_bytes = sub_vec(bytes, i + 2, i + 2 + tl);
        proof {
            assert(topic_bytes@ =~= bytes@.subrange(i as int + 2, i as int + 2 + tl as int));
        }
        let topic = match utf8_to_string(topic_bytes.as_slice()) {
            Some(topic) => topic,
            None => {
                return None;
            },
        };
        let ghost before = list@.map_values(|t: String| t@);
        list.push(topic);
        proof {
            assert(list@.map_values(|t: String| t@) =~= before.push(topic@));
            let tail = unsubscribe_entries(bytes@, i as int + 2 + tl as int);
            if tail is Some {
                assert(before.push(topic@) + tail.unwrap() =~= before + (seq![topic@]
                    + tail.unwrap()));
            }
        }
        i = i + 2 + tl;
    }
    proof {
        assert(unsubscribe_entries(bytes@, bytes@.len() as int) == Some(Seq::<Seq<char>>::empty()));
        assert(list@.map_values(|t: String| t@) + Seq::<Seq<char>>::empty() =~= list@.map_values(
            |t: String| t@,
        ));
    }
    Some(list)
}

/// Whether accepted connection fields fit the coordinator envelope's
/// one-byte lengths, with a will only when both its fields are present:
/// exactly what `build_connect_command` asks of its caller.  The wire
/// format allows will fields up to 65535 bytes; ones over 255 bytes are
/// refused with CONNACK code 2 rather than silently truncated.
pub fn connect_command_fits(info: &ConnectInfo) -> (fits: bool)
    ensures
        fits == {
            &&& 1 <= vstd::utf8::encode_utf8(info.client_id@).len() <= 255
            &&& (info.will_topic is Some <==> info.will_message is Some)
            &&& (info.will_topic matches Some(t) ==> vstd::utf8::encode_utf8(t@).len() <= 255)
            &&& (info.will_message matches Some(m) ==> vstd::utf8::encode_utf8(m@).len() <= 255)
        },
{
    let id_len = info.client_id.as_str().as_bytes().len();
    let id_ok = 1 <= id_len && id_len <= 255;
    let will_consistent = info.will_topic.is_some() == info.will_message.is_some();
    let topic_ok = match &info.will_topic {
        Some(t) => t.as_str().as_bytes().len() <= 255,
        None => true,
    };
    let message_ok = match &info.will_message {
        Some(m) => m.as_str().as_bytes().len() <= 255,
        None => true,
    };
    id_ok && will_consistent && topic_ok && message_ok
}

/// The reader's inactivity deadline in seconds: one and a half times the
/// keep-alive.
pub fn keep_alive_deadline(keep_alive: u16) -> (seconds: u64)
    ensures
        seconds == keep_alive as u64 * 3 / 2,
{
    (keep_alive as u64) * 3 / 2
}

/// The CONNACK frame: session-present and a return code.
pub fn build_connack(session_present: u8, return_code: u8) -> (frame: Vec<u8>)
    ensures
        frame@ == seq![0x20u8, 0x02u8, session_present, return_code],
{
    let frame = vec![0x20u8, 0x02u8, session_present, return_code];
    proof {
        assert(frame@ =~= seq![0x20u8, 0x02u8, session_present, return_code]);
    }
    frame
}

/// The PUBACK frame for a packet id.
pub fn build_puback(packet_identifier: u16) -> (frame: Vec<u8>)
    ensures
        frame@ == seq![
            0x40u8,
            0x02u8,
            (packet_identifier / 256) as u8,
            (packet_identifier % 256) as u8,
        ],
{
    let frame = vec![
        0x40u8,
        0x02u8,
        (packet_identifier / 256) as u8,
        (packet_identifier % 256) as u8,
    ];
    proof {
        assert(frame@ =~= seq![
            0x40u8,
            0x02u8,
            (packet_identifier / 256) as u8,
            (packet_identifier % 256) as u8,
        ]);
    }
    frame
}

/// The PINGRESP frame.
pub fn build_pingresp() -> (frame: Vec<u8>)
    ensures
        frame@ == seq![0xD0u8, 0x00u8],
{
    let frame = vec![0xD0u8, 0x00u8];
    proof {
        assert(frame@ =~= seq![0xD0u8, 0x00u8]);
    }
    frame
}

} // verus!
