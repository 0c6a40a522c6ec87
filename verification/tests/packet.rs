use mqtt_broker::server::packet::{
    build_connack, build_pingresp, build_puback, bytes2string, connect_command_fits,
    keep_alive_deadline, make_connection, make_publication, process_publish, read_connect_cmd,
    verify_protocol_name, verify_version_protocol, ConnectError, Packet,
};
use rand::Rng;

const CONNECTION_PROTOCOL_REJECTED: u8 = 1;

#[test]
fn test01_nombre_protocolo_correto() {
    let nombre: [u8; 6] = [0x00, 0x04, 0x4D, 0x51, 0x54, 0x54];
    assert_eq!(verify_protocol_name(&nombre.to_vec()), Ok(()));
}

#[test]
fn test02_nombre_protocolo_incorrecto() {
    let nombre: [u8; 6] = [0x00, 0x04, 0x4E, 0x51, 0x54, 0x14];
    assert_eq!(
        verify_protocol_name(&nombre.to_vec()),
        Err(CONNECTION_PROTOCOL_REJECTED)
    );
}

#[test]
fn test03_version_protocolo_incorrecta() {
    let version: u8 = 45;
    assert_eq!(
        verify_version_protocol(&version),
        Err(CONNECTION_PROTOCOL_REJECTED)
    );
}

#[test]
fn test04_get_tipo_connect_correcto() {
    let mut rng = rand::thread_rng();
    let header: u8 = 16 + rng.gen_range(0..16);
    let tipo: Packet = header.into();
    assert!(matches!(tipo, Packet::Connect));
}

#[test]
fn test05_get_tipo_distinto_a_connect() {
    let header: u8 = 32;
    let tipo: Packet = header.into();
    assert_ne!(matches!(tipo, Packet::Connect), true);
}

/// A CONNECT body with protocol level 4 and the given flags and client id.
fn connect_body(level: u8, flags: u8, client_id: &str) -> Vec<u8> {
    let mut body = vec![0x00, 0x04, 0x4D, 0x51, 0x54, 0x54, level, flags, 0x00, 0x64];
    body.push((client_id.len() >> 8) as u8);
    body.push(client_id.len() as u8);
    body.extend_from_slice(client_id.as_bytes());
    body
}

#[test]
fn connect_with_level_four_is_accepted() {
    let body = connect_body(4, 0x00, "20");
    let info = make_connection(&body, false, "").unwrap();
    assert_eq!(info.client_id, "20");
    assert_eq!(info.clean_session, 0);
    assert_eq!(info.keep_alive, 100);
    assert!(info.will_topic.is_none());
}

#[test]
fn connect_with_level_three_is_a_protocol_violation() {
    let body = connect_body(3, 0x00, "20");
    let refusal = make_connection(&body, false, "").unwrap_err();
    assert_eq!(refusal, ConnectError::ProtocolViolation);
    assert_eq!(refusal.return_code(), Some(1));
}

#[test]
fn connect_with_unknown_credentials_is_an_auth_failure() {
    let mut body = connect_body(4, 0xC0, "20");
    for field in ["a", "a"] {
        body.push(0);
        body.push(field.len() as u8);
        body.extend_from_slice(field.as_bytes());
    }
    let refusal = make_connection(&body, true, "pepe=1234\n").unwrap_err();
    assert_eq!(refusal, ConnectError::AuthFailure);
    assert_eq!(refusal.return_code(), Some(4));
}

#[test]
fn connect_with_good_credentials_is_accepted() {
    let mut body = connect_body(4, 0xC0, "20");
    for field in ["pepe", "1234"] {
        body.push(0);
        body.push(field.len() as u8);
        body.extend_from_slice(field.as_bytes());
    }
    let info = make_connection(&body, true, "ana=x\npepe=1234\n").unwrap();
    assert_eq!(info.username.as_deref(), Some("pepe"));
    assert_eq!(info.password.as_deref(), Some("1234"));
}

#[test]
fn connect_with_empty_client_id_is_rejected() {
    let body = connect_body(4, 0x00, "");
    let refusal = make_connection(&body, false, "").unwrap_err();
    assert_eq!(refusal, ConnectError::IdentifierRejected);
    assert_eq!(refusal.return_code(), Some(2));
}

#[test]
fn empty_client_id_is_rejected_even_with_a_clean_session() {
    // the broker assigns no ids of its own, so the clean-session flag
    // does not save a nameless CONNECT
    let body = connect_body(4, 0x02, "");
    let refusal = make_connection(&body, false, "").unwrap_err();
    assert_eq!(refusal, ConnectError::IdentifierRejected);
    assert_eq!(refusal.return_code(), Some(2));
}

#[test]
fn a_subscribe_payload_with_a_bad_utf8_topic_is_refused() {
    // pktid 9, one 2-byte topic that is not UTF-8, qos 0
    let payload = vec![0x00, 0x09, 0x00, 0x02, 0xC3, 0x28, 0x00];
    assert!(mqtt_broker::server::packet::parse_subscribe_topics(&payload).is_none());
    let unsubscribe = vec![0x00, 0x09, 0x00, 0x02, 0xC3, 0x28];
    assert!(mqtt_broker::server::packet::parse_unsubscribe_topics(&unsubscribe).is_none());
}

#[test]
fn connect_without_credentials_when_required_is_rejected() {
    let body = connect_body(4, 0x02, "20");
    let refusal = make_connection(&body, true, "pepe=1234\n").unwrap_err();
    assert_eq!(refusal, ConnectError::IdentifierRejected);
    assert_eq!(refusal.return_code(), Some(2));
}

#[test]
fn connect_truncated_body_is_malformed() {
    let refusal = make_connection(&vec![0x00, 0x04, 0x4D], false, "").unwrap_err();
    assert_eq!(refusal, ConnectError::Malformed);
    assert_eq!(refusal.return_code(), None);
}

#[test]
fn connect_command_envelope_round_trips() {
    let body = {
        let mut body = connect_body(4, 0x06, "lamp");
        for field in ["as", "pepe"] {
            body.push(0);
            body.push(field.len() as u8);
            body.extend_from_slice(field.as_bytes());
        }
        body
    };
    let info = make_connection(&body, false, "").unwrap();
    assert_eq!(info.will_topic.as_deref(), Some("as"));
    assert_eq!(info.will_message.as_deref(), Some("pepe"));
    let envelope = mqtt_broker::server::packet::build_connect_command(&info);
    let cmd = read_connect_cmd(&envelope).unwrap();
    assert_eq!(cmd.client_id, "lamp");
    assert_eq!(cmd.clean_session, 1);
    assert_eq!(cmd.will_topic.as_deref(), Some("as"));
    assert_eq!(cmd.will_message.as_deref(), Some("pepe"));
}

#[test]
fn publication_command_keeps_its_packet_id() {
    // topic "as/tor", QoS 1, packet id 0x030A, payload 7..9
    let mut body = vec![0x00, 0x06];
    body.extend_from_slice(b"as/tor");
    body.extend_from_slice(&[0x03, 0x0A, 7, 8, 9]);
    let (cmd, pid) = make_publication(1, body, 0x32).unwrap();
    assert_eq!(pid, 0x030A);
    assert_eq!(cmd.thread_id, 1);
    assert_eq!(cmd.bytes[0], 0x32);
    assert_eq!(process_publish(&cmd), "as/tor");
}

#[test]
fn publication_too_short_for_its_packet_id_is_refused() {
    let mut body = vec![0x00, 0x06];
    body.extend_from_slice(b"as/tor");
    body.push(0x03);
    assert!(make_publication(1, body, 0x32).is_none());
}

#[test]
fn bytes2string_decodes_utf8_and_blanks_the_rest() {
    assert_eq!(bytes2string(b"piniata"), "piniata");
    assert_eq!(bytes2string(&[0xFF, 0xFE]), "");
}

#[test]
fn the_keep_alive_deadline_is_one_and_a_half_times() {
    assert_eq!(keep_alive_deadline(100), 150);
    assert_eq!(keep_alive_deadline(1), 1);
    assert_eq!(keep_alive_deadline(0), 0);
}

#[test]
fn envelope_fit_refuses_an_oversized_client_id() {
    let short = make_connection(&connect_body(4, 0x00, "20"), false, "").unwrap();
    assert!(connect_command_fits(&short));
    let long_id = "x".repeat(300);
    let long = make_connection(&connect_body(4, 0x00, &long_id), false, "").unwrap();
    assert!(!connect_command_fits(&long));
}

#[test]
fn answer_frames_have_their_fixed_shapes() {
    assert_eq!(build_connack(1, 0), vec![0x20, 0x02, 0x01, 0x00]);
    assert_eq!(build_puback(14), vec![0x40, 0x02, 0x00, 0x0E]);
    assert_eq!(build_pingresp(), vec![0xD0, 0x00]);
}
