use mqtt_broker::client::connection::{
    calculate_connection_length, create_byte_with_flags, FlagsConnection, UserInformation,
};
use mqtt_broker::client::packet::{
    build_connection_packet, build_disconnect_packet, build_pingreq_packet,
    build_puback_packet, build_publish_packet, build_subscribe_packet,
    build_unsubscribe_packet, bytes2string, read_connack, read_puback, read_publish,
    read_suback, read_unsuback,
};
use mqtt_broker::server::packet::{make_connection, ConnectError};

#[test]
fn test_sample_client() {
    assert_eq!(1, 1)
}

fn plain_flags() -> FlagsConnection {
    FlagsConnection {
        username: false,
        password: false,
        will_retain: false,
        will_flag: false,
        clean_session: false,
    }
}

fn plain_information(id: &str) -> UserInformation {
    UserInformation {
        id_length: id.len() as u16,
        id: String::from(id),
        username_length: 0,
        username: None,
        password_length: 0,
        password: None,
        will_topic_length: 0,
        will_topic: None,
        will_message_length: 0,
        will_message: None,
        will_qos: 0,
        keep_alive: 100,
    }
}

#[test]
fn connect_flags_byte_sets_each_bit() {
    let flags = FlagsConnection {
        username: true,
        password: true,
        will_retain: true,
        will_flag: true,
        clean_session: true,
    };
    assert_eq!(create_byte_with_flags(&flags, &1), 0xEE);
    assert_eq!(create_byte_with_flags(&plain_flags(), &0), 0x00);
}

#[test]
fn connection_length_counts_every_field() {
    let mut flags = plain_flags();
    let mut info = plain_information("20");
    assert_eq!(calculate_connection_length(&flags, &info), 14);
    flags.username = true;
    flags.password = true;
    info.username_length = 4;
    info.username = Some(String::from("pepe"));
    info.password_length = 4;
    info.password = Some(String::from("1234"));
    assert_eq!(calculate_connection_length(&flags, &info), 26);
}

#[test]
fn built_connect_packet_is_accepted_by_the_broker() {
    let mut flags = plain_flags();
    flags.clean_session = true;
    flags.will_flag = true;
    let mut info = plain_information("lamp");
    info.will_topic_length = 2;
    info.will_topic = Some(String::from("as"));
    info.will_message_length = 4;
    info.will_message = Some(String::from("pepe"));
    info.will_qos = 1;
    let packet = build_connection_packet(&flags, &info);
    assert_eq!(packet[0], 0x10);
    // one remaining-length byte here, so the body starts at index 2
    let body = packet[2..].to_vec();
    assert_eq!(packet[1] as usize, body.len());
    let parsed = make_connection(&body, false, "").unwrap();
    assert_eq!(parsed.client_id, "lamp");
    assert_eq!(parsed.clean_session, 1);
    assert_eq!(parsed.keep_alive, 100);
    assert_eq!(parsed.will_topic.as_deref(), Some("as"));
    assert_eq!(parsed.will_message.as_deref(), Some("pepe"));
    assert_eq!(parsed.will_qos, 1);
}

#[test]
fn built_connect_packet_with_credentials_round_trips() {
    let mut flags = plain_flags();
    flags.username = true;
    flags.password = true;
    let mut info = plain_information("20");
    info.username_length = 4;
    info.username = Some(String::from("pepe"));
    info.password_length = 4;
    info.password = Some(String::from("1234"));
    let packet = build_connection_packet(&flags, &info);
    let body = packet[2..].to_vec();
    assert_eq!(
        make_connection(&body, true, "otro=x\n").unwrap_err(),
        ConnectError::AuthFailure
    );
    let parsed = make_connection(&body, true, "pepe=1234\n").unwrap();
    assert_eq!(parsed.username.as_deref(), Some("pepe"));
    assert_eq!(parsed.password.as_deref(), Some("1234"));
}

#[test]
fn built_publish_packet_reads_back_unchanged() {
    let packet = build_publish_packet(
        &String::from("as/ti/lle/ro"),
        &String::from("piniata"),
        false,
        true,
        false,
        14,
    );
    assert_eq!(packet[0], 0x32);
    let body = packet[2..].to_vec();
    assert_eq!(packet[1] as usize, body.len());
    let (topic, message, pid) = read_publish(packet[0], &body).unwrap();
    assert_eq!(topic, "as/ti/lle/ro");
    assert_eq!(message, "piniata");
    assert_eq!(pid, Some(14));
}

#[test]
fn built_qos_zero_publish_carries_no_packet_id() {
    let packet = build_publish_packet(
        &String::from("as"),
        &String::from("x"),
        true,
        false,
        true,
        99,
    );
    assert_eq!(packet[0], 0x35); // DUP and RETAIN, no QoS bit
    let body = packet[2..].to_vec();
    let (topic, message, pid) = read_publish(packet[0], &body).unwrap();
    assert_eq!(topic, "as");
    assert_eq!(message, "x");
    assert_eq!(pid, None);
}

#[test]
fn built_subscribe_packet_has_the_wire_shape() {
    let topics = vec![String::from("as/ti/#")];
    let packet = build_subscribe_packet(&topics, true, 57);
    assert_eq!(packet[0], 0x82);
    assert_eq!(packet[1] as usize, packet.len() - 2);
    assert_eq!(&packet[2..4], &[0, 57]);
    assert_eq!(&packet[4..6], &[0, 7]);
    assert_eq!(&packet[6..13], b"as/ti/#");
    assert_eq!(packet[13], 1);
}

#[test]
fn built_unsubscribe_packet_has_the_wire_shape() {
    let topics = vec![String::from("as/ti/#")];
    let packet = build_unsubscribe_packet(&topics, 32);
    assert_eq!(packet[0], 0xA2);
    assert_eq!(&packet[2..4], &[0, 32]);
    assert_eq!(&packet[4..6], &[0, 7]);
    assert_eq!(&packet[6..13], b"as/ti/#");
}

#[test]
fn answer_bodies_read_back_their_fields() {
    assert_eq!(read_connack(&vec![0x01, 0x00]), (1, 0));
    assert_eq!(read_puback(&vec![0x00, 0x0E]), 14);
    let (pid, codes) = read_suback(&vec![0x00, 57, 0x01]);
    assert_eq!(pid, 57);
    assert_eq!(codes, vec![1]);
    assert_eq!(read_unsuback(&vec![0x00, 32]), 32);
    assert_eq!(build_pingreq_packet(), vec![0xC0, 0x00]);
    assert_eq!(build_puback_packet(14), vec![0x40, 0x02, 0x00, 0x0E]);
    assert_eq!(build_disconnect_packet(), vec![0xE0, 0x00]);
}

#[test]
fn client_bytes2string_refuses_bad_utf8() {
    assert_eq!(bytes2string(b"hola"), Ok(String::from("hola")));
    assert_eq!(bytes2string(&[0xC3, 0x28]), Err(1));
}
