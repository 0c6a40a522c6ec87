use mqtt_broker::server::client::Client;
use mqtt_broker::server::coordinator::{run_coordinator, Coordinator};
use mqtt_broker::server::packet::{build_connect_command, make_connection, make_publication, Packet, PacketThings};

/// A SUBSCRIBE payload: the packet id and one (topic, qos) entry per
/// topic.
fn subscribe_payload(packet_id: u16, topics: &[(&str, u8)]) -> Vec<u8> {
    let mut bytes = vec![(packet_id >> 8) as u8, packet_id as u8];
    for (topic, qos) in topics {
        bytes.push((topic.len() >> 8) as u8);
        bytes.push(topic.len() as u8);
        bytes.extend_from_slice(topic.as_bytes());
        bytes.push(*qos);
    }
    bytes
}

/// An UNSUBSCRIBE payload: the packet id and one topic per entry.
fn unsubscribe_payload(packet_id: u16, topics: &[&str]) -> Vec<u8> {
    let mut bytes = vec![(packet_id >> 8) as u8, packet_id as u8];
    for topic in topics {
        bytes.push((topic.len() >> 8) as u8);
        bytes.push(topic.len() as u8);
        bytes.extend_from_slice(topic.as_bytes());
    }
    bytes
}

/// A PUBLISH command body: topic, packet id when QoS 1, payload.
fn publish_body(topic: &str, packet_id: Option<u16>, payload: &[u8]) -> Vec<u8> {
    let mut bytes = vec![(topic.len() >> 8) as u8, topic.len() as u8];
    bytes.extend_from_slice(topic.as_bytes());
    if let Some(pid) = packet_id {
        bytes.push((pid >> 8) as u8);
        bytes.push(pid as u8);
    }
    bytes.extend_from_slice(payload);
    bytes
}

fn command(thread_id: usize, packet_type: Packet, bytes: Vec<u8>) -> PacketThings {
    PacketThings { thread_id, packet_type, bytes }
}

/// A coordinator with one connected, anonymous client per given id.
fn broker_with_clients(ids: &[usize]) -> Coordinator {
    let mut broker = Coordinator::new();
    for id in ids {
        broker.add_client(*id);
        let last = broker.clients.len() - 1;
        broker.clients[last].disconnected = false;
    }
    broker
}

#[test]
fn connect_gets_a_clean_connack() {
    // a well-formed CONNECT with clean_session=0 and client id "20"
    let mut body = vec![0x00, 0x04, 0x4D, 0x51, 0x54, 0x54, 0x04, 0x00, 0x00, 0x64, 0x00, 0x02];
    body.extend_from_slice(b"20");
    let info = make_connection(&body, false, "").unwrap();
    let envelope = build_connect_command(&info);
    let mut broker = broker_with_clients(&[1]);
    let removed = broker.process_command(&command(1, Packet::Connect, envelope));
    assert_eq!(removed, None);
    assert_eq!(broker.clients[0].client_id, "20");
    // CONNACK with session-present 0 and return code 0
    assert_eq!(broker.clients[0].outbound, vec![vec![0x20, 0x02, 0x00, 0x00]]);
}

#[test]
fn subscribe_publish_loopback_with_wildcard() {
    let mut broker = broker_with_clients(&[1]);
    broker.process_command(&command(
        1,
        Packet::Subscribe,
        subscribe_payload(57, &[("as/ti/#", 1)]),
    ));
    // SUBACK echoing packet id 57 and granting QoS 1
    assert_eq!(broker.clients[0].outbound, vec![vec![0x90, 0x03, 0x00, 57, 0x01]]);

    let (publish, pid) =
        make_publication(1, publish_body("as/ti/lle/ro", Some(14), b"piniata"), 0x32).unwrap();
    assert_eq!(pid, 14);
    // the reader answers the publisher with PUBACK(14)
    assert_eq!(
        mqtt_broker::server::packet::build_puback(pid),
        vec![0x40, 0x02, 0x00, 14]
    );
    broker.process_command(&publish);
    assert_eq!(broker.clients[0].outbound.len(), 2);
    let frame = &broker.clients[0].outbound[1];
    // PUBLISH, QoS 1, correctly framed, carrying topic and payload
    assert_eq!(frame[0], 0x32);
    assert_eq!(frame[1] as usize, frame.len() - 2);
    assert_eq!(&frame[4..16], b"as/ti/lle/ro");
    assert_eq!(&frame[18..], b"piniata");
    // the unacknowledged QoS-1 frame is held for redelivery with DUP set
    assert_eq!(broker.clients[0].publishes_received.len(), 1);
    assert_eq!(broker.clients[0].publishes_received[0][0], 0x3A);
}

#[test]
fn subscribe_then_unsubscribe_restores_the_prior_state() {
    let mut broker = broker_with_clients(&[1]);
    broker.process_command(&command(
        1,
        Packet::Subscribe,
        subscribe_payload(30, &[("pepitoelpistolero", 1)]),
    ));
    assert_eq!(broker.clients[0].outbound[0][0], 0x90);
    assert_eq!(broker.clients[0].outbound[0][3], 30);
    assert_eq!(broker.clients[0].topics.len(), 1);
    broker.process_command(&command(
        1,
        Packet::Unsubscribe,
        unsubscribe_payload(32, &["pepitoelpistolero"]),
    ));
    assert!(broker.clients[0].topics.is_empty());
    // UNSUBACK echoing packet id 32
    assert_eq!(broker.clients[0].outbound[1], vec![0xB0, 0x02, 0x00, 32]);
}

#[test]
fn retained_frame_reaches_a_late_subscriber() {
    let mut broker = broker_with_clients(&[1, 2]);
    let (publish, _) =
        make_publication(1, publish_body("as/tio/lle/ro", None, b"piniata"), 0x31).unwrap();
    broker.process_command(&publish);
    assert_eq!(broker.retained_messages.len(), 1);
    assert_eq!(broker.retained_messages[0].topic, "as/tio/lle/ro");

    broker.process_command(&command(
        2,
        Packet::Subscribe,
        subscribe_payload(57, &[("as/tio/#", 1)]),
    ));
    let outbound = &broker.clients[1].outbound;
    assert_eq!(outbound.len(), 2);
    assert_eq!(outbound[0][0], 0x90);
    let retained = &outbound[1];
    assert_eq!(retained[0], 0x30);
    assert_eq!(&retained[4..17], b"as/tio/lle/ro");
    assert_eq!(&retained[17..], b"piniata");
}

#[test]
fn zero_payload_retained_publish_deletes_the_entry() {
    let mut broker = broker_with_clients(&[1]);
    let (publish, _) =
        make_publication(1, publish_body("as/tio", None, b"piniata"), 0x31).unwrap();
    broker.process_command(&publish);
    assert_eq!(broker.retained_messages.len(), 1);
    let (delete, _) = make_publication(1, publish_body("as/tio", None, b""), 0x31).unwrap();
    broker.process_command(&delete);
    assert!(broker.retained_messages.is_empty());
}

#[test]
fn a_new_retained_publish_replaces_the_old_frame() {
    let mut broker = broker_with_clients(&[1]);
    let (first, _) = make_publication(1, publish_body("as/tio", None, b"uno"), 0x31).unwrap();
    broker.process_command(&first);
    let (second, _) = make_publication(1, publish_body("as/tio", None, b"dos"), 0x31).unwrap();
    broker.process_command(&second);
    assert_eq!(broker.retained_messages.len(), 1);
    let frame = &broker.retained_messages[0].frame;
    assert_eq!(&frame[frame.len() - 3..], b"dos");
}

#[test]
fn takeover_delivers_retained_frames_for_inherited_filters() {
    let mut broker = broker_with_clients(&[1, 2]);
    broker.clients[0].client_id = String::from("Homero");
    broker.process_command(&command(
        1,
        Packet::Subscribe,
        subscribe_payload(5, &[("as/tio/#", 1)]),
    ));
    let (publish, _) =
        make_publication(2, publish_body("as/tio/lle", None, b"piniata"), 0x31).unwrap();
    broker.process_command(&publish);

    let mut envelope = vec![6];
    envelope.extend_from_slice(b"Homero");
    envelope.push(0); // clean_session
    envelope.push(0); // no will
    let removed = broker.process_command(&command(2, Packet::Connect, envelope));
    assert_eq!(removed, Some(1));
    let survivor = &broker.clients[0];
    assert_eq!(survivor.thread_id, 2);
    // CONNACK with session-present, then the retained frame for the
    // inherited filter
    let fresh_frames =
        &survivor.outbound[survivor.outbound.len() - 2..];
    assert_eq!(fresh_frames[0], vec![0x20, 0x02, 0x01, 0x00]);
    assert_eq!(&fresh_frames[1][fresh_frames[1].len() - 7..], b"piniata");
}

#[test]
fn will_is_published_on_an_ungraceful_disconnect() {
    let mut broker = broker_with_clients(&[1, 2]);
    broker.clients[0].lastwill_topic = Some(String::from("as"));
    broker.clients[0].lastwill_message = Some(String::from("pepe"));
    broker.clients[0].lastwill_qos = 1;
    broker.process_command(&command(
        2,
        Packet::Subscribe,
        subscribe_payload(57, &[("as", 0)]),
    ));
    broker.process_command(&command(1, Packet::Disgrace, Vec::new()));
    // the vanished client's writer got the shutdown sentinel
    assert_eq!(broker.clients[0].outbound.last().unwrap(), &vec![255]);
    assert!(broker.clients[0].disconnected);
    // the subscriber got the will as a QoS-1 PUBLISH on "as" with "pepe"
    let frame = broker.clients[1].outbound.last().unwrap();
    assert_eq!(frame[0], 0x32);
    assert_eq!(&frame[2..6], &[0x00, 0x02, b'a', b's']);
    assert_eq!(&frame[8..], b"pepe");
}

#[test]
fn clean_disconnect_discards_the_will() {
    let mut broker = broker_with_clients(&[1, 2]);
    broker.clients[0].lastwill_topic = Some(String::from("as"));
    broker.clients[0].lastwill_message = Some(String::from("pepe"));
    broker.process_command(&command(
        2,
        Packet::Subscribe,
        subscribe_payload(57, &[("as", 0)]),
    ));
    broker.process_command(&command(1, Packet::Disconnect, Vec::new()));
    broker.process_command(&command(1, Packet::Disgrace, Vec::new()));
    // only the SUBACK: no will was published
    assert_eq!(broker.clients[1].outbound.len(), 1);
}

#[test]
fn unacknowledged_publish_is_redelivered_with_dup() {
    let mut broker = broker_with_clients(&[1]);
    broker.process_command(&command(
        1,
        Packet::Subscribe,
        subscribe_payload(57, &[("as/ti/#", 1)]),
    ));
    let (publish, _) =
        make_publication(1, publish_body("as/ti/lle/ro", Some(14), b"hola"), 0x32).unwrap();
    broker.process_command(&publish);
    assert_eq!(broker.clients[0].outbound.len(), 2);
    // no PUBACK came back: the redelivery pass sends the frame again
    broker.resend_stacked_messages();
    assert_eq!(broker.clients[0].outbound.len(), 3);
    let redelivered = broker.clients[0].outbound.last().unwrap();
    assert_eq!(redelivered[0], 0x3A, "redelivered frames bear DUP and QoS 1");
    assert_eq!(&redelivered[4..16], b"as/ti/lle/ro");
    // still queued: redelivery repeats until a PUBACK arrives
    broker.resend_stacked_messages();
    assert_eq!(broker.clients[0].outbound.len(), 4);
    // the PUBACK finally removes it
    broker.process_command(&command(1, Packet::PubAck, vec![0x00, 14]));
    assert!(broker.clients[0].publishes_received.is_empty());
    broker.resend_stacked_messages();
    assert_eq!(broker.clients[0].outbound.len(), 4);
}

#[test]
fn puback_removes_only_the_matching_packet_id() {
    let mut broker = broker_with_clients(&[1]);
    broker.process_command(&command(1, Packet::Subscribe, subscribe_payload(5, &[("t", 1)])));
    for pid in [10u16, 11, 12] {
        let (publish, _) =
            make_publication(1, publish_body("t", Some(pid), b"x"), 0x32).unwrap();
        broker.process_command(&publish);
    }
    assert_eq!(broker.clients[0].publishes_received.len(), 3);
    broker.process_command(&command(1, Packet::PubAck, vec![0x00, 11]));
    assert_eq!(broker.clients[0].publishes_received.len(), 2);
    broker.process_command(&command(1, Packet::PubAck, vec![0x00, 99]));
    assert_eq!(broker.clients[0].publishes_received.len(), 2);
}

#[test]
fn session_takeover_keeps_the_subscriptions() {
    let mut broker = Coordinator::new();
    broker.add_client(1);
    broker.clients[0].disconnected = false;
    broker.clients[0].client_id = String::from("Homero");
    let mut homero = Client::new(1);
    homero.subscribe(String::from("as/tillero"), 1);
    homero.subscribe(String::from("ma/derero"), 1);
    broker.clients[0].topics = homero.topics;
    broker.add_client(2);
    broker.clients[1].disconnected = false;

    let mut envelope = vec![6];
    envelope.extend_from_slice(b"Homero");
    envelope.push(1); // clean_session
    envelope.push(0); // no will
    let removed = broker.process_command(&command(2, Packet::Connect, envelope));
    assert_eq!(removed, Some(1));
    assert_eq!(broker.clients.len(), 1);
    assert_eq!(broker.clients[0].thread_id, 2);
    assert!(broker.clients[0].is_subscribed_to("as/tillero"));
    assert!(broker.clients[0].is_subscribed_to("ma/derero"));
    assert!(!broker.clients[0].is_subscribed_to("am/tillero"));
    // the CONNACK flags the session as present
    assert_eq!(broker.clients[0].outbound[0], vec![0x20, 0x02, 0x01, 0x00]);
}

#[test]
fn a_batch_equals_the_commands_taken_one_at_a_time() {
    let make_commands = || {
        vec![
            command(1, Packet::Subscribe, subscribe_payload(57, &[("as/ti/#", 1)])),
            command(
                1,
                Packet::Publish,
                make_publication(1, publish_body("as/ti/x", Some(3), b"m"), 0x32)
                    .unwrap()
                    .0
                    .bytes,
            ),
            command(1, Packet::PubAck, vec![0x00, 3]),
            command(1, Packet::Disconnect, Vec::new()),
        ]
        .into_iter()
        .map(|p| PacketThings { thread_id: p.thread_id, packet_type: p.packet_type, bytes: p.bytes })
        .collect::<Vec<_>>()
    };
    let mut batch = broker_with_clients(&[1]);
    run_coordinator(&mut batch, make_commands());
    let mut one_at_a_time = broker_with_clients(&[1]);
    for cmd in make_commands() {
        one_at_a_time.process_command(&cmd);
    }
    assert_eq!(batch.clients.len(), one_at_a_time.clients.len());
    assert_eq!(batch.clients[0].outbound, one_at_a_time.clients[0].outbound);
    assert_eq!(
        batch.clients[0].publishes_received,
        one_at_a_time.clients[0].publishes_received
    );
    assert_eq!(batch.clients[0].disconnected, one_at_a_time.clients[0].disconnected);
    assert_eq!(batch.clients[0].topics.len(), one_at_a_time.clients[0].topics.len());
}

#[test]
fn disconnected_clean_session_loses_subscriptions_and_queue() {
    let mut broker = broker_with_clients(&[1]);
    broker.clients[0].clean_session = 1;
    broker.process_command(&command(1, Packet::Subscribe, subscribe_payload(5, &[("t", 1)])));
    let (publish, _) = make_publication(1, publish_body("t", Some(9), b"x"), 0x32).unwrap();
    broker.process_command(&publish);
    broker.process_command(&command(1, Packet::Disconnect, Vec::new()));
    assert!(broker.clients[0].topics.is_empty());
    assert!(broker.clients[0].publishes_received.is_empty());
    assert!(broker.clients[0].disconnected);
    // a persistent session keeps both
    let mut keeper = broker_with_clients(&[1]);
    keeper.clients[0].clean_session = 0;
    keeper.process_command(&command(1, Packet::Subscribe, subscribe_payload(5, &[("t", 1)])));
    let (publish, _) = make_publication(1, publish_body("t", Some(9), b"x"), 0x32).unwrap();
    keeper.process_command(&publish);
    keeper.process_command(&command(1, Packet::Disconnect, Vec::new()));
    assert_eq!(keeper.clients[0].topics.len(), 1);
    assert_eq!(keeper.clients[0].publishes_received.len(), 1);
}

#[test]
fn a_disconnected_subscriber_gets_no_frames() {
    let mut broker = broker_with_clients(&[1, 2]);
    broker.process_command(&command(2, Packet::Subscribe, subscribe_payload(5, &[("t", 0)])));
    broker.clients[1].disconnected = true;
    let before = broker.clients[1].outbound.len();
    let (publish, _) = make_publication(1, publish_body("t", None, b"x"), 0x30).unwrap();
    broker.process_command(&publish);
    assert_eq!(broker.clients[1].outbound.len(), before);
}
