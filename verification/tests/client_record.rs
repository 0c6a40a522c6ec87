use mqtt_broker::server::client::{Client, Subscription};
use mqtt_broker::server::packet::user_and_password_correct;

#[test]
fn subscribe_then_unsubscribe_leaves_the_record_as_before() {
    let mut client = Client::new(1);
    client.subscribe(String::from("ma/derero"), 0);
    client.subscribe(String::from("as/tillero"), 1);
    client.unsubscribe(String::from("as/tillero"));
    assert_eq!(client.topics.len(), 1);
    assert_eq!(client.topics[0].topic, "ma/derero");
}

#[test]
fn unsubscribe_needs_the_exact_filter_not_a_match() {
    let mut client = Client::new(1);
    client.subscribe(String::from("as/#"), 1);
    client.unsubscribe(String::from("as/tillero"));
    assert_eq!(client.topics.len(), 1);
    client.unsubscribe(String::from("as/#"));
    assert!(client.topics.is_empty());
}

#[test]
fn unsubscribe_drops_only_the_first_duplicate() {
    let mut client = Client::new(1);
    client.subscribe(String::from("as"), 0);
    client.subscribe(String::from("as"), 1);
    client.unsubscribe(String::from("as"));
    assert_eq!(client.topics.len(), 1);
    assert_eq!(client.topics[0].qos, 1);
}

#[test]
fn subscription_matching_respects_qos() {
    let mut client = Client::new(1);
    client.subscribe(String::from("as/ti/#"), 0);
    assert!(client.is_subscribed_to("as/ti/lle"));
    assert!(!client.is_subscribed_to_qos1("as/ti/lle"));
    client.subscribe(String::from("as/+/lle"), 1);
    assert!(client.is_subscribed_to_qos1("as/ti/lle"));
    assert!(!client.is_subscribed_to("ma/derero"));
}

#[test]
fn clearing_a_session_empties_subscriptions_and_queue() {
    let mut client = Client::new(7);
    client.subscribe(String::from("as"), 1);
    client.publishes_received.push(vec![0x3A, 0x00]);
    client.remove_subscriptions_and_queue();
    assert!(client.topics.is_empty());
    assert!(client.publishes_received.is_empty());
    assert_eq!(client.thread_id, 7);
}

#[test]
fn subscription_carries_its_topic_and_qos() {
    let subscription = Subscription { topic: String::from("as"), qos: 1 };
    assert_eq!(subscription.topic, "as");
    assert_eq!(subscription.qos, 1);
}

#[test]
fn older_record_subscribes_and_unsubscribes_too() {
    let mut cliente = mqtt_broker::server::cliente::Client::new(3);
    cliente.subscribe(String::from("as/#"));
    assert!(cliente.is_subscribed_to("as/ti"));
    cliente.unsubscribe(String::from("as/#"));
    assert!(!cliente.is_subscribed_to("as/ti"));
}

#[test]
fn first_matching_credentials_line_decides() {
    let credentials = "ana=uno\npepe=dos\nana=tres\n";
    assert!(user_and_password_correct("pepe", "dos", credentials));
    assert!(user_and_password_correct("ana", "uno", credentials));
    assert!(!user_and_password_correct("ana", "tres", credentials));
    assert!(!user_and_password_correct("otro", "x", credentials));
    assert!(!user_and_password_correct("pepe", "dos", ""));
}
