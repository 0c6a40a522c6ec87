use mqtt_broker::server::wildcard::compare_topic;

#[test]
fn test01_prueba_wildcard_no_debe_matchear() {
    let topic = String::from("sport/tennis/picnic/paco");
    let subscription = String::from("sport/+/+");
    assert!(!compare_topic(&topic, &subscription));
}

#[test]
fn test02_prueba_wildcard_debe_matchear() {
    let topic = String::from("sport/tennis/player1/ranking");
    let subscription = String::from("sport/tennis/player1/#");
    assert!(compare_topic(&topic, &subscription));
}

#[test]
fn test03_prueba_wildcard_debe_matchear() {
    let topic = String::from("sport/tennis/player1");
    let subscription = String::from("sport/tennis/player1/#");
    assert!(compare_topic(&topic, &subscription));
}

#[test]
fn test04_prueba_wildcard_debe_matchear() {
    let topic = String::from("sport/tennis/player1/score/wimbledon");
    let subscription = String::from("sport/tennis/player1/#");
    assert!(compare_topic(&topic, &subscription));
}

#[test]
fn test05_prueba_wildcard_debe_matchear() {
    let topic = String::from("sport/tennis/pijama/coconut");
    let subscription = String::from("sport/tennis/+/coconut");
    assert!(compare_topic(&topic, &subscription));
}

#[test]
fn test06_prueba_wildcard_debe_matchear() {
    let topic = String::from("sport/tennis/player2/coconut");
    let subscription = String::from("sport/tennis/+/coconut");
    assert!(compare_topic(&topic, &subscription));
}

#[test]
fn test07_prueba_wildcard_no_debe_matchear() {
    let topic = String::from("sport/tennis/player2/miranda/coconut");
    let subscription = String::from("sport/tennis/+/coconut");
    assert!(!compare_topic(&topic, &subscription));
}

#[test]
fn test08_prueba_wildcard_no_debe_matchear() {
    let topic = String::from("sport/tennis");
    let subscription = String::from("sport/tennis/+");
    assert!(!compare_topic(&topic, &subscription));
}

#[test]
fn wildcard_is_pure_on_repeated_calls() {
    let topic = String::from("as/ti/lle/ro");
    let subscription = String::from("as/ti/#");
    let first = compare_topic(&topic, &subscription);
    let second = compare_topic(&topic, &subscription);
    assert_eq!(first, second);
    assert!(first);
}

#[test]
fn wildcard_hash_only_matches_everything() {
    assert!(compare_topic("a", "#"));
    assert!(compare_topic("a/b/c", "#"));
}

#[test]
fn wildcard_misplaced_hash_matches_nothing() {
    assert!(!compare_topic("a/x/b", "a/#/b"));
    assert!(!compare_topic("a/b", "a/#/b"));
}
