use mqtt_broker::server::utils::{remaining_length_decode, remaining_length_encode};

#[test]
fn utils_test01_remaining_length_encode_correcto1() {
    assert_eq!(remaining_length_encode(64), vec![0x40]);
}

#[test]
fn utils_test02_remaining_length_encode_correcto2() {
    assert_eq!(remaining_length_encode(321), vec![0xC1, 0x02]);
}

#[test]
fn utils_test03_remaining_length_encode_incorrecto() {
    assert_ne!(remaining_length_encode(64), vec![0x42]);
}

#[test]
fn utils_test04_remaining_length_decode_correcto1() {
    assert_eq!(remaining_length_decode(&vec![0x40]), Ok(64));
}

#[test]
fn utils_test05_remaining_length_decode_correcto2() {
    assert_eq!(remaining_length_decode(&vec![0xC1, 0x02]), Ok(321));
}

#[test]
fn utils_test06_remaining_length_decode_incorrecto() {
    assert_ne!(remaining_length_decode(&vec![0x40]), Ok(60));
}

// The client's copies of the three encoder tests; its private decoder was
// folded into the broker's, so the decoder tests above are its subject's.
#[test]
fn client_utils_test01_remaining_length_encode_correcto1() {
    assert_eq!(mqtt_broker::client::utils::remaining_length_encode(64), vec![0x40]);
}

#[test]
fn client_utils_test02_remaining_length_encode_correcto2() {
    assert_eq!(
        mqtt_broker::client::utils::remaining_length_encode(321),
        vec![0xC1, 0x02]
    );
}

#[test]
fn client_utils_test03_remaining_length_encode_incorrecto() {
    assert_ne!(mqtt_broker::client::utils::remaining_length_encode(64), vec![0x42]);
}

#[test]
fn zero_encodes_as_one_byte() {
    // the field is one to four bytes: zero is the single byte 0x00
    assert_eq!(remaining_length_encode(0), vec![0x00]);
    assert_eq!(mqtt_broker::client::utils::remaining_length_encode(0), vec![0x00]);
    assert_eq!(remaining_length_decode(&vec![0x00]), Ok(0));
}

#[test]
fn remaining_length_round_trips_over_the_whole_range() {
    for value in [0usize, 1, 127, 128, 16383, 16384, 2097151, 2097152, 268435455] {
        let encoded = remaining_length_encode(value);
        assert!(1 <= encoded.len() && encoded.len() <= 4);
        assert_eq!(remaining_length_decode(&encoded), Ok(value));
    }
}

#[test]
fn remaining_length_decode_rejects_a_fifth_byte() {
    assert!(remaining_length_decode(&vec![0xFF, 0xFF, 0xFF, 0xFF, 0x7F]).is_err());
}

#[test]
fn remaining_length_encode_largest_value() {
    assert_eq!(remaining_length_encode(268435455), vec![0xFF, 0xFF, 0xFF, 0x7F]);
}

#[test]
fn client_encode_agrees_with_server_encode() {
    assert_eq!(
        mqtt_broker::client::utils::remaining_length_encode(321),
        remaining_length_encode(321)
    );
}
