use etch::input::{decode_payload, decode_secret, HexError};

#[test]
fn payload_from_hex_digits_either_case() {
    let mut text = String::new();
    for i in 0..256usize {
        if i % 2 == 0 {
            text.push_str(&format!("{:02x}", i as u8));
        } else {
            text.push_str(&format!("{:02X}", i as u8));
        }
    }
    let payload = match decode_payload(text.as_bytes()) {
        Ok(p) => p,
        Err(_) => panic!("valid payload hex was refused"),
    };
    for i in 0..256usize {
        assert_eq!(payload.0[i], i as u8);
    }
}

#[test]
fn payload_of_wrong_length_names_the_length() {
    assert!(matches!(decode_payload(b"0a0b0c"), Err(HexError::WrongLength(3))));
    assert!(matches!(decode_payload(b""), Err(HexError::WrongLength(0))));
    let long = "00".repeat(257);
    assert!(matches!(decode_payload(long.as_bytes()), Err(HexError::WrongLength(257))));
}

#[test]
fn malformed_hex_is_refused() {
    assert!(matches!(decode_payload(b"abc"), Err(HexError::Malformed(_))));
    let mut bad = "00".repeat(256);
    bad.replace_range(10..11, "g");
    assert!(matches!(decode_payload(bad.as_bytes()), Err(HexError::Malformed(_))));
    assert!(matches!(decode_secret(b"0x00"), Err(HexError::Malformed(_))));
}

#[test]
fn secret_from_hex() {
    let text = "0a".repeat(32);
    let secret = match decode_secret(text.as_bytes()) {
        Ok(s) => s,
        Err(_) => panic!("valid secret hex was refused"),
    };
    assert_eq!(secret, [10u8; 32]);
    assert!(matches!(decode_secret(b"0a0a"), Err(HexError::WrongLength(2))));
}
