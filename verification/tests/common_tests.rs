use reki3::common::{hexstring, parse_info_hash, percent_decode};

#[test]
fn percent_decode_test() {
    // Successes
    assert_eq!(percent_decode("%1a").unwrap(), [26]);
    assert_eq!(percent_decode("%1A").unwrap(), [26]);
    assert_eq!(percent_decode("a").unwrap(), [97]);

    // Failures
    assert!(percent_decode("%").is_err()); //too short
    assert!(percent_decode("%a").is_err()); //too short
    assert!(percent_decode("%ak").is_err()); //not in [0-9a-f]
}

#[test]
fn hexstring_test() {
    assert_eq!(hexstring(&[0x5, 0x6]), "0506");
    assert_eq!(hexstring(&[0x0B, 0xf1]), "0bf1");
}

#[test]
fn parse_info_hash_test() {
    // Success
    assert_eq!(parse_info_hash("%124Vx%9A%BC%DE%F1%23Eg%89%AB%CD%EF%124Vx%9A").unwrap(), "123456789abcdef123456789abcdef123456789a");

    // Failures
    assert!(parse_info_hash("%124Vx%9A%BC%DE%F1%23Eg%89%AB%CD%EF%124Vx").is_err()); // too short
    assert!(parse_info_hash("%124Vx%9A%BC%DE%F1%23Eg%89%AB%CD%EF%124Vxab").is_err()); // too long
    assert!(parse_info_hash("%124Vx%9A%BC%DE%F1%23Eg%89%AB%CD%EF%124Vx%ZA").is_err()); // invalid percent encoding
}

#[test]
fn percent_decode_mixed_text_and_escapes() {
    assert_eq!(percent_decode("a%20b%ff").unwrap(), vec![b'a', b' ', b'b', 0xff]);
    assert_eq!(percent_decode("").unwrap(), Vec::<u8>::new());
    assert_eq!(percent_decode("%0G").unwrap_err(), "Invalid percent encoding");
    assert_eq!(percent_decode("ab%").unwrap_err(), "Invalid percent encoding");
}

#[test]
fn percent_decode_plain_text_is_unchanged() {
    assert_eq!(percent_decode("hello+world!").unwrap(), b"hello+world!".to_vec());
}

#[test]
fn percent_decode_of_escapes_in_either_case() {
    let bytes: Vec<u8> = vec![0x00, 0x7f, 0x80, 0xab, 0xff];
    let lower: String = bytes.iter().map(|b| format!("%{:02x}", b)).collect();
    let upper: String = bytes.iter().map(|b| format!("%{:02X}", b)).collect();
    assert_eq!(percent_decode(&lower).unwrap(), bytes);
    assert_eq!(percent_decode(&upper).unwrap(), bytes);
}

#[test]
fn hexstring_is_lowercase_and_twice_as_long() {
    let bytes: Vec<u8> = (0u8..=255).collect();
    let hex = hexstring(&bytes);
    assert_eq!(hex.len(), 512);
    assert!(hex.chars().all(|c| c.is_ascii_digit() || ('a'..='f').contains(&c)));
    assert_eq!(&hex[..6], "000102");
    assert_eq!(&hex[506..], "fdfeff");
    assert_eq!(hexstring(&[]), "");
}

#[test]
fn hexstring_distinguishes_inputs() {
    assert_ne!(hexstring(&[0x01, 0x23]), hexstring(&[0x12, 0x03]));
}

#[test]
fn parse_info_hash_error_messages() {
    assert_eq!(
        parse_info_hash("%124Vx%9A%BC%DE%F1%23Eg%89%AB%CD%EF%124Vx").unwrap_err(),
        "Info hash is invalid (too short)."
    );
    assert_eq!(
        parse_info_hash("%124Vx%9A%BC%DE%F1%23Eg%89%AB%CD%EF%124Vxab").unwrap_err(),
        "Info hash is invalid (too short)."
    );
    assert_eq!(parse_info_hash("%zz").unwrap_err(), "Invalid percent encoding");
}

#[test]
fn parse_info_hash_of_plain_bytes() {
    assert_eq!(
        parse_info_hash("aaaaaaaaaaaaaaaaaaaa").unwrap(),
        "6161616161616161616161616161616161616161"
    );
}
