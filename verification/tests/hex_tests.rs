use pi_codec::hex_codec::{hex_to_bytes, to_hex, HexError};
use pi_codec::load_pi;
use pi_codec::matcher::find_verified_match;

#[test]
fn to_hex_renders_lowercase_pairs() {
    assert_eq!(to_hex(&[0x00, 0x1f, 0xab, 0xff]), "001fabff");
    assert_eq!(to_hex(&[0x31, 0x41]), "3141");
    assert_eq!(to_hex(&[]), "");
}

#[test]
fn to_hex_doubles_the_length() {
    let bytes: Vec<u8> = (0..=255).collect();
    assert_eq!(to_hex(&bytes).len(), 2 * bytes.len());
}

#[test]
fn hex_to_bytes_decodes_pairs() {
    assert_eq!(hex_to_bytes("3141"), Ok(vec![0x31, 0x41]));
    assert_eq!(hex_to_bytes(""), Ok(Vec::new()));
}

#[test]
fn hex_to_bytes_accepts_uppercase() {
    assert_eq!(hex_to_bytes("4Af9"), Ok(vec![0x4a, 0xf9]));
}

#[test]
fn hex_to_bytes_rejects_odd_length() {
    assert_eq!(hex_to_bytes("123"), Err(HexError::OddLength));
}

#[test]
fn hex_to_bytes_rejects_non_digit() {
    assert_eq!(hex_to_bytes("zz"), Err(HexError::InvalidDigit));
}

#[test]
fn hex_round_trip_on_raw_bytes() {
    let bytes: Vec<u8> = (0..=255).collect();
    assert_eq!(hex_to_bytes(&to_hex(&bytes)), Ok(bytes));
}

#[test]
fn find_verified_match_reports_position_and_hex_length() {
    let dict = "3141592653589793238462643383279502884197169399375105820974944";
    assert_eq!(find_verified_match(&[0x31], dict), Some((0, 2)));
    assert_eq!(find_verified_match(&[0x31, 0x41], dict), Some((0, 4)));
    assert_eq!(find_verified_match(&[0x59, 0x26], dict), Some((4, 4)));
    assert_eq!(find_verified_match(&[0xff], dict), None);
}

#[test]
fn builtin_dictionary_is_a_digit_run() {
    let pi = load_pi();
    assert!(pi.starts_with("31415926535897932384626433832795"));
    assert_eq!(pi.len(), 201);
    assert!(pi.chars().all(|c| c.is_ascii_digit()));
}
