use stream_dump::percent::{percent_decode, percent_encode};

#[test]
fn encode_leaves_unreserved_alone() {
    let input = b"Abc-._~019xyzZ".to_vec();
    let out = percent_encode(&input);
    assert_eq!(out, input);
}

#[test]
fn encode_escapes_with_uppercase_hex() {
    let out = percent_encode(b"a b!/");
    assert_eq!(out, b"a%20b%21%2F".to_vec());
}

#[test]
fn encode_empty_is_empty() {
    let out = percent_encode(b"");
    assert!(out.is_empty());
}

#[test]
fn encode_escapes_every_non_ascii_byte() {
    let out = percent_encode(&[0x00, 0xff]);
    assert_eq!(out, b"%00%FF".to_vec());
}

#[test]
fn decode_inverts_encode() {
    let mut input: Vec<u8> = Vec::new();
    let mut b: u16 = 0;
    while b < 256 {
        input.push(b as u8);
        b += 1;
    }
    let encoded = percent_encode(&input);
    let decoded = percent_decode(&encoded).expect("encoder output is well formed");
    assert_eq!(decoded, input);
}

#[test]
fn decode_accepts_lowercase_hex() {
    let out = percent_decode(b"a%2fb").expect("valid escape");
    assert_eq!(out, b"a/b".to_vec());
}

#[test]
fn decode_rejects_bad_escape() {
    assert!(percent_decode(b"%G1").is_none());
    assert!(percent_decode(b"ab%2").is_none());
    assert!(percent_decode(b"tail%").is_none());
}
