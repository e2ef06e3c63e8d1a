use stream_dump::decimal::dec_u64;
use stream_dump::signer::{authorization_header_for, signature_for, Credentials};

fn creds() -> Credentials {
    Credentials {
        consumer_key: b"consumer".to_vec(),
        consumer_secret: b"consumer-secret".to_vec(),
        token: b"token".to_vec(),
        token_secret: b"token-secret".to_vec(),
    }
}

fn no_query() -> Vec<(Vec<u8>, Vec<u8>)> {
    Vec::new()
}

#[test]
fn same_nonce_and_timestamp_give_identical_headers() {
    let c = creds();
    let method = b"GET".to_vec();
    let url = b"https://example.org/stream".to_vec();
    let nonce = b"fixed-nonce".to_vec();
    let h1 = authorization_header_for(&c, &method, &url, &no_query(), &nonce, 1318622958);
    let h2 = authorization_header_for(&c, &method, &url, &no_query(), &nonce, 1318622958);
    assert_eq!(h1, h2);
}

#[test]
fn different_nonces_give_different_signatures() {
    let c = creds();
    let method = b"GET".to_vec();
    let url = b"https://example.org/stream".to_vec();
    let n1 = b"nonce-one".to_vec();
    let n2 = b"nonce-two".to_vec();
    let s1 = signature_for(&c, &method, &url, &no_query(), &n1, 1318622958);
    let s2 = signature_for(&c, &method, &url, &no_query(), &n2, 1318622958);
    assert_ne!(s1, s2);
    let h1 = authorization_header_for(&c, &method, &url, &no_query(), &n1, 1318622958);
    let h2 = authorization_header_for(&c, &method, &url, &no_query(), &n2, 1318622958);
    assert_ne!(h1, h2);
}

#[test]
fn signature_is_a_28_byte_base64_string() {
    let c = creds();
    let method = b"GET".to_vec();
    let url = b"https://example.org/stream".to_vec();
    let nonce = b"nonce".to_vec();
    let sig = signature_for(&c, &method, &url, &no_query(), &nonce, 1);
    assert_eq!(sig.len(), 28);
    for &b in &sig {
        let alphabet = b.is_ascii_alphanumeric() || b == b'+' || b == b'/' || b == b'=';
        assert!(alphabet);
    }
}

#[test]
fn header_matches_the_oauth_grammar() {
    let c = creds();
    let method = b"GET".to_vec();
    let url = b"https://example.org/stream?a=1".to_vec();
    let nonce = b"a nonce with spaces".to_vec();
    let header = authorization_header_for(&c, &method, &url, &no_query(), &nonce, 1318622958);
    let text = String::from_utf8(header).expect("header is ASCII");
    let rest = text.strip_prefix("OAuth ").expect("scheme prefix");
    let fields: Vec<&str> = rest.split(", ").collect();
    assert_eq!(fields.len(), 7);
    let expected_keys = [
        "oauth_consumer_key",
        "oauth_nonce",
        "oauth_signature",
        "oauth_signature_method",
        "oauth_timestamp",
        "oauth_token",
        "oauth_version",
    ];
    for (field, key) in fields.iter().zip(expected_keys.iter()) {
        let (k, v) = field.split_once('=').expect("key=value shape");
        assert_eq!(&k, key);
        assert!(v.starts_with('"') && v.ends_with('"') && v.len() >= 2);
        let inner = &v[1..v.len() - 1];
        for ch in inner.chars() {
            let ok = ch.is_ascii_alphanumeric() || ch == '-' || ch == '.' || ch == '_'
                || ch == '~' || ch == '%';
            assert!(ok);
        }
    }
}

#[test]
fn header_carries_the_given_nonce_and_timestamp() {
    let c = creds();
    let method = b"GET".to_vec();
    let url = b"https://example.org/stream".to_vec();
    let nonce = b"mynonce".to_vec();
    let header = authorization_header_for(&c, &method, &url, &no_query(), &nonce, 1318622958);
    let text = String::from_utf8(header).expect("header is ASCII");
    assert!(text.contains("oauth_nonce=\"mynonce\""));
    assert!(text.contains("oauth_timestamp=\"1318622958\""));
    assert!(text.contains("oauth_version=\"1.0\""));
    assert!(text.contains("oauth_signature_method=\"HMAC-SHA1\""));
}

#[test]
fn query_insertion_order_does_not_change_the_signature() {
    let c = creds();
    let method = b"GET".to_vec();
    let url = b"https://example.org/stream".to_vec();
    let nonce = b"nonce".to_vec();
    let q1 = vec![(b"a".to_vec(), b"1".to_vec()), (b"b".to_vec(), b"2".to_vec())];
    let q2 = vec![(b"b".to_vec(), b"2".to_vec()), (b"a".to_vec(), b"1".to_vec())];
    let s1 = signature_for(&c, &method, &url, &q1, &nonce, 7);
    let s2 = signature_for(&c, &method, &url, &q2, &nonce, 7);
    assert_eq!(s1, s2);
}

#[test]
fn query_parameters_change_the_signature() {
    let c = creds();
    let method = b"GET".to_vec();
    let url = b"https://example.org/stream".to_vec();
    let nonce = b"nonce".to_vec();
    let q1 = vec![(b"a".to_vec(), b"1".to_vec())];
    let s1 = signature_for(&c, &method, &url, &q1, &nonce, 7);
    let s2 = signature_for(&c, &method, &url, &no_query(), &nonce, 7);
    assert_ne!(s1, s2);
}

#[test]
fn timestamps_render_in_decimal() {
    assert_eq!(dec_u64(0), b"0".to_vec());
    assert_eq!(dec_u64(10), b"10".to_vec());
    assert_eq!(dec_u64(1318622958), b"1318622958".to_vec());
    assert_eq!(dec_u64(u64::MAX), b"18446744073709551615".to_vec());
}
