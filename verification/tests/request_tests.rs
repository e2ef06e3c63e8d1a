use stream_dump::request::signed_get_request;
use stream_dump::signer::Credentials;
use stream_dump::url::UrlError;

fn test_creds() -> Credentials {
    Credentials {
        consumer_key: b"ck".to_vec(),
        consumer_secret: b"cs".to_vec(),
        token: b"tk".to_vec(),
        token_secret: b"ts".to_vec(),
    }
}

#[test]
fn builds_a_signed_get_for_the_streaming_endpoint() {
    let url = b"https://userstream.twitter.com/1.1/user.json".to_vec();
    let nonce = b"nonce".to_vec();
    let req = signed_get_request(&test_creds(), &url, &nonce, 1318622958).expect("well-formed URL");
    assert_eq!(req.url, url);
    let text = String::from_utf8(req.authorization).expect("header is ASCII");
    assert!(text.starts_with("OAuth "));
    assert!(text.contains("oauth_consumer_key=\"ck\""));
    assert!(text.contains("oauth_token=\"tk\""));
}

#[test]
fn signing_is_deterministic_through_the_whole_request() {
    let url = b"https://example.org/s?a=1".to_vec();
    let nonce = b"n".to_vec();
    let r1 = signed_get_request(&test_creds(), &url, &nonce, 5).expect("well-formed URL");
    let r2 = signed_get_request(&test_creds(), &url, &nonce, 5).expect("well-formed URL");
    assert_eq!(r1.authorization, r2.authorization);
}

#[test]
fn query_order_in_the_url_does_not_change_the_signature() {
    let nonce = b"n".to_vec();
    let u1 = b"https://example.org/s?a=1&b=2".to_vec();
    let u2 = b"https://example.org/s?b=2&a=1".to_vec();
    let r1 = signed_get_request(&test_creds(), &u1, &nonce, 5).expect("well-formed URL");
    let r2 = signed_get_request(&test_creds(), &u2, &nonce, 5).expect("well-formed URL");
    let sig = |t: &str| {
        let start = t.find("oauth_signature=\"").expect("signature field") + 17;
        let end = t[start..].find('"').expect("closing quote") + start;
        t[start..end].to_string()
    };
    let t1 = String::from_utf8(r1.authorization).expect("ASCII");
    let t2 = String::from_utf8(r2.authorization).expect("ASCII");
    assert_eq!(sig(&t1), sig(&t2));
}

#[test]
fn a_malformed_url_is_a_fatal_construction_error() {
    let nonce = b"n".to_vec();
    let bad = b"notaurl".to_vec();
    assert!(matches!(signed_get_request(&test_creds(), &bad, &nonce, 5), Err(UrlError::Scheme)));
    let bad_query = b"https://example.org/s?a=%q".to_vec();
    assert!(matches!(signed_get_request(&test_creds(), &bad_query, &nonce, 5), Err(UrlError::Query)));
}
