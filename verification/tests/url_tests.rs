use stream_dump::url::{RequestUrl, UrlError};

#[test]
fn splits_base_query_and_fragment() {
    let u = b"https://example.org/path?a=1&b=2#frag".to_vec();
    let parsed = RequestUrl::parse(&u).expect("well formed");
    assert_eq!(parsed.base, b"https://example.org/path".to_vec());
    assert_eq!(parsed.query.len(), 2);
    assert_eq!(parsed.query[0], (b"a".to_vec(), b"1".to_vec()));
    assert_eq!(parsed.query[1], (b"b".to_vec(), b"2".to_vec()));
}

#[test]
fn url_without_query_has_no_pairs() {
    let u = b"https://userstream.twitter.com/1.1/user.json".to_vec();
    let parsed = RequestUrl::parse(&u).expect("well formed");
    assert_eq!(parsed.base, u);
    assert!(parsed.query.is_empty());
}

#[test]
fn plain_http_is_accepted() {
    let u = b"http://example.org/".to_vec();
    let parsed = RequestUrl::parse(&u).expect("well formed");
    assert_eq!(parsed.base, u);
}

#[test]
fn unknown_scheme_is_a_fatal_construction_error() {
    let u = b"ftp://example.org/".to_vec();
    assert_eq!(RequestUrl::parse(&u).err(), Some(UrlError::Scheme));
    let empty = Vec::new();
    assert_eq!(RequestUrl::parse(&empty).err(), Some(UrlError::Scheme));
    let bare = b"https://".to_vec();
    assert_eq!(RequestUrl::parse(&bare).err(), Some(UrlError::Scheme));
}

#[test]
fn malformed_escape_in_query_is_rejected() {
    let u = b"https://example.org/p?a=%zz".to_vec();
    assert_eq!(RequestUrl::parse(&u).err(), Some(UrlError::Query));
}

#[test]
fn query_components_are_percent_decoded() {
    let u = b"https://example.org/p?a%20b=c%2Fd&flag".to_vec();
    let parsed = RequestUrl::parse(&u).expect("well formed");
    assert_eq!(parsed.query[0], (b"a b".to_vec(), b"c/d".to_vec()));
    assert_eq!(parsed.query[1], (b"flag".to_vec(), b"".to_vec()));
}
