use stream_dump::params::normalize_params;

fn pair(k: &[u8], v: &[u8]) -> (Vec<u8>, Vec<u8>) {
    (k.to_vec(), v.to_vec())
}

#[test]
fn normalizes_sorted_and_joined() {
    let ps = vec![pair(b"b", b"2"), pair(b"a", b"1")];
    let out = normalize_params(&ps);
    assert_eq!(out, b"a=1&b=2".to_vec());
}

#[test]
fn insertion_order_does_not_matter() {
    let first = vec![pair(b"a", b"1"), pair(b"b", b"2"), pair(b"oauth_nonce", b"n")];
    let second = vec![pair(b"oauth_nonce", b"n"), pair(b"b", b"2"), pair(b"a", b"1")];
    assert_eq!(normalize_params(&first), normalize_params(&second));
}

#[test]
fn oauth_keys_interleave_alphabetically() {
    let ps = vec![
        pair(b"oauth_nonce", b"n"),
        pair(b"a", b"1"),
        pair(b"z", b"9"),
        pair(b"b", b"2"),
    ];
    let out = normalize_params(&ps);
    assert_eq!(out, b"a=1&b=2&oauth_nonce=n&z=9".to_vec());
}

#[test]
fn keys_and_values_are_encoded_before_sorting() {
    let ps = vec![pair(b"a b", b"c/d")];
    let out = normalize_params(&ps);
    assert_eq!(out, b"a%20b=c%2Fd".to_vec());
}

#[test]
fn equal_keys_sort_by_value() {
    let ps = vec![pair(b"k", b"2"), pair(b"k", b"1")];
    let out = normalize_params(&ps);
    assert_eq!(out, b"k=1&k=2".to_vec());
}

#[test]
fn empty_list_normalizes_to_empty() {
    let ps: Vec<(Vec<u8>, Vec<u8>)> = Vec::new();
    let out = normalize_params(&ps);
    assert!(out.is_empty());
}
