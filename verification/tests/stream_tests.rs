use stream_dump::stream::{accept_status, pump_chunks, StreamError};

#[test]
fn status_200_opens_the_stream() {
    assert!(accept_status(200).is_ok());
}

#[test]
fn status_401_fails_fatally_with_the_observed_code() {
    let e = accept_status(401).expect_err("non-200 must fail");
    assert_eq!(e, StreamError::Status(401));
    assert_eq!(accept_status(503).expect_err("non-200 must fail"), StreamError::Status(503));
}

#[test]
fn pump_copies_the_stream_byte_for_byte() {
    let chunks = vec![b"abc".to_vec(), b"".to_vec(), b"defgh".to_vec(), vec![0u8, 255u8]];
    let out = pump_chunks(&chunks);
    let mut expected: Vec<u8> = Vec::new();
    for c in &chunks {
        expected.extend_from_slice(c);
    }
    assert_eq!(out, expected);
    assert_eq!(out.len(), 10);
}

#[test]
fn pump_of_an_empty_stream_writes_nothing() {
    let chunks: Vec<Vec<u8>> = Vec::new();
    assert!(pump_chunks(&chunks).is_empty());
}
