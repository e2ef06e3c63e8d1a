//! The signed request descriptor: for one connection attempt, the target URL
//! and the computed `Authorization` value, created fresh per attempt. The
//! method is fixed: this client only issues GET requests.

use vstd::prelude::*;
use crate::params::{copy_bytes, pairs_view};
use crate::signer::{authorization_header, authorization_header_for, Credentials};
use crate::decimal::dec_digits;
use crate::url::{parse_query, url_base, url_query, url_well_formed, RequestUrl, UrlError};

verus! {

/// The byte string `GET`.
pub open spec fn get_method() -> Seq<u8> {
    seq![0x47u8, 0x45, 0x54]
}

/// Renders the fixed HTTP method.
pub fn get_method_bytes() -> (r: Vec<u8>)
    ensures
        r@ == get_method(),
{
    let r: Vec<u8> = vec![0x47u8, 0x45, 0x54];
    proof {
        assert(r@ =~= get_method());
    }
    r
}

/// One ready-to-send request: the URL to ask for and the header value that
/// authorizes it.
pub struct SignedRequest {
    pub url: Vec<u8>,
    pub authorization: Vec<u8>,
}

/// The header value owed for a GET of `url` under `creds` with this nonce and
/// timestamp.
pub open spec fn signed_get_header(
    ck: Seq<u8>,
    cs: Seq<u8>,
    tk: Seq<u8>,
    tsec: Seq<u8>,
    url: Seq<u8>,
    nonce: Seq<u8>,
    timestamp: nat,
) -> Seq<u8> {
    authorization_header(
        ck,
        cs,
        tk,
        tsec,
        get_method(),
        url_base(url),
        parse_query(url_query(url))->0,
        nonce,
        dec_digits(timestamp),
    )
}

/// Builds the signed GET request for `url`: parses the URL, signs over its
/// base and decoded query, and serializes the header. Fails exactly on a
/// malformed URL, before any connection is attempted.
pub fn signed_get_request(
    creds: &Credentials,
    url: &Vec<u8>,
    nonce: &Vec<u8>,
    timestamp: u64,
) -> (r: Result<SignedRequest, UrlError>)
    ensures
        r is Ok <==> url_well_formed(url@),
        r is Ok ==> r->Ok_0.url@ == url@,
        r is Ok ==> r->Ok_0.authorization@ == signed_get_header(
            creds.consumer_key@,
            creds.consumer_secret@,
            creds.token@,
            creds.token_secret@,
            url@,
            nonce@,
            timestamp as nat,
        ),
{
    let parsed = match RequestUrl::parse(url) {
        Ok(p) => p,
        Err(e) => {
            return Err(e);
        },
    };
    let method = get_method_bytes();
    let authorization = authorization_header_for(
        creds,
        &method,
        &parsed.base,
        &parsed.query,
        nonce,
        timestamp,
    );
    proof {
        assert(pairs_view(parsed.query@) == parse_query(url_query(url@))->0);
    }
    Ok(SignedRequest { url: copy_bytes(url), authorization })
}

} // verus!
