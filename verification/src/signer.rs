//! OAuth 1.0a request signing (RFC 5849 §3): protocol parameters, signature
//! base string, HMAC-SHA1 signing key, and the serialized `Authorization`
//! header value. The HMAC-SHA1 digest and its base64 rendering come from
//! outside crates behind trusted wrappers; everything around them is verified.

use vstd::prelude::*;
use crate::decimal::{dec_digits, dec_u64};
use crate::params::{
    append_bytes, copy_bytes, normalize_params, normalized_params, pairs_view, pair_view,
};
use crate::percent::{
    encoded_charset_ok, lemma_percent_encoding_charset, percent_encode, percent_encoding,
};

verus! {

/// The byte string `oauth_consumer_key`.
pub open spec fn key_consumer_key() -> Seq<u8> {
    seq![0x6fu8, 0x61, 0x75, 0x74, 0x68, 0x5f, 0x63, 0x6f, 0x6e, 0x73, 0x75, 0x6d, 0x65, 0x72,
        0x5f, 0x6b, 0x65, 0x79]
}

/// The byte string `oauth_nonce`.
pub open spec fn key_nonce() -> Seq<u8> {
    seq![0x6fu8, 0x61, 0x75, 0x74, 0x68, 0x5f, 0x6e, 0x6f, 0x6e, 0x63, 0x65]
}

/// The byte string `oauth_signature`.
pub open spec fn key_signature() -> Seq<u8> {
    seq![0x6fu8, 0x61, 0x75, 0x74, 0x68, 0x5f, 0x73, 0x69, 0x67, 0x6e, 0x61, 0x74, 0x75, 0x72,
        0x65]
}

/// The byte string `oauth_signature_method`.
pub open spec fn key_signature_method() -> Seq<u8> {
    seq![0x6fu8, 0x61, 0x75, 0x74, 0x68, 0x5f, 0x73, 0x69, 0x67, 0x6e, 0x61, 0x74, 0x75, 0x72,
        0x65, 0x5f, 0x6d, 0x65, 0x74, 0x68, 0x6f, 0x64]
}

/// The byte string `oauth_timestamp`.
pub open spec fn key_timestamp() -> Seq<u8> {
    seq![0x6fu8, 0x61, 0x75, 0x74, 0x68, 0x5f, 0x74, 0x69, 0x6d, 0x65, 0x73, 0x74, 0x61, 0x6d,
        0x70]
}

/// The byte string `oauth_token`.
pub open spec fn key_token() -> Seq<u8> {
    seq![0x6fu8, 0x61, 0x75, 0x74, 0x68, 0x5f, 0x74, 0x6f, 0x6b, 0x65, 0x6e]
}

/// The byte string `oauth_version`.
pub open spec fn key_version() -> Seq<u8> {
    seq![0x6fu8, 0x61, 0x75, 0x74, 0x68, 0x5f, 0x76, 0x65, 0x72, 0x73, 0x69, 0x6f, 0x6e]
}

/// The byte string `HMAC-SHA1`.
pub open spec fn hmac_sha1_name() -> Seq<u8> {
    seq![0x48u8, 0x4d, 0x41, 0x43, 0x2d, 0x53, 0x48, 0x41, 0x31]
}

/// The byte string `1.0`.
pub open spec fn version_value() -> Seq<u8> {
    seq![0x31u8, 0x2e, 0x30]
}

/// The byte string `OAuth ` that opens the header value.
pub open spec fn oauth_scheme() -> Seq<u8> {
    seq![0x4fu8, 0x41, 0x75, 0x74, 0x68, 0x20]
}

pub fn key_consumer_key_bytes() -> (r: Vec<u8>)
    ensures
        r@ == key_consumer_key(),
{
    let r: Vec<u8> = vec![0x6fu8, 0x61, 0x75, 0x74, 0x68, 0x5f, 0x63, 0x6f, 0x6e, 0x73, 0x75,
        0x6d, 0x65, 0x72, 0x5f, 0x6b, 0x65, 0x79];
    proof {
        assert(r@ =~= key_consumer_key());
    }
    r
}

pub fn key_nonce_bytes() -> (r: Vec<u8>)
    ensures
        r@ == key_nonce(),
{
    let r: Vec<u8> = vec![0x6fu8, 0x61, 0x75, 0x74, 0x68, 0x5f, 0x6e, 0x6f, 0x6e, 0x63, 0x65];
    proof {
        assert(r@ =~= key_nonce());
    }
    r
}

pub fn key_signature_bytes() -> (r: Vec<u8>)
    ensures
        r@ == key_signature(),
{
    let r: Vec<u8> = vec![0x6fu8, 0x61, 0x75, 0x74, 0x68, 0x5f, 0x73, 0x69, 0x67, 0x6e, 0x61,
        0x74, 0x75, 0x72, 0x65];
    proof {
        assert(r@ =~= key_signature());
    }
    r
}

pub fn key_signature_method_bytes() -> (r: Vec<u8>)
    ensures
        r@ == key_signature_method(),
{
    let r: Vec<u8> = vec![0x6fu8, 0x61, 0x75, 0x74, 0x68, 0x5f, 0x73, 0x69, 0x67, 0x6e, 0x61,
        0x74, 0x75, 0x72, 0x65, 0x5f, 0x6d, 0x65, 0x74, 0x68, 0x6f, 0x64];
    proof {
        assert(r@ =~= key_signature_method());
    }
    r
}

pub fn key_timestamp_bytes() -> (r: Vec<u8>)
    ensures
        r@ == key_timestamp(),
{
    let r: Vec<u8> = vec![0x6fu8, 0x61, 0x75, 0x74, 0x68, 0x5f, 0x74, 0x69, 0x6d, 0x65, 0x73,
        0x74, 0x61, 0x6d, 0x70];
    proof {
        assert(r@ =~= key_timestamp());
    }
    r
}

pub fn key_token_bytes() -> (r: Vec<u8>)
    ensures
        r@ == key_token(),
{
    let r: Vec<u8> = vec![0x6fu8, 0x61, 0x75, 0x74, 0x68, 0x5f, 0x74, 0x6f, 0x6b, 0x65, 0x6e];
    proof {
        assert(r@ =~= key_token());
    }
    r
}

pub fn key_version_bytes() -> (r: Vec<u8>)
    ensures
        r@ == key_version(),
{
    let r: Vec<u8> = vec![0x6fu8, 0x61, 0x75, 0x74, 0x68, 0x5f, 0x76, 0x65, 0x72, 0x73, 0x69,
        0x6f, 0x6e];
    proof {
        assert(r@ =~= key_version());
    }
    r
}

pub fn hmac_sha1_name_bytes() -> (r: Vec<u8>)
    ensures
        r@ == hmac_sha1_name(),
{
    let r: Vec<u8> = vec![0x48u8, 0x4d, 0x41, 0x43, 0x2d, 0x53, 0x48, 0x41, 0x31];
    proof {
        assert(r@ =~= hmac_sha1_name());
    }
    r
}

pub fn version_value_bytes() -> (r: Vec<u8>)
    ensures
        r@ == version_value(),
{
    let r: Vec<u8> = vec![0x31u8, 0x2e, 0x30];
    proof {
        assert(r@ =~= version_value());
    }
    r
}

pub fn oauth_scheme_bytes() -> (r: Vec<u8>)
    ensures
        r@ == oauth_scheme(),
{
    let r: Vec<u8> = vec![0x4fu8, 0x41, 0x75, 0x74, 0x68, 0x20];
    proof {
        assert(r@ =~= oauth_scheme());
    }
    r
}

/// The HMAC-SHA1 digest of `msg` under `key`: a fixed function of its
/// arguments, named rather than restated.
pub uninterp spec fn hmac_sha1_of(key: Seq<u8>, msg: Seq<u8>) -> Seq<u8>;

/// The standard (padded) base64 rendering of a byte string: a fixed function
/// of its argument, named rather than restated.
pub uninterp spec fn base64_of(s: Seq<u8>) -> Seq<u8>;

/// Relies on the `hmac` crate's `Hmac<Sha1>`: the digest depends on key and
/// message alone, `new_from_slice` accepts keys of any length, and a SHA-1
/// based MAC is 20 bytes.
#[verifier::external_body]
fn hmac_sha1(key: &[u8], msg: &[u8]) -> (r: Vec<u8>)
    ensures
        r@ == hmac_sha1_of(key@, msg@),
        r@.len() == 20,
{
    let mut mac = <hmac::Hmac<sha1::Sha1> as hmac::Mac>::new_from_slice(key).expect(
        "HMAC accepts keys of any length",
    );
    hmac::Mac::update(&mut mac, msg);
    hmac::Mac::finalize(mac).into_bytes().to_vec()
}

/// Relies on the `base64` crate's `STANDARD` engine: the output depends on the
/// input alone and a padded encoding has four bytes per three-byte group. The
/// length bound keeps the engine's output-size computation from overflowing.
#[verifier::external_body]
fn base64_encode(data: &[u8]) -> (r: Vec<u8>)
    requires
        data@.len() <= 0x10000000,
    ensures
        r@ == base64_of(data@),
        r@.len() == ((data@.len() + 2) / 3) * 4,
{
    base64::Engine::encode(&base64::engine::general_purpose::STANDARD, data).into_bytes()
}

/// The credential set a signer works from: four opaque byte strings, fixed for
/// the life of the process.
pub struct Credentials {
    pub consumer_key: Vec<u8>,
    pub consumer_secret: Vec<u8>,
    pub token: Vec<u8>,
    pub token_secret: Vec<u8>,
}

/// ASCII uppercase of one byte.
pub open spec fn upper_byte(b: u8) -> u8 {
    if 0x61 <= b && b <= 0x7a {
        (b - 0x20) as u8
    } else {
        b
    }
}

/// ASCII uppercase of a byte string.
pub open spec fn uppercased(s: Seq<u8>) -> Seq<u8> {
    s.map_values(|b: u8| upper_byte(b))
}

/// Uppercases the HTTP method for the base string.
pub fn uppercase(s: &Vec<u8>) -> (r: Vec<u8>)
    ensures
        r@ == uppercased(s@),
{
    let mut r: Vec<u8> = Vec::new();
    let mut i: usize = 0;
    proof {
        assert(r@ =~= uppercased(s@.take(0)));
    }
    while i < s.len()
        invariant
            i <= s@.len(),
            r@ == uppercased(s@.take(i as int)),
        decreases s@.len() - i,
    {
        let b = s[i];
        if 0x61 <= b && b <= 0x7a {
            r.push(b - 0x20);
        } else {
            r.push(b);
        }
        proof {
            assert(r@ =~= uppercased(s@.take(i as int + 1)));
        }
        i = i + 1;
    }
    proof {
        assert(s@.take(s@.len() as int) =~= s@);
    }
    r
}

/// The six protocol parameters a signing run contributes, before the
/// signature itself, in construction order.
pub open spec fn protocol_params(ck: Seq<u8>, tk: Seq<u8>, nonce: Seq<u8>, stamp: Seq<u8>) -> Seq<
    (Seq<u8>, Seq<u8>),
> {
    seq![
        (key_consumer_key(), ck),
        (key_nonce(), nonce),
        (key_signature_method(), hmac_sha1_name()),
        (key_timestamp(), stamp),
        (key_token(), tk),
        (key_version(), version_value()),
    ]
}

/// The signature base string (RFC 5849 §3.4.1): uppercase method, encoded
/// base URL and encoded normalized parameters, joined with `&`.
pub open spec fn base_string(
    method: Seq<u8>,
    base_url: Seq<u8>,
    params: Seq<(Seq<u8>, Seq<u8>)>,
) -> Seq<u8> {
    uppercased(method) + seq![0x26u8] + percent_encoding(base_url) + seq![0x26u8]
        + percent_encoding(normalized_params(params))
}

/// The HMAC-SHA1 signing key: encoded consumer secret and token secret joined
/// with `&`.
pub open spec fn signing_key(cs: Seq<u8>, tsec: Seq<u8>) -> Seq<u8> {
    percent_encoding(cs) + seq![0x26u8] + percent_encoding(tsec)
}

/// The base64 HMAC-SHA1 signature of one request.
pub open spec fn signature_bytes(
    ck: Seq<u8>,
    cs: Seq<u8>,
    tk: Seq<u8>,
    tsec: Seq<u8>,
    method: Seq<u8>,
    base_url: Seq<u8>,
    query: Seq<(Seq<u8>, Seq<u8>)>,
    nonce: Seq<u8>,
    stamp: Seq<u8>,
) -> Seq<u8> {
    base64_of(
        hmac_sha1_of(
            signing_key(cs, tsec),
            base_string(method, base_url, protocol_params(ck, tk, nonce, stamp) + query),
        ),
    )
}

/// The seven header fields, in serialization order.
pub open spec fn header_pairs(
    ck: Seq<u8>,
    tk: Seq<u8>,
    nonce: Seq<u8>,
    stamp: Seq<u8>,
    sig: Seq<u8>,
) -> Seq<(Seq<u8>, Seq<u8>)> {
    seq![
        (key_consumer_key(), ck),
        (key_nonce(), nonce),
        (key_signature(), sig),
        (key_signature_method(), hmac_sha1_name()),
        (key_timestamp(), stamp),
        (key_token(), tk),
        (key_version(), version_value()),
    ]
}

/// One serialized header field: `key="encoded-value"`.
pub open spec fn field_bytes(p: (Seq<u8>, Seq<u8>)) -> Seq<u8> {
    p.0 + seq![0x3du8, 0x22u8] + percent_encoding(p.1) + seq![0x22u8]
}

/// Header fields joined with `, `.
pub open spec fn joined_fields(ps: Seq<(Seq<u8>, Seq<u8>)>) -> Seq<u8>
    decreases ps.len(),
{
    if ps.len() == 0 {
        Seq::empty()
    } else if ps.len() == 1 {
        field_bytes(ps[0])
    } else {
        field_bytes(ps[0]) + seq![0x2cu8, 0x20u8] + joined_fields(ps.skip(1))
    }
}

/// The whole `Authorization` value for one request.
pub open spec fn authorization_header(
    ck: Seq<u8>,
    cs: Seq<u8>,
    tk: Seq<u8>,
    tsec: Seq<u8>,
    method: Seq<u8>,
    base_url: Seq<u8>,
    query: Seq<(Seq<u8>, Seq<u8>)>,
    nonce: Seq<u8>,
    stamp: Seq<u8>,
) -> Seq<u8> {
    oauth_scheme() + joined_fields(
        header_pairs(
            ck,
            tk,
            nonce,
            stamp,
            signature_bytes(ck, cs, tk, tsec, method, base_url, query, nonce, stamp),
        ),
    )
}

proof fn lemma_joined_fields_push(ps: Seq<(Seq<u8>, Seq<u8>)>, p: (Seq<u8>, Seq<u8>))
    ensures
        joined_fields(ps.push(p)) == if ps.len() == 0 {
            field_bytes(p)
        } else {
            joined_fields(ps) + seq![0x2cu8, 0x20u8] + field_bytes(p)
        },
    decreases ps.len(),
{
    if ps.len() == 0 {
        assert(ps.push(p).len() == 1);
        assert(ps.push(p)[0] == p);
    } else {
        lemma_joined_fields_push(ps.skip(1), p);
        assert(ps.push(p).skip(1) =~= ps.skip(1).push(p));
        if ps.len() == 1 {
            assert(ps.skip(1).len() == 0);
            assert(joined_fields(ps.push(p)) =~= joined_fields(ps) + seq![0x2cu8, 0x20u8]
                + field_bytes(p));
        } else {
            assert(joined_fields(ps.push(p)) =~= joined_fields(ps) + seq![0x2cu8, 0x20u8]
                + field_bytes(p));
        }
    }
}

/// Serializes header fields as `k1="v1", k2="v2", ...` with encoded values.
fn join_header_fields(ps: &Vec<(Vec<u8>, Vec<u8>)>) -> (r: Vec<u8>)
    ensures
        r@ == joined_fields(pairs_view(ps@)),
{
    let mut out: Vec<u8> = Vec::new();
    let mut i: usize = 0;
    proof {
        assert(pairs_view(ps@.take(0)) =~= Seq::<(Seq<u8>, Seq<u8>)>::empty());
    }
    while i < ps.len()
        invariant
            i <= ps@.len(),
            out@ == joined_fields(pairs_view(ps@.take(i as int))),
        decreases ps@.len() - i,
    {
        if i > 0 {
            out.push(0x2c);
            out.push(0x20);
        }
        append_bytes(&mut out, &ps[i].0);
        out.push(0x3d);
        out.push(0x22);
        let ev = percent_encode(ps[i].1.as_slice());
        append_bytes(&mut out, &ev);
        out.push(0x22);
        proof {
            let prefix = pairs_view(ps@.take(i as int));
            let pv = pair_view(ps@[i as int]);
            assert(pairs_view(ps@.take(i as int + 1)) =~= prefix.push(pv));
            lemma_joined_fields_push(prefix, pv);
            if i == 0 {
                assert(out@ =~= field_bytes(pv));
            } else {
                assert(out@ =~= joined_fields(prefix) + seq![0x2cu8, 0x20u8] + field_bytes(pv));
            }
        }
        i = i + 1;
    }
    proof {
        assert(ps@.take(ps@.len() as int) =~= ps@);
    }
    out
}

/// Builds the merged parameter list: the six protocol parameters, then the
/// URL's query parameters.
fn merged_params(
    creds: &Credentials,
    query: &Vec<(Vec<u8>, Vec<u8>)>,
    nonce: &Vec<u8>,
    stamp: &Vec<u8>,
) -> (r: Vec<(Vec<u8>, Vec<u8>)>)
    ensures
        pairs_view(r@) == protocol_params(creds.consumer_key@, creds.token@, nonce@, stamp@)
            + pairs_view(query@),
{
    let ghost proto = protocol_params(creds.consumer_key@, creds.token@, nonce@, stamp@);
    let mut r: Vec<(Vec<u8>, Vec<u8>)> = Vec::new();
    r.push((key_consumer_key_bytes(), copy_bytes(&creds.consumer_key)));
    r.push((key_nonce_bytes(), copy_bytes(nonce)));
    r.push((key_signature_method_bytes(), hmac_sha1_name_bytes()));
    r.push((key_timestamp_bytes(), copy_bytes(stamp)));
    r.push((key_token_bytes(), copy_bytes(&creds.token)));
    r.push((key_version_bytes(), version_value_bytes()));
    proof {
        assert(pairs_view(r@) =~= proto);
        assert(pairs_view(r@) =~= proto + pairs_view(query@.take(0)));
    }
    let mut i: usize = 0;
    while i < query.len()
        invariant
            i <= query@.len(),
            pairs_view(r@) == protocol_params(creds.consumer_key@, creds.token@, nonce@, stamp@)
                + pairs_view(query@.take(i as int)),
        decreases query@.len() - i,
    {
        let ghost r_before = pairs_view(r@);
        let kq = copy_bytes(&query[i].0);
        let vq = copy_bytes(&query[i].1);
        r.push((kq, vq));
        proof {
            let p = protocol_params(creds.consumer_key@, creds.token@, nonce@, stamp@);
            let lhs = pairs_view(r@);
            let rhs = p + pairs_view(query@.take(i as int + 1));
            assert(r_before.len() == 6 + i);
            assert(lhs.len() == 7 + i);
            assert(rhs.len() == 7 + i);
            assert forall|m: int| 0 <= m < lhs.len() implies lhs[m] == rhs[m] by {
                if m < 6 + i {
                    assert(lhs[m] == r_before[m]);
                    assert(r_before[m] == (p + pairs_view(query@.take(i as int)))[m]);
                    if m >= 6 {
                        assert(query@.take(i as int)[m - 6] == query@.take(i as int + 1)[m - 6]);
                    }
                } else {
                    assert(lhs[m] == (kq@, vq@));
                    assert(query@.take(i as int + 1)[i as int] == query@[i as int]);
                    assert(rhs[m] == pair_view(query@[i as int]));
                }
            }
            assert(lhs =~= rhs);
        }
        i = i + 1;
    }
    proof {
        assert(query@.take(query@.len() as int) =~= query@);
    }
    r
}

/// Computes the base64 HMAC-SHA1 signature for one request.
pub fn signature_for(
    creds: &Credentials,
    method: &Vec<u8>,
    base_url: &Vec<u8>,
    query: &Vec<(Vec<u8>, Vec<u8>)>,
    nonce: &Vec<u8>,
    timestamp: u64,
) -> (r: Vec<u8>)
    ensures
        r@ == signature_bytes(
            creds.consumer_key@,
            creds.consumer_secret@,
            creds.token@,
            creds.token_secret@,
            method@,
            base_url@,
            pairs_view(query@),
            nonce@,
            dec_digits(timestamp as nat),
        ),
{
    let stamp = dec_u64(timestamp);
    let merged = merged_params(creds, query, nonce, &stamp);
    let norm = normalize_params(&merged);
    let mut base = uppercase(method);
    base.push(0x26);
    let eu = percent_encode(base_url.as_slice());
    append_bytes(&mut base, &eu);
    base.push(0x26);
    let en = percent_encode(norm.as_slice());
    append_bytes(&mut base, &en);
    let mut key = percent_encode(creds.consumer_secret.as_slice());
    key.push(0x26);
    let et = percent_encode(creds.token_secret.as_slice());
    append_bytes(&mut key, &et);
    proof {
        assert(base@ =~= base_string(
            method@,
            base_url@,
            protocol_params(creds.consumer_key@, creds.token@, nonce@, dec_digits(
                timestamp as nat,
            )) + pairs_view(query@),
        ));
        assert(key@ =~= signing_key(creds.consumer_secret@, creds.token_secret@));
    }
    let digest = hmac_sha1(key.as_slice(), base.as_slice());
    base64_encode(digest.as_slice())
}

/// Builds the whole `Authorization` value for one request.
pub fn authorization_header_for(
    creds: &Credentials,
    method: &Vec<u8>,
    base_url: &Vec<u8>,
    query: &Vec<(Vec<u8>, Vec<u8>)>,
    nonce: &Vec<u8>,
    timestamp: u64,
) -> (r: Vec<u8>)
    ensures
        r@ == authorization_header(
            creds.consumer_key@,
            creds.consumer_secret@,
            creds.token@,
            creds.token_secret@,
            method@,
            base_url@,
            pairs_view(query@),
            nonce@,
            dec_digits(timestamp as nat),
        ),
{
    let stamp = dec_u64(timestamp);
    let sig = signature_for(creds, method, base_url, query, nonce, timestamp);
    let mut fields: Vec<(Vec<u8>, Vec<u8>)> = Vec::new();
    fields.push((key_consumer_key_bytes(), copy_bytes(&creds.consumer_key)));
    fields.push((key_nonce_bytes(), copy_bytes(nonce)));
    fields.push((key_signature_bytes(), sig));
    fields.push((key_signature_method_bytes(), hmac_sha1_name_bytes()));
    fields.push((key_timestamp_bytes(), stamp));
    fields.push((key_token_bytes(), copy_bytes(&creds.token)));
    fields.push((key_version_bytes(), version_value_bytes()));
    proof {
        assert(pairs_view(fields@) =~= header_pairs(
            creds.consumer_key@,
            creds.token@,
            nonce@,
            dec_digits(timestamp as nat),
            signature_bytes(
                creds.consumer_key@,
                creds.consumer_secret@,
                creds.token@,
                creds.token_secret@,
                method@,
                base_url@,
                pairs_view(query@),
                nonce@,
                dec_digits(timestamp as nat),
            ),
        ));
    }
    let mut out = oauth_scheme_bytes();
    let joined = join_header_fields(&fields);
    append_bytes(&mut out, &joined);
    out
}

/// Signing depends on the credential set, method, URL, query, nonce and
/// timestamp alone: two runs over the same inputs give byte-identical headers.
pub proof fn lemma_signature_deterministic(
    ck: Seq<u8>,
    cs: Seq<u8>,
    tk: Seq<u8>,
    tsec: Seq<u8>,
    method: Seq<u8>,
    base_url: Seq<u8>,
    query: Seq<(Seq<u8>, Seq<u8>)>,
    nonce: Seq<u8>,
    stamp: Seq<u8>,
    h1: Seq<u8>,
    h2: Seq<u8>,
)
    requires
        h1 == authorization_header(ck, cs, tk, tsec, method, base_url, query, nonce, stamp),
        h2 == authorization_header(ck, cs, tk, tsec, method, base_url, query, nonce, stamp),
    ensures
        h1 == h2,
{
}

/// The seven keys the header carries, in order.
pub open spec fn header_keys() -> Seq<Seq<u8>> {
    seq![
        key_consumer_key(),
        key_nonce(),
        key_signature(),
        key_signature_method(),
        key_timestamp(),
        key_token(),
        key_version(),
    ]
}

/// The header value always fits the grammar `OAuth k1="v1", k2="v2", ...`:
/// the scheme name, then the seven `oauth_*` keys, each exactly once, each
/// value percent-encoded and quoted.
pub proof fn lemma_header_well_formed(
    ck: Seq<u8>,
    cs: Seq<u8>,
    tk: Seq<u8>,
    tsec: Seq<u8>,
    method: Seq<u8>,
    base_url: Seq<u8>,
    query: Seq<(Seq<u8>, Seq<u8>)>,
    nonce: Seq<u8>,
    stamp: Seq<u8>,
)
    ensures
        ({
            let sig = signature_bytes(ck, cs, tk, tsec, method, base_url, query, nonce, stamp);
            let ps = header_pairs(ck, tk, nonce, stamp, sig);
            &&& authorization_header(ck, cs, tk, tsec, method, base_url, query, nonce, stamp)
                == oauth_scheme() + joined_fields(ps)
            &&& ps.len() == 7
            &&& ps.map_values(|p: (Seq<u8>, Seq<u8>)| p.0) == header_keys()
            &&& (forall|i: int, j: int| 0 <= i < j < 7 ==> ps[i].0 != ps[j].0)
            &&& (forall|i: int|
                0 <= i < 7 ==> encoded_charset_ok(percent_encoding(#[trigger] ps[i].1)))
        }),
{
    let sig = signature_bytes(ck, cs, tk, tsec, method, base_url, query, nonce, stamp);
    let ps = header_pairs(ck, tk, nonce, stamp, sig);
    assert(ps.map_values(|p: (Seq<u8>, Seq<u8>)| p.0) =~= header_keys());
    assert(key_nonce()[6] != key_token()[6]);
    assert(key_signature()[6] != key_timestamp()[6]);
    assert forall|i: int, j: int| 0 <= i < j < 7 implies ps[i].0 != ps[j].0 by {
        assert(ps[i].0 == header_keys()[i]);
        assert(ps[j].0 == header_keys()[j]);
    }
    assert forall|i: int| 0 <= i < 7 implies encoded_charset_ok(
        percent_encoding(#[trigger] ps[i].1),
    ) by {
        lemma_percent_encoding_charset(ps[i].1);
    }
}

proof fn lemma_prefix_cancel(a: Seq<u8>, s1: Seq<u8>, s2: Seq<u8>)
    requires
        a + s1 == a + s2,
    ensures
        s1 == s2,
{
    assert((a + s1).skip(a.len() as int) =~= s1);
    assert((a + s2).skip(a.len() as int) =~= s2);
}

/// Distinct nonces give the digest distinct inputs: for a query that does not
/// itself carry an `oauth_nonce` parameter, two signing runs that differ only
/// in the nonce build different signature base strings. That the two
/// HMAC-SHA1 signatures then differ holds with overwhelming probability; it
/// is a property of the digest that no contract here can state.
pub proof fn lemma_base_string_nonce_sensitive(
    ck: Seq<u8>,
    tk: Seq<u8>,
    method: Seq<u8>,
    base_url: Seq<u8>,
    query: Seq<(Seq<u8>, Seq<u8>)>,
    n1: Seq<u8>,
    n2: Seq<u8>,
    stamp: Seq<u8>,
)
    requires
        n1 != n2,
        forall|i: int| 0 <= i < query.len() ==> (#[trigger] query[i]).0 != key_nonce(),
    ensures
        base_string(method, base_url, protocol_params(ck, tk, n1, stamp) + query) != base_string(
            method,
            base_url,
            protocol_params(ck, tk, n2, stamp) + query,
        ),
{
    broadcast use vstd::seq_lib::group_to_multiset_ensures;
    broadcast use vstd::multiset::group_multiset_axioms;

    let m1 = protocol_params(ck, tk, n1, stamp) + query;
    let m2 = protocol_params(ck, tk, n2, stamp) + query;
    let norm1 = normalized_params(m1);
    let norm2 = normalized_params(m2);
    if base_string(method, base_url, m1) == base_string(method, base_url, m2) {
        let pre = uppercased(method) + seq![0x26u8] + percent_encoding(base_url) + seq![0x26u8];
        assert(base_string(method, base_url, m1) =~= pre + percent_encoding(norm1));
        assert(base_string(method, base_url, m2) =~= pre + percent_encoding(norm2));
        lemma_prefix_cancel(pre, percent_encoding(norm1), percent_encoding(norm2));
        crate::percent::lemma_percent_encoding_injective(norm1, norm2);
        let e1 = crate::params::encoded_pairs(m1);
        let e2 = crate::params::encoded_pairs(m2);
        let ord = crate::params::pair_ord();
        crate::params::lemma_pair_ord_total();
        e1.lemma_sort_by_ensures(ord);
        e2.lemma_sort_by_ensures(ord);
        let s1 = e1.sort_by(ord);
        let s2 = e2.sort_by(ord);
        crate::params::lemma_encoded_pairs_sep_free(m1);
        crate::params::lemma_encoded_pairs_sep_free(m2);
        assert(crate::params::all_sep_free(s1)) by {
            assert forall|i: int| 0 <= i < s1.len() implies crate::params::pair_sep_free(
                #[trigger] s1[i],
            ) by {
                assert(s1.contains(s1[i]));
                assert(s1.to_multiset().count(s1[i]) > 0);
                assert(e1.to_multiset().count(s1[i]) > 0);
                assert(e1.contains(s1[i]));
                let j = choose|j: int| 0 <= j < e1.len() && e1[j] == s1[i];
                assert(crate::params::pair_sep_free(e1[j]));
            }
        }
        assert(crate::params::all_sep_free(s2)) by {
            assert forall|i: int| 0 <= i < s2.len() implies crate::params::pair_sep_free(
                #[trigger] s2[i],
            ) by {
                assert(s2.contains(s2[i]));
                assert(s2.to_multiset().count(s2[i]) > 0);
                assert(e2.to_multiset().count(s2[i]) > 0);
                assert(e2.contains(s2[i]));
                let j = choose|j: int| 0 <= j < e2.len() && e2[j] == s2[i];
                assert(crate::params::pair_sep_free(e2[j]));
            }
        }
        crate::params::lemma_join_pairs_injective(s1, s2);
        assert(e1.to_multiset() == e2.to_multiset());
        let target = (percent_encoding(key_nonce()), percent_encoding(n1));
        assert(m1[1] == (key_nonce(), n1));
        assert(e1[1] == target);
        assert(e1.contains(target)) by {
            assert(e1[1] == target);
        }
        assert(e1.to_multiset().count(target) > 0);
        assert(e2.to_multiset().count(target) > 0);
        assert(e2.contains(target));
        let j = choose|j: int| 0 <= j < e2.len() && e2[j] == target;
        assert(e2[j].0 == percent_encoding(m2[j].0));
        assert(e2[j].1 == percent_encoding(m2[j].1));
        crate::percent::lemma_percent_encoding_injective(m2[j].0, key_nonce());
        crate::percent::lemma_percent_encoding_injective(m2[j].1, n1);
        if j < 6 {
            if j == 0 {
                assert(key_consumer_key().len() != key_nonce().len());
            } else if j == 1 {
                assert(m2[1].1 == n2);
            } else if j == 2 {
                assert(key_signature_method().len() != key_nonce().len());
            } else if j == 3 {
                assert(key_timestamp().len() != key_nonce().len());
            } else if j == 4 {
                assert(key_token()[6] != key_nonce()[6]);
            } else {
                assert(key_version().len() != key_nonce().len());
            }
        } else {
            assert(m2[j] == query[j - 6]);
        }
        assert(false);
    }
}

/// The computed signature does not depend on the order in which query
/// parameters were given: lists with equal multisets sign identically.
pub proof fn lemma_signature_ignores_param_order(
    ck: Seq<u8>,
    cs: Seq<u8>,
    tk: Seq<u8>,
    tsec: Seq<u8>,
    method: Seq<u8>,
    base_url: Seq<u8>,
    query1: Seq<(Seq<u8>, Seq<u8>)>,
    query2: Seq<(Seq<u8>, Seq<u8>)>,
    nonce: Seq<u8>,
    stamp: Seq<u8>,
)
    requires
        query1.to_multiset() == query2.to_multiset(),
    ensures
        signature_bytes(ck, cs, tk, tsec, method, base_url, query1, nonce, stamp)
            == signature_bytes(ck, cs, tk, tsec, method, base_url, query2, nonce, stamp),
        authorization_header(ck, cs, tk, tsec, method, base_url, query1, nonce, stamp)
            == authorization_header(ck, cs, tk, tsec, method, base_url, query2, nonce, stamp),
{
    let proto = protocol_params(ck, tk, nonce, stamp);
    vstd::seq_lib::lemma_multiset_commutative(proto, query1);
    vstd::seq_lib::lemma_multiset_commutative(proto, query2);
    assert((proto + query1).to_multiset() =~= (proto + query2).to_multiset());
    crate::params::lemma_normalized_params_order_irrelevant(proto + query1, proto + query2);
}

} // verus!
