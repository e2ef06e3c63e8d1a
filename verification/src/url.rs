//! The request URL as the signer reads it: the base part (scheme, host and
//! path, with query and fragment cut off) and the decoded query parameters.
//! A URL that does not carry an `http`/`https` scheme, or whose query holds a
//! malformed percent escape, is rejected as a construction error.

use vstd::prelude::*;
use crate::params::{pair_view, pairs_view};
use crate::percent::{percent_decode, percent_decoding, valid_encoded};

verus! {

/// Splits at the first occurrence of `b`: the part before it, and what
/// follows it if it occurs at all.
pub open spec fn split_once(s: Seq<u8>, b: u8) -> (Seq<u8>, Option<Seq<u8>>)
    decreases s.len(),
{
    if s.len() == 0 {
        (s, None::<Seq<u8>>)
    } else if s[0] == b {
        (Seq::empty(), Some(s.skip(1)))
    } else {
        let (h, t) = split_once(s.skip(1), b);
        (seq![s[0]] + h, t)
    }
}

/// What `split_once` returns, stated over the index of the first occurrence.
pub proof fn lemma_split_once_characterize(s: Seq<u8>, b: u8, j: int)
    requires
        0 <= j <= s.len(),
        forall|k: int| 0 <= k < j ==> s[k] != b,
        j < s.len() ==> s[j] == b,
    ensures
        j < s.len() ==> split_once(s, b) == (s.take(j), Some(s.skip(j + 1))),
        j == s.len() ==> split_once(s, b) == (s, None::<Seq<u8>>),
    decreases s.len(),
{
    if s.len() == 0 {
    } else if s[0] == b {
        assert(j == 0);
        assert(s.take(0) =~= Seq::<u8>::empty());
    } else {
        assert(j >= 1);
        lemma_split_once_characterize(s.skip(1), b, j - 1);
        if j < s.len() {
            assert(seq![s[0]] + s.skip(1).take(j - 1) =~= s.take(j));
            assert(s.skip(1).skip(j) =~= s.skip(j + 1));
        } else {
            assert(seq![s[0]] + s.skip(1) =~= s);
        }
    }
}

/// The tail `split_once` hands back is strictly shorter; the head no longer.
pub proof fn lemma_split_once_len(s: Seq<u8>, b: u8)
    ensures
        split_once(s, b).1 is Some ==> split_once(s, b).1->0.len() < s.len(),
        split_once(s, b).0.len() <= s.len(),
    decreases s.len(),
{
    if s.len() == 0 {
    } else if s[0] == b {
    } else {
        lemma_split_once_len(s.skip(1), b);
    }
}

/// The URL with everything from the first `#` on cut off.
pub open spec fn without_fragment(s: Seq<u8>) -> Seq<u8> {
    split_once(s, 0x23).0
}

/// The base part: scheme, host and path, before any `?`.
pub open spec fn url_base(s: Seq<u8>) -> Seq<u8> {
    split_once(without_fragment(s), 0x3f).0
}

/// The raw query string (empty where the URL has none).
pub open spec fn url_query(s: Seq<u8>) -> Seq<u8> {
    match split_once(without_fragment(s), 0x3f).1 {
        Some(q) => q,
        None => Seq::empty(),
    }
}

/// One `key=value` piece, percent-decoded; `None` on a malformed escape.
pub open spec fn parse_piece(piece: Seq<u8>) -> Option<(Seq<u8>, Seq<u8>)> {
    let (kraw, vopt) = split_once(piece, 0x3d);
    let vraw = match vopt {
        Some(v) => v,
        None => Seq::<u8>::empty(),
    };
    if valid_encoded(kraw) && valid_encoded(vraw) {
        Some((percent_decoding(kraw), percent_decoding(vraw)))
    } else {
        None
    }
}

/// The decoded query pairs, in the order the query gives them; `None` where
/// any piece holds a malformed escape.
pub open spec fn parse_query(q: Seq<u8>) -> Option<Seq<(Seq<u8>, Seq<u8>)>>
    decreases q.len(),
    via parse_query_decreases
{
    if q.len() == 0 {
        Some(Seq::empty())
    } else {
        let (piece, rest) = split_once(q, 0x26);
        match parse_piece(piece) {
            None => None,
            Some(p) => match rest {
                None => Some(seq![p]),
                Some(r) => match parse_query(r) {
                    None => None,
                    Some(ps) => Some(seq![p] + ps),
                },
            },
        }
    }
}

#[via_fn]
proof fn parse_query_decreases(q: Seq<u8>) {
    lemma_split_once_len(q, 0x26);
}

/// The byte string `https://`.
pub open spec fn https_prefix() -> Seq<u8> {
    seq![0x68u8, 0x74, 0x74, 0x70, 0x73, 0x3a, 0x2f, 0x2f]
}

/// The byte string `http://`.
pub open spec fn http_prefix() -> Seq<u8> {
    seq![0x68u8, 0x74, 0x74, 0x70, 0x3a, 0x2f, 0x2f]
}

/// The base carries an `http` or `https` scheme and a nonempty remainder.
pub open spec fn scheme_ok(base: Seq<u8>) -> bool {
    (base.len() > 8 && base.take(8) == https_prefix()) || (base.len() > 7 && base.take(7)
        == http_prefix())
}

/// A URL this client accepts: recognized scheme, decodable query.
pub open spec fn url_well_formed(s: Seq<u8>) -> bool {
    scheme_ok(url_base(s)) && parse_query(url_query(s)) is Some
}

/// Why a URL was rejected.
#[derive(PartialEq, Eq, Structural, Clone, Copy, Debug)]
pub enum UrlError {
    /// The base does not start with `http://` or `https://`.
    Scheme,
    /// The query holds a malformed percent escape.
    Query,
}

/// A parsed request URL: the base to sign over, and the decoded query pairs.
pub struct RequestUrl {
    pub base: Vec<u8>,
    pub query: Vec<(Vec<u8>, Vec<u8>)>,
}

/// Exec mirror of `split_once`.
fn split_once_exec(s: &Vec<u8>, b: u8) -> (r: (Vec<u8>, Option<Vec<u8>>))
    ensures
        r.0@ == split_once(s@, b).0,
        r.1 is Some <==> split_once(s@, b).1 is Some,
        r.1 is Some ==> r.1->0@ == split_once(s@, b).1->0,
{
    let j = find_byte(s, b);
    proof {
        lemma_split_once_characterize(s@, b, j as int);
    }
    let head = sub_bytes(s, 0, j);
    if j < s.len() {
        let tail = sub_bytes(s, j + 1, s.len());
        proof {
            assert(s@.take(j as int) =~= s@.subrange(0, j as int));
            assert(s@.skip(j as int + 1) =~= s@.subrange(j as int + 1, s@.len() as int));
        }
        (head, Some(tail))
    } else {
        proof {
            assert(s@.subrange(0, j as int) =~= s@);
        }
        (head, None)
    }
}

/// The index of the first occurrence of `b`, or the length where it is absent.
fn find_byte(s: &Vec<u8>, b: u8) -> (j: usize)
    ensures
        j <= s@.len(),
        forall|k: int| 0 <= k < j ==> s@[k] != b,
        j < s@.len() ==> s@[j as int] == b,
{
    let mut j: usize = 0;
    while j < s.len()
        invariant
            j <= s@.len(),
            forall|k: int| 0 <= k < j ==> s@[k] != b,
        decreases s@.len() - j,
    {
        if s[j] == b {
            return j;
        }
        j = j + 1;
    }
    j
}

/// Copies the byte range `[a, b)`.
fn sub_bytes(s: &Vec<u8>, a: usize, b: usize) -> (r: Vec<u8>)
    requires
        a <= b <= s@.len(),
    ensures
        r@ == s@.subrange(a as int, b as int),
{
    let mut r: Vec<u8> = Vec::new();
    let mut i: usize = a;
    while i < b
        invariant
            a <= i <= b <= s@.len(),
            r@ == s@.subrange(a as int, i as int),
        decreases b - i,
    {
        r.push(s[i]);
        proof {
            assert(s@.subrange(a as int, i as int + 1) =~= s@.subrange(a as int, i as int).push(
                s@[i as int],
            ));
        }
        i = i + 1;
    }
    r
}

/// Exec mirror of `parse_piece`.
fn parse_piece_exec(piece: &Vec<u8>) -> (r: Option<(Vec<u8>, Vec<u8>)>)
    ensures
        r is Some <==> parse_piece(piece@) is Some,
        r is Some ==> pair_view(r->0) == parse_piece(piece@)->0,
{
    let (kraw, vopt) = split_once_exec(piece, 0x3d);
    let vraw = match vopt {
        Some(v) => v,
        None => Vec::new(),
    };
    let dk = percent_decode(kraw.as_slice());
    let dv = percent_decode(vraw.as_slice());
    match (dk, dv) {
        (Some(k), Some(v)) => Some((k, v)),
        _ => None,
    }
}

/// Exec mirror of `parse_query`.
fn parse_query_exec(q: &Vec<u8>) -> (r: Option<Vec<(Vec<u8>, Vec<u8>)>>)
    ensures
        r is Some <==> parse_query(q@) is Some,
        r is Some ==> pairs_view(r->0@) == parse_query(q@)->0,
    decreases q@.len(),
{
    if q.len() == 0 {
        let empty: Vec<(Vec<u8>, Vec<u8>)> = Vec::new();
        proof {
            assert(pairs_view(empty@) =~= parse_query(q@)->0);
        }
        return Some(empty);
    }
    let (piece, rest) = split_once_exec(q, 0x26);
    let p = parse_piece_exec(&piece);
    match p {
        None => None,
        Some(pair) => match rest {
            None => {
                let mut v: Vec<(Vec<u8>, Vec<u8>)> = Vec::new();
                v.push(pair);
                proof {
                    assert(pairs_view(v@) =~= seq![parse_piece(split_once(q@, 0x26).0)->0]);
                }
                Some(v)
            },
            Some(rv) => {
                proof {
                    lemma_split_once_len(q@, 0x26);
                }
                match parse_query_exec(&rv) {
                    None => None,
                    Some(ps) => {
                        let mut v: Vec<(Vec<u8>, Vec<u8>)> = Vec::new();
                        v.push(pair);
                        let mut i: usize = 0;
                        let ghost tail_pairs = pairs_view(ps@);
                        let ghost head_pair = pair_view(v@[0]);
                        while i < ps.len()
                            invariant
                                i <= ps@.len(),
                                pairs_view(ps@) == tail_pairs,
                                pairs_view(v@) == seq![head_pair] + tail_pairs.take(i as int),
                            decreases ps@.len() - i,
                        {
                            let ghost v_before = pairs_view(v@);
                            let kq = crate::params::copy_bytes(&ps[i].0);
                            let vq = crate::params::copy_bytes(&ps[i].1);
                            v.push((kq, vq));
                            proof {
                                let lhs = pairs_view(v@);
                                let rhs = seq![head_pair] + tail_pairs.take(i as int + 1);
                                assert(lhs.len() == v_before.len() + 1);
                                assert forall|m: int| 0 <= m < lhs.len() implies lhs[m] == rhs[m]
                                by {
                                    if m < v_before.len() {
                                        assert(lhs[m] == v_before[m]);
                                        if m >= 1 {
                                            assert(tail_pairs.take(i as int)[m - 1]
                                                == tail_pairs.take(i as int + 1)[m - 1]);
                                        }
                                    } else {
                                        assert(lhs[m] == (kq@, vq@));
                                        assert(tail_pairs[i as int] == pair_view(ps@[i as int]));
                                    }
                                }
                                assert(lhs =~= rhs);
                            }
                            i = i + 1;
                        }
                        proof {
                            assert(tail_pairs.take(ps@.len() as int) =~= tail_pairs);
                            assert(pairs_view(v@) =~= seq![head_pair] + pairs_view(ps@));
                        }
                        Some(v)
                    },
                }
            },
        },
    }
}

/// Exec test for `scheme_ok`.
fn scheme_ok_exec(base: &Vec<u8>) -> (r: bool)
    ensures
        r == scheme_ok(base@),
{
    let https: Vec<u8> = vec![0x68u8, 0x74, 0x74, 0x70, 0x73, 0x3a, 0x2f, 0x2f];
    let http: Vec<u8> = vec![0x68u8, 0x74, 0x74, 0x70, 0x3a, 0x2f, 0x2f];
    proof {
        assert(https@ =~= https_prefix());
        assert(http@ =~= http_prefix());
    }
    (base.len() > 8 && starts_with(base, &https)) || (base.len() > 7 && starts_with(base, &http))
}

/// Whether `s` starts with `prefix`.
fn starts_with(s: &Vec<u8>, prefix: &Vec<u8>) -> (r: bool)
    ensures
        r == (s@.len() >= prefix@.len() && s@.take(prefix@.len() as int) == prefix@),
{
    if s.len() < prefix.len() {
        return false;
    }
    let mut i: usize = 0;
    while i < prefix.len()
        invariant
            i <= prefix@.len() <= s@.len(),
            forall|k: int| 0 <= k < i ==> s@[k] == prefix@[k],
        decreases prefix@.len() - i,
    {
        if s[i] != prefix[i] {
            proof {
                assert(s@.take(prefix@.len() as int)[i as int] == s@[i as int]);
            }
            return false;
        }
        i = i + 1;
    }
    proof {
        assert(s@.take(prefix@.len() as int) =~= prefix@);
    }
    true
}

impl RequestUrl {
    /// Parses a URL into the base the signer signs over and the decoded query
    /// pairs; rejects exactly the URLs `url_well_formed` rejects, naming why.
    pub fn parse(s: &Vec<u8>) -> (r: Result<RequestUrl, UrlError>)
        ensures
            r is Ok <==> url_well_formed(s@),
            r is Ok ==> r->Ok_0.base@ == url_base(s@),
            r is Ok ==> pairs_view(r->Ok_0.query@) == parse_query(url_query(s@))->0,
            !scheme_ok(url_base(s@)) ==> r == Err::<RequestUrl, UrlError>(UrlError::Scheme),
            scheme_ok(url_base(s@)) && parse_query(url_query(s@)) is None ==> r == Err::<
                RequestUrl,
                UrlError,
            >(UrlError::Query),
    {
        let (no_frag, _) = split_once_exec(s, 0x23);
        let (base, qopt) = split_once_exec(&no_frag, 0x3f);
        if !scheme_ok_exec(&base) {
            return Err(UrlError::Scheme);
        }
        let q = match qopt {
            Some(q) => q,
            None => Vec::new(),
        };
        proof {
            assert(q@ == url_query(s@));
        }
        match parse_query_exec(&q) {
            None => Err(UrlError::Query),
            Some(pairs) => Ok(RequestUrl { base, query: pairs }),
        }
    }
}

} // verus!
