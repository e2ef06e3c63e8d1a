//! Normalization of request parameters for the signature base string: each
//! key and value is percent-encoded, the encoded pairs are sorted by key and
//! then by value, and the result is joined as `k=v&k=v&...` (RFC 5849 §3.4.1.3.2).

use vstd::prelude::*;
use vstd::relations::{sorted_by, total_ordering};
use vstd::seq_lib::lemma_sorted_unique;
use crate::percent::{percent_encoding, percent_encode};

verus! {

/// Byte-wise lexicographic "less or equal" on byte strings.
pub open spec fn lex_le(a: Seq<u8>, b: Seq<u8>) -> bool
    decreases a.len(),
{
    if a.len() == 0 {
        true
    } else if b.len() == 0 {
        false
    } else if a[0] < b[0] {
        true
    } else if a[0] > b[0] {
        false
    } else {
        lex_le(a.skip(1), b.skip(1))
    }
}

/// Pair order: by key, ties broken by value.
pub open spec fn pair_le(p: (Seq<u8>, Seq<u8>), q: (Seq<u8>, Seq<u8>)) -> bool {
    if p.0 == q.0 {
        lex_le(p.1, q.1)
    } else {
        lex_le(p.0, q.0)
    }
}

/// The pair order as a first-class relation.
pub open spec fn pair_ord() -> spec_fn((Seq<u8>, Seq<u8>), (Seq<u8>, Seq<u8>)) -> bool {
    |p: (Seq<u8>, Seq<u8>), q: (Seq<u8>, Seq<u8>)| pair_le(p, q)
}

pub proof fn lemma_lex_le_refl(a: Seq<u8>)
    ensures
        lex_le(a, a),
    decreases a.len(),
{
    if a.len() > 0 {
        lemma_lex_le_refl(a.skip(1));
    }
}

pub proof fn lemma_lex_le_total(a: Seq<u8>, b: Seq<u8>)
    ensures
        lex_le(a, b) || lex_le(b, a),
    decreases a.len(),
{
    if a.len() > 0 && b.len() > 0 && a[0] == b[0] {
        lemma_lex_le_total(a.skip(1), b.skip(1));
    }
}

pub proof fn lemma_lex_le_antisym(a: Seq<u8>, b: Seq<u8>)
    requires
        lex_le(a, b),
        lex_le(b, a),
    ensures
        a == b,
    decreases a.len(),
{
    if a.len() == 0 {
        assert(b.len() == 0);
        assert(a =~= b);
    } else {
        assert(b.len() > 0);
        assert(a[0] == b[0]);
        lemma_lex_le_antisym(a.skip(1), b.skip(1));
        assert(a =~= seq![a[0]] + a.skip(1));
        assert(b =~= seq![b[0]] + b.skip(1));
        assert(a =~= b);
    }
}

pub proof fn lemma_lex_le_trans(a: Seq<u8>, b: Seq<u8>, c: Seq<u8>)
    requires
        lex_le(a, b),
        lex_le(b, c),
    ensures
        lex_le(a, c),
    decreases a.len(),
{
    if a.len() == 0 {
    } else {
        assert(b.len() > 0);
        assert(c.len() > 0);
        if a[0] == b[0] && b[0] == c[0] {
            lemma_lex_le_trans(a.skip(1), b.skip(1), c.skip(1));
        }
    }
}

/// The pair order is a total ordering, as `Seq::sort_by` requires.
pub proof fn lemma_pair_ord_total()
    ensures
        total_ordering(pair_ord()),
{
    let r = pair_ord();
    assert forall|p: (Seq<u8>, Seq<u8>)| #[trigger] r(p, p) by {
        lemma_lex_le_refl(p.1);
    }
    assert forall|p: (Seq<u8>, Seq<u8>), q: (Seq<u8>, Seq<u8>)| #[trigger] r(p, q) && #[trigger] r(
        q,
        p,
    ) implies p == q by {
        if p.0 == q.0 {
            lemma_lex_le_antisym(p.1, q.1);
        } else {
            lemma_lex_le_antisym(p.0, q.0);
        }
    }
    assert forall|p: (Seq<u8>, Seq<u8>), q: (Seq<u8>, Seq<u8>), s: (Seq<u8>, Seq<u8>)|
        #[trigger] r(p, q) && #[trigger] r(q, s) implies r(p, s) by {
        lemma_pair_le_trans(p, q, s);
    }
    assert forall|p: (Seq<u8>, Seq<u8>), q: (Seq<u8>, Seq<u8>)| #[trigger] r(p, q) || #[trigger] r(
        q,
        p,
    ) by {
        if p.0 == q.0 {
            lemma_lex_le_total(p.1, q.1);
        } else {
            lemma_lex_le_total(p.0, q.0);
        }
    }
}

/// Any two pairs are comparable.
pub proof fn lemma_pair_le_total(p: (Seq<u8>, Seq<u8>), q: (Seq<u8>, Seq<u8>))
    ensures
        pair_le(p, q) || pair_le(q, p),
{
    if p.0 == q.0 {
        lemma_lex_le_total(p.1, q.1);
    } else {
        lemma_lex_le_total(p.0, q.0);
    }
}

proof fn lemma_pair_le_trans(p: (Seq<u8>, Seq<u8>), q: (Seq<u8>, Seq<u8>), s: (Seq<u8>, Seq<u8>))
    requires
        pair_le(p, q),
        pair_le(q, s),
    ensures
        pair_le(p, s),
{
    if p.0 == q.0 && q.0 == s.0 {
        lemma_lex_le_trans(p.1, q.1, s.1);
    } else if p.0 == q.0 {
        assert(pair_le(q, s) == lex_le(q.0, s.0));
    } else if q.0 == s.0 {
        assert(pair_le(p, q) == lex_le(p.0, q.0));
    } else {
        if p.0 == s.0 {
            lemma_lex_le_antisym(p.0, q.0);
        } else {
            lemma_lex_le_trans(p.0, q.0, s.0);
        }
    }
}

/// The byte strings of an exec pair.
pub open spec fn pair_view(p: (Vec<u8>, Vec<u8>)) -> (Seq<u8>, Seq<u8>) {
    (p.0@, p.1@)
}

/// The byte strings of an exec pair list.
pub open spec fn pairs_view(ps: Seq<(Vec<u8>, Vec<u8>)>) -> Seq<(Seq<u8>, Seq<u8>)> {
    ps.map_values(|p: (Vec<u8>, Vec<u8>)| pair_view(p))
}

/// Exec equality on byte strings.
pub fn bytes_eq(a: &Vec<u8>, b: &Vec<u8>) -> (r: bool)
    ensures
        r == (a@ == b@),
{
    if a.len() != b.len() {
        return false;
    }
    let mut i: usize = 0;
    while i < a.len()
        invariant
            i <= a@.len(),
            a@.len() == b@.len(),
            forall|j: int| 0 <= j < i ==> a@[j] == b@[j],
        decreases a@.len() - i,
    {
        if a[i] != b[i] {
            return false;
        }
        i = i + 1;
    }
    proof {
        assert(a@ =~= b@);
    }
    true
}

/// Exec mirror of `lex_le`.
pub fn bytes_le(a: &Vec<u8>, b: &Vec<u8>) -> (r: bool)
    ensures
        r == lex_le(a@, b@),
{
    let n = if a.len() < b.len() {
        a.len()
    } else {
        b.len()
    };
    let mut i: usize = 0;
    proof {
        assert(a@.skip(0) =~= a@);
        assert(b@.skip(0) =~= b@);
    }
    while i < n
        invariant
            i <= n,
            n <= a@.len(),
            n <= b@.len(),
            n == if a@.len() < b@.len() { a@.len() } else { b@.len() },
            lex_le(a@, b@) == lex_le(a@.skip(i as int), b@.skip(i as int)),
        decreases n - i,
    {
        proof {
            assert(a@.skip(i as int)[0] == a@[i as int]);
            assert(b@.skip(i as int)[0] == b@[i as int]);
        }
        if a[i] < b[i] {
            return true;
        }
        if a[i] > b[i] {
            return false;
        }
        proof {
            assert(a@.skip(i as int).skip(1) =~= a@.skip(i as int + 1));
            assert(b@.skip(i as int).skip(1) =~= b@.skip(i as int + 1));
        }
        i = i + 1;
    }
    proof {
        if a@.len() <= b@.len() {
            assert(a@.skip(i as int).len() == 0);
        } else {
            assert(b@.skip(i as int).len() == 0);
            assert(a@.skip(i as int).len() > 0);
        }
    }
    a.len() <= b.len()
}

/// Exec mirror of `pair_le`.
pub fn pair_le_exec(p: &(Vec<u8>, Vec<u8>), q: &(Vec<u8>, Vec<u8>)) -> (r: bool)
    ensures
        r == pair_le(pair_view(*p), pair_view(*q)),
{
    if bytes_eq(&p.0, &q.0) {
        bytes_le(&p.1, &q.1)
    } else {
        bytes_le(&p.0, &q.0)
    }
}

/// Finds the first position whose pair is not below `p`.
fn find_insert_pos(out: &Vec<(Vec<u8>, Vec<u8>)>, p: &(Vec<u8>, Vec<u8>)) -> (j: usize)
    ensures
        j <= out@.len(),
        forall|k: int| 0 <= k < j ==> pair_le(#[trigger] pairs_view(out@)[k], pair_view(*p)),
        j < out@.len() ==> pair_le(pair_view(*p), pairs_view(out@)[j as int]),
{
    let mut j: usize = 0;
    while j < out.len()
        invariant
            j <= out@.len(),
            forall|k: int| 0 <= k < j ==> pair_le(#[trigger] pairs_view(out@)[k], pair_view(*p)),
        decreases out@.len() - j,
    {
        if pair_le_exec(p, &out[j]) {
            return j;
        }
        proof {
            lemma_pair_le_total(pair_view(*p), pairs_view(out@)[j as int]);
        }
        j = j + 1;
    }
    j
}

/// Inserts a pair at its sorted position.
fn insert_pair_sorted(out: &mut Vec<(Vec<u8>, Vec<u8>)>, p: (Vec<u8>, Vec<u8>))
    requires
        sorted_by(pairs_view(old(out)@), pair_ord()),
    ensures
        sorted_by(pairs_view(final(out)@), pair_ord()),
        pairs_view(final(out)@).to_multiset() == pairs_view(old(out)@).to_multiset().insert(pair_view(p)),
{
    let ghost pv = pair_view(p);
    let ghost before = pairs_view(out@);
    let j = find_insert_pos(out, &p);
    proof {
        lemma_pair_ord_total();
    }
    out.insert(j, p);
    proof {
        let r = pair_ord();
        let after = pairs_view(out@);
        assert(after =~= before.insert(j as int, pv));
        assert forall|x: int, y: int| 0 <= x < y < after.len() implies #[trigger] r(
            after[x],
            after[y],
        ) by {
            if y < j {
                assert(r(before[x], before[y]));
            } else if x < j && y == j {
                assert(r(before[x], pv));
            } else if x < j && y > j {
                assert(r(before[x], before[y - 1]));
            } else if x == j && y > j {
                assert(r(pv, before[j as int]));
                if y - 1 > j {
                    assert(r(before[j as int], before[y - 1]));
                }
            } else {
                assert(r(before[x - 1], before[y - 1]));
            }
        }
        broadcast use vstd::seq_lib::to_multiset_insert;

        assert(after.to_multiset() == before.to_multiset().insert(pv));
    }
}

/// Sorts encoded pairs by the pair order, keeping the multiset of pairs.
pub fn sort_encoded_pairs(ps: Vec<(Vec<u8>, Vec<u8>)>) -> (r: Vec<(Vec<u8>, Vec<u8>)>)
    ensures
        sorted_by(pairs_view(r@), pair_ord()),
        pairs_view(r@).to_multiset() == pairs_view(ps@).to_multiset(),
{
    let ghost full = pairs_view(ps@);
    let mut rest = ps;
    let mut out: Vec<(Vec<u8>, Vec<u8>)> = Vec::new();
    proof {
        broadcast use vstd::multiset::group_multiset_axioms;
        broadcast use vstd::seq_lib::group_to_multiset_ensures;

        assert(pairs_view(out@).len() == 0);
        assert(pairs_view(out@).to_multiset().add(pairs_view(rest@).to_multiset())
            =~= pairs_view(rest@).to_multiset());
    }
    while rest.len() > 0
        invariant
            sorted_by(pairs_view(out@), pair_ord()),
            pairs_view(out@).to_multiset().add(pairs_view(rest@).to_multiset())
                == full.to_multiset(),
        decreases rest@.len(),
    {
        let ghost rest_before = pairs_view(rest@);
        let p = rest.pop().unwrap();
        proof {
            broadcast use vstd::seq_lib::to_multiset_build;
            broadcast use vstd::multiset::group_multiset_axioms;

            assert(pairs_view(rest@).push(pair_view(p)) =~= rest_before);
            assert(rest_before.to_multiset() == pairs_view(rest@).to_multiset().insert(
                pair_view(p),
            ));
        }
        insert_pair_sorted(&mut out, p);
        proof {
            broadcast use vstd::multiset::group_multiset_axioms;

            assert(pairs_view(out@).to_multiset().add(pairs_view(rest@).to_multiset())
                =~= full.to_multiset());
        }
    }
    proof {
        broadcast use vstd::multiset::group_multiset_axioms;
        broadcast use vstd::seq_lib::group_to_multiset_ensures;

        assert(pairs_view(rest@).len() == 0);
        assert(pairs_view(out@).to_multiset().add(pairs_view(rest@).to_multiset())
            =~= pairs_view(out@).to_multiset());
    }
    out
}

/// One `key=value` piece of the normalized string.
pub open spec fn pair_bytes(p: (Seq<u8>, Seq<u8>)) -> Seq<u8> {
    p.0 + seq![0x3du8] + p.1
}

/// Pieces joined with `&`.
pub open spec fn join_pairs(ps: Seq<(Seq<u8>, Seq<u8>)>) -> Seq<u8>
    decreases ps.len(),
{
    if ps.len() == 0 {
        Seq::empty()
    } else if ps.len() == 1 {
        pair_bytes(ps[0])
    } else {
        pair_bytes(ps[0]) + seq![0x26u8] + join_pairs(ps.skip(1))
    }
}

pub proof fn lemma_join_pairs_push(ps: Seq<(Seq<u8>, Seq<u8>)>, p: (Seq<u8>, Seq<u8>))
    ensures
        join_pairs(ps.push(p)) == if ps.len() == 0 {
            pair_bytes(p)
        } else {
            join_pairs(ps) + seq![0x26u8] + pair_bytes(p)
        },
    decreases ps.len(),
{
    if ps.len() == 0 {
        assert(ps.push(p).len() == 1);
        assert(ps.push(p)[0] == p);
    } else {
        lemma_join_pairs_push(ps.skip(1), p);
        assert(ps.push(p).skip(1) =~= ps.skip(1).push(p));
        if ps.len() == 1 {
            assert(ps.skip(1).len() == 0);
            assert(join_pairs(ps.push(p)) =~= join_pairs(ps) + seq![0x26u8] + pair_bytes(p));
        } else {
            assert(join_pairs(ps.push(p)) =~= join_pairs(ps) + seq![0x26u8] + pair_bytes(p));
        }
    }
}

/// Appends a byte string to a growing buffer.
pub fn append_bytes(out: &mut Vec<u8>, piece: &Vec<u8>)
    ensures
        final(out)@ == old(out)@ + piece@,
{
    let mut i: usize = 0;
    while i < piece.len()
        invariant
            i <= piece@.len(),
            out@ == old(out)@ + piece@.take(i as int),
        decreases piece@.len() - i,
    {
        out.push(piece[i]);
        proof {
            assert(piece@.take(i as int + 1) =~= piece@.take(i as int).push(piece@[i as int]));
            assert(old(out)@ + piece@.take(i as int + 1) =~= (old(out)@ + piece@.take(
                i as int,
            )).push(piece@[i as int]));
        }
        i = i + 1;
    }
    proof {
        assert(piece@.take(piece@.len() as int) =~= piece@);
    }
}

/// Copies a byte string.
pub fn copy_bytes(v: &Vec<u8>) -> (r: Vec<u8>)
    ensures
        r@ == v@,
{
    let mut r: Vec<u8> = Vec::new();
    append_bytes(&mut r, v);
    proof {
        assert(Seq::<u8>::empty() + v@ =~= v@);
    }
    r
}

/// Joins already-encoded pairs as `k=v&k=v&...`.
pub fn join_encoded_pairs(ps: &Vec<(Vec<u8>, Vec<u8>)>) -> (r: Vec<u8>)
    ensures
        r@ == join_pairs(pairs_view(ps@)),
{
    let mut out: Vec<u8> = Vec::new();
    let mut i: usize = 0;
    proof {
        assert(pairs_view(ps@.take(0)) =~= Seq::<(Seq<u8>, Seq<u8>)>::empty());
    }
    while i < ps.len()
        invariant
            i <= ps@.len(),
            out@ == join_pairs(pairs_view(ps@.take(i as int))),
        decreases ps@.len() - i,
    {
        if i > 0 {
            out.push(0x26);
        }
        append_bytes(&mut out, &ps[i].0);
        out.push(0x3d);
        append_bytes(&mut out, &ps[i].1);
        proof {
            let prefix = pairs_view(ps@.take(i as int));
            let pv = pair_view(ps@[i as int]);
            assert(pairs_view(ps@.take(i as int + 1)) =~= prefix.push(pv));
            lemma_join_pairs_push(prefix, pv);
            if i == 0 {
                assert(out@ =~= pair_bytes(pv));
            } else {
                assert(out@ =~= join_pairs(prefix) + seq![0x26u8] + pair_bytes(pv));
            }
        }
        i = i + 1;
    }
    proof {
        assert(ps@.take(ps@.len() as int) =~= ps@);
    }
    out
}

/// The pairs with key and value percent-encoded.
pub open spec fn encoded_pairs(ps: Seq<(Seq<u8>, Seq<u8>)>) -> Seq<(Seq<u8>, Seq<u8>)> {
    ps.map_values(|p: (Seq<u8>, Seq<u8>)| (percent_encoding(p.0), percent_encoding(p.1)))
}

/// The normalized parameter string of a parameter list.
pub open spec fn normalized_params(ps: Seq<(Seq<u8>, Seq<u8>)>) -> Seq<u8> {
    join_pairs(encoded_pairs(ps).sort_by(pair_ord()))
}

/// Builds the normalized parameter string: encode, sort, join.
pub fn normalize_params(ps: &Vec<(Vec<u8>, Vec<u8>)>) -> (r: Vec<u8>)
    ensures
        r@ == normalized_params(pairs_view(ps@)),
{
    let mut enc: Vec<(Vec<u8>, Vec<u8>)> = Vec::new();
    let mut i: usize = 0;
    proof {
        assert(pairs_view(enc@) =~~= encoded_pairs(pairs_view(ps@.take(0))));
    }
    while i < ps.len()
        invariant
            i <= ps@.len(),
            pairs_view(enc@) == encoded_pairs(pairs_view(ps@.take(i as int))),
        decreases ps@.len() - i,
    {
        let ghost enc_before = pairs_view(enc@);
        proof {
            assert(enc_before.len() == encoded_pairs(pairs_view(ps@.take(i as int))).len());
            assert(pairs_view(ps@.take(i as int)).len() == i);
            assert(enc@.len() == i);
        }
        let ek = percent_encode(ps[i].0.as_slice());
        let ev = percent_encode(ps[i].1.as_slice());
        enc.push((ek, ev));
        proof {
            let lhs = pairs_view(enc@);
            let rhs = encoded_pairs(pairs_view(ps@.take(i as int + 1)));
            assert(lhs.len() == i + 1);
            assert(rhs.len() == i + 1);
            assert forall|m: int| 0 <= m < i + 1 implies lhs[m] == rhs[m] by {
                if m < i {
                    assert(lhs[m] == enc_before[m]);
                    assert(ps@.take(i as int)[m] == ps@.take(i as int + 1)[m]);
                    assert(enc_before[m] == encoded_pairs(pairs_view(ps@.take(i as int)))[m]);
                } else {
                    assert(lhs[m] == (ek@, ev@));
                    assert(ps@.take(i as int + 1)[m] == ps@[i as int]);
                    assert(rhs[m] == (
                        percent_encoding(ps@[i as int].0@),
                        percent_encoding(ps@[i as int].1@),
                    ));
                }
            }
            assert(pairs_view(enc@) =~= encoded_pairs(pairs_view(ps@.take(i as int + 1))));
        }
        i = i + 1;
    }
    proof {
        assert(ps@.take(ps@.len() as int) =~= ps@);
    }
    let ghost epairs = encoded_pairs(pairs_view(ps@));
    let sorted = sort_encoded_pairs(enc);
    proof {
        lemma_pair_ord_total();
        epairs.lemma_sort_by_ensures(pair_ord());
        lemma_sorted_unique(pairs_view(sorted@), epairs.sort_by(pair_ord()), pair_ord());
    }
    join_encoded_pairs(&sorted)
}

/// The normalized string is the `&`-join of the encoded pairs arranged in
/// sorted order — ordered by encoded key, ties by encoded value — and that
/// arrangement keeps exactly the given pairs.
pub proof fn lemma_normalized_params_sorted(ps: Seq<(Seq<u8>, Seq<u8>)>)
    ensures
        normalized_params(ps) == join_pairs(encoded_pairs(ps).sort_by(pair_ord())),
        sorted_by(encoded_pairs(ps).sort_by(pair_ord()), pair_ord()),
        encoded_pairs(ps).sort_by(pair_ord()).to_multiset() == encoded_pairs(ps).to_multiset(),
{
    lemma_pair_ord_total();
    encoded_pairs(ps).lemma_sort_by_ensures(pair_ord());
}

/// Two parameter lists with the same parameters, in whatever order, normalize
/// to the same string: the sorted form of a multiset is unique.
pub proof fn lemma_normalized_params_order_irrelevant(
    ps1: Seq<(Seq<u8>, Seq<u8>)>,
    ps2: Seq<(Seq<u8>, Seq<u8>)>,
)
    requires
        ps1.to_multiset() == ps2.to_multiset(),
    ensures
        normalized_params(ps1) == normalized_params(ps2),
{
    lemma_map_values_multiset(
        ps1,
        ps2,
        |p: (Seq<u8>, Seq<u8>)| (percent_encoding(p.0), percent_encoding(p.1)),
    );
    lemma_pair_ord_total();
    encoded_pairs(ps1).lemma_sort_by_ensures(pair_ord());
    encoded_pairs(ps2).lemma_sort_by_ensures(pair_ord());
    lemma_sorted_unique(
        encoded_pairs(ps1).sort_by(pair_ord()),
        encoded_pairs(ps2).sort_by(pair_ord()),
        pair_ord(),
    );
}

/// No byte of `s` is one of the normalized string's separators `&` and `=`.
pub open spec fn sep_free(s: Seq<u8>) -> bool {
    forall|i: int| 0 <= i < s.len() ==> #[trigger] s[i] != 0x26 && s[i] != 0x3d
}

/// Both components of the pair are separator-free.
pub open spec fn pair_sep_free(p: (Seq<u8>, Seq<u8>)) -> bool {
    sep_free(p.0) && sep_free(p.1)
}

/// Every pair of the list is separator-free.
pub open spec fn all_sep_free(ps: Seq<(Seq<u8>, Seq<u8>)>) -> bool {
    forall|i: int| 0 <= i < ps.len() ==> pair_sep_free(#[trigger] ps[i])
}

/// Percent-encoded output carries no separator byte.
pub proof fn lemma_percent_encoding_sep_free(s: Seq<u8>)
    ensures
        sep_free(percent_encoding(s)),
{
    crate::percent::lemma_percent_encoding_charset(s);
    assert forall|i: int| 0 <= i < percent_encoding(s).len() implies #[trigger] percent_encoding(
        s,
    )[i] != 0x26 && percent_encoding(s)[i] != 0x3d by {
        assert(crate::percent::is_unreserved(percent_encoding(s)[i]) || percent_encoding(s)[i]
            == 0x25);
    }
}

/// Every encoded pair is separator-free.
pub proof fn lemma_encoded_pairs_sep_free(ps: Seq<(Seq<u8>, Seq<u8>)>)
    ensures
        all_sep_free(encoded_pairs(ps)),
{
    assert forall|i: int| 0 <= i < encoded_pairs(ps).len() implies pair_sep_free(
        #[trigger] encoded_pairs(ps)[i],
    ) by {
        lemma_percent_encoding_sep_free(ps[i].0);
        lemma_percent_encoding_sep_free(ps[i].1);
    }
}

/// How `split_once` at `&` takes a separator-free-joined list apart: the
/// first piece, and the join of the rest.
proof fn lemma_split_join(l: Seq<(Seq<u8>, Seq<u8>)>)
    requires
        l.len() >= 1,
        all_sep_free(l),
    ensures
        l.len() == 1 ==> crate::url::split_once(join_pairs(l), 0x26) == (
            join_pairs(l),
            None::<Seq<u8>>,
        ),
        l.len() > 1 ==> crate::url::split_once(join_pairs(l), 0x26) == (
            pair_bytes(l[0]),
            Some(join_pairs(l.skip(1))),
        ),
{
    let pb = pair_bytes(l[0]);
    assert(pair_sep_free(l[0]));
    assert forall|k: int| 0 <= k < pb.len() implies #[trigger] pb[k] != 0x26 by {
        if k < l[0].0.len() {
            assert(pb[k] == l[0].0[k]);
        } else if k == l[0].0.len() {
            assert(pb[k] == 0x3d);
        } else {
            assert(pb[k] == l[0].1[k - l[0].0.len() - 1]);
        }
    }
    if l.len() == 1 {
        assert(join_pairs(l) == pb);
        crate::url::lemma_split_once_characterize(pb, 0x26, pb.len() as int);
    } else {
        let whole = join_pairs(l);
        assert(whole == pb + seq![0x26u8] + join_pairs(l.skip(1)));
        let j = pb.len() as int;
        assert(whole[j] == 0x26);
        assert forall|k: int| 0 <= k < j implies whole[k] != 0x26 by {
            assert(whole[k] == pb[k]);
        }
        crate::url::lemma_split_once_characterize(whole, 0x26, j);
        assert(whole.take(j) =~= pb);
        assert(whole.skip(j + 1) =~= join_pairs(l.skip(1)));
    }
}

/// `key=value` serialization is injective on separator-free pairs.
proof fn lemma_pair_bytes_injective(p: (Seq<u8>, Seq<u8>), q: (Seq<u8>, Seq<u8>))
    requires
        pair_sep_free(p),
        pair_sep_free(q),
        pair_bytes(p) == pair_bytes(q),
    ensures
        p == q,
{
    let pb = pair_bytes(p);
    let qb = pair_bytes(q);
    assert(pb[p.0.len() as int] == 0x3d);
    assert forall|k: int| 0 <= k < p.0.len() implies pb[k] != 0x3d by {
        assert(pb[k] == p.0[k]);
    }
    crate::url::lemma_split_once_characterize(pb, 0x3d, p.0.len() as int);
    assert(qb[q.0.len() as int] == 0x3d);
    assert forall|k: int| 0 <= k < q.0.len() implies qb[k] != 0x3d by {
        assert(qb[k] == q.0[k]);
    }
    crate::url::lemma_split_once_characterize(qb, 0x3d, q.0.len() as int);
    assert(pb.take(p.0.len() as int) =~= p.0);
    assert(pb.skip(p.0.len() as int + 1) =~= p.1);
    assert(qb.take(q.0.len() as int) =~= q.0);
    assert(qb.skip(q.0.len() as int + 1) =~= q.1);
    assert(p.0 == q.0 && p.1 == q.1);
}

/// The `&`-join is injective on lists of separator-free pairs: the normalized
/// string determines exactly which pairs, in which order, produced it.
pub proof fn lemma_join_pairs_injective(l1: Seq<(Seq<u8>, Seq<u8>)>, l2: Seq<(Seq<u8>, Seq<u8>)>)
    requires
        all_sep_free(l1),
        all_sep_free(l2),
        join_pairs(l1) == join_pairs(l2),
    ensures
        l1 == l2,
    decreases l1.len(),
{
    if l1.len() == 0 {
        if l2.len() > 0 {
            assert(join_pairs(l2).len() >= pair_bytes(l2[0]).len());
            assert(pair_bytes(l2[0]).len() >= 1);
        }
        assert(l1 =~= l2);
    } else if l2.len() == 0 {
        assert(join_pairs(l1).len() >= pair_bytes(l1[0]).len());
        assert(pair_bytes(l1[0]).len() >= 1);
        assert(l1 =~= l2);
    } else {
        lemma_split_join(l1);
        lemma_split_join(l2);
        if l1.len() == 1 && l2.len() == 1 {
            lemma_pair_bytes_injective(l1[0], l2[0]);
            assert(l1 =~= l2);
        } else if l1.len() == 1 || l2.len() == 1 {
            assert(false);
        } else {
            lemma_pair_bytes_injective(l1[0], l2[0]);
            assert(all_sep_free(l1.skip(1))) by {
                assert forall|i: int| 0 <= i < l1.skip(1).len() implies pair_sep_free(
                    #[trigger] l1.skip(1)[i],
                ) by {
                    assert(l1.skip(1)[i] == l1[i + 1]);
                }
            }
            assert(all_sep_free(l2.skip(1))) by {
                assert forall|i: int| 0 <= i < l2.skip(1).len() implies pair_sep_free(
                    #[trigger] l2.skip(1)[i],
                ) by {
                    assert(l2.skip(1)[i] == l2[i + 1]);
                }
            }
            lemma_join_pairs_injective(l1.skip(1), l2.skip(1));
            assert forall|i: int| 0 <= i < l1.len() implies l1[i] == l2[i] by {
                if i > 0 {
                    assert(l1[i] == l1.skip(1)[i - 1]);
                    assert(l2[i] == l2.skip(1)[i - 1]);
                }
            }
            assert(l1 =~= l2);
        }
    }
}

/// Mapping a function over two lists with equal multisets yields equal multisets.
pub proof fn lemma_map_values_multiset<A, B>(s1: Seq<A>, s2: Seq<A>, f: spec_fn(A) -> B)
    requires
        s1.to_multiset() == s2.to_multiset(),
    ensures
        s1.map_values(f).to_multiset() == s2.map_values(f).to_multiset(),
    decreases s1.len(),
{
    broadcast use vstd::seq_lib::group_to_multiset_ensures;
    broadcast use vstd::multiset::group_multiset_axioms;

    vstd::seq_lib::to_multiset_len::<A>(s1);
    vstd::seq_lib::to_multiset_len::<A>(s2);
    if s1.len() == 0 {
        assert(s1.map_values(f) =~= Seq::<B>::empty());
        assert(s2.map_values(f) =~= Seq::<B>::empty());
        assert(s1.map_values(f).to_multiset() =~= s2.map_values(f).to_multiset());
    } else {
        let x = s1[0];
        assert(s1.to_multiset().contains(x));
        assert(s2.to_multiset().contains(x));
        assert(s2.contains(x));
        let i = choose|i: int| 0 <= i < s2.len() && s2[i] == x;
        vstd::seq_lib::to_multiset_remove::<A>(s1, 0);
        vstd::seq_lib::to_multiset_remove::<A>(s2, i);
        assert(s1.remove(0).to_multiset() == s2.remove(i).to_multiset());
        lemma_map_values_multiset(s1.remove(0), s2.remove(i), f);
        assert(s1.remove(0).map_values(f) =~= s1.map_values(f).remove(0));
        assert(s2.remove(i).map_values(f) =~= s2.map_values(f).remove(i));
        vstd::seq_lib::to_multiset_remove::<B>(s1.map_values(f), 0);
        vstd::seq_lib::to_multiset_remove::<B>(s2.map_values(f), i);
        let m1 = s1.map_values(f).to_multiset();
        let m2 = s2.map_values(f).to_multiset();
        assert(m1.remove(f(x)) == m2.remove(f(x)));
        assert(s1.map_values(f).to_multiset().contains(f(x)));
        assert(s2.map_values(f).contains(f(x)));
        assert(m2.contains(f(x)));
        assert(m1 =~= m1.remove(f(x)).insert(f(x)));
        assert(m2 =~= m2.remove(f(x)).insert(f(x)));
    }
}

} // verus!
