//! Laws of the bencode codec: decoding inverts canonical encoding, the
//! decoder never consumes past its syntactic boundary, canonical encoding
//! is insensitive to dictionary insertion order, and truncated list or
//! dictionary input fails with the matching unterminated error.

use vstd::prelude::*;

use crate::bencode::all_digits;
use crate::bencode::bdec_entries;
use crate::bencode::bdec_int;
use crate::bencode::bdec_items;
use crate::bencode::bdec_str;
use crate::bencode::bdec_val;
use crate::bencode::benc;
use crate::bencode::benc_items_m;
use crate::bencode::benc_pairs_m;
use crate::bencode::benc_str_bytes;
use crate::bencode::canon_rel;
use crate::bencode::dec_int;
use crate::bencode::dec_u;
use crate::bencode::dict_norm;
use crate::bencode::dict_put;
use crate::bencode::digit_val;
use crate::bencode::digits_val;
use crate::bencode::find_byte;
use crate::bencode::int_content_ok;
use crate::bencode::int_content_val;
use crate::bencode::is_digit;
use crate::bencode::lemma_bdec_entries_consumed;
use crate::bencode::lemma_bdec_items_consumed;
use crate::bencode::lemma_bdec_val_consumed;
use crate::bencode::lemma_find_byte_char;
use crate::bencode::find_key;
use crate::bencode::lemma_find_key_char;
use crate::bencode::lemma_find_byte_of;
use crate::bencode::lemma_find_key_of;
use crate::bencode::lemma_sorted_unique_pairs;
use crate::bencode::lemma_unique_keys_multiset;
use crate::bencode::m_canonical;
use crate::bencode::m_wf;
use crate::bencode::sorted_keys;
use crate::bencode::unique_keys;
use crate::bencode::BenModel;
use crate::bencode::DecodeError;
use crate::bencode::B_COLON;
use crate::bencode::B_LOWER_D;
use crate::bencode::B_LOWER_E;
use crate::bencode::B_LOWER_I;
use crate::bencode::B_LOWER_L;
use crate::bencode::B_MINUS;
use crate::bencode::B_ZERO;

verus! {

/// Decimal renderings are non-empty digit runs that evaluate back to the
/// number they render.
pub proof fn lemma_dec_u_digits(n: int)
    requires
        n >= 0,
    ensures
        all_digits(dec_u(n)),
        dec_u(n).len() >= 1,
        digits_val(dec_u(n)) == n,
    decreases n,
{
    if n < 10 {
        let d0 = (B_ZERO + n) as u8;
        let sd = seq![d0];
        assert(dec_u(n) =~= sd);
        assert(sd.drop_last() =~= Seq::<u8>::empty());
        assert(digits_val(Seq::<u8>::empty()) == 0);
        assert(digits_val(sd) == digits_val(sd.drop_last()) * 10 + digit_val(sd.last()));
        assert(digit_val(d0) == n);
    } else {
        lemma_dec_u_digits(n / 10);
        let d = dec_u(n);
        assert(d =~= dec_u(n / 10).push((B_ZERO + n % 10) as u8));
        assert(d.drop_last() =~= dec_u(n / 10));
        assert(d.last() == (B_ZERO + n % 10) as u8);
        assert(digits_val(d) == (n / 10) * 10 + n % 10);
        assert((n / 10) * 10 + n % 10 == n) by (nonlinear_arith);
        assert forall|i: int| 0 <= i < d.len() implies is_digit(d[i]) by {
            if i < d.len() - 1 {
                assert(d[i] == dec_u(n / 10)[i]);
            }
        }
    }
}

/// Decoding `<len>:<payload>` out of its own encoding followed by
/// anything yields the payload and consumes exactly the encoding.
pub proof fn lemma_bdec_str_of_enc(s: Seq<u8>, rest: Seq<u8>)
    requires
        s.len() <= usize::MAX,
    ensures
        bdec_str(benc_str_bytes(s) + rest) == Ok::<(Seq<u8>, int), DecodeError>(
            (s, benc_str_bytes(s).len() as int),
        ),
{
    let ll = s.len() as int;
    lemma_dec_u_digits(ll);
    let d = dec_u(ll);
    let j = d.len() as int;
    let full = benc_str_bytes(s) + rest;
    assert(benc_str_bytes(s) =~= d + seq![B_COLON] + s);
    assert(full.len() == j + 1 + s.len() + rest.len());
    assert forall|t: int| 0 <= t < j implies full[t] != B_COLON by {
        assert(full[t] == d[t]);
        assert(is_digit(d[t]));
    }
    assert(full[j] == B_COLON);
    lemma_find_byte_of(full, B_COLON, Some(j));
    assert(full.subrange(0, j) =~= d);
    assert(digits_val(d) == ll);
    assert(full.subrange(j + 1, j + 1 + ll) =~= s);
}

/// Decoding `i<dec>e` out of its own encoding followed by anything yields
/// the integer and consumes exactly the encoding.
pub proof fn lemma_bdec_int_of_enc(i: int, rest: Seq<u8>)
    requires
        i64::MIN <= i <= i64::MAX,
    ensures
        bdec_int(benc(BenModel::Int(i)) + rest) == Ok::<(int, int), DecodeError>(
            (i, benc(BenModel::Int(i)).len() as int),
        ),
{
    let c = dec_int(i);
    let enc = benc(BenModel::Int(i));
    assert(enc =~= seq![B_LOWER_I] + c + seq![B_LOWER_E]);
    let full = enc + rest;
    let j = 1 + c.len() as int;
    if i < 0 {
        lemma_dec_u_digits(-i);
        assert(c =~= seq![B_MINUS] + dec_u(-i));
    } else {
        lemma_dec_u_digits(i);
        assert(c =~= dec_u(i));
    }
    assert(full[0] == B_LOWER_I);
    assert forall|t: int| 0 <= t < j implies full[t] != B_LOWER_E by {
        if t >= 1 {
            assert(full[t] == c[t - 1]);
            if i < 0 {
                if t == 1 {
                    assert(c[0] == B_MINUS);
                } else {
                    assert(c[t - 1] == dec_u(-i)[t - 2]);
                    assert(is_digit(dec_u(-i)[t - 2]));
                }
            } else {
                assert(is_digit(c[t - 1]));
            }
        }
    }
    assert(full[j] == B_LOWER_E);
    lemma_find_byte_of(full, B_LOWER_E, Some(j));
    assert(full.subrange(1, j) =~= c);
    if i < 0 {
        assert(c[0] == B_MINUS);
        assert(c.skip(1) =~= dec_u(-i));
        assert(int_content_ok(c));
        assert(int_content_val(c) == -digits_val(dec_u(-i)));
        assert(int_content_val(c) == i);
    } else {
        assert(c[0] != B_MINUS) by {
            assert(is_digit(c[0]));
        }
        assert(int_content_ok(c));
        assert(int_content_val(c) == i);
    }
    assert(j + 1 == enc.len());
}

/// A canonical value's encoding is never empty.
pub proof fn lemma_benc_nonempty(m: BenModel)
    requires
        m_canonical(m),
    ensures
        benc(m).len() >= 2,
{
    match m {
        BenModel::Str(s) => {
            lemma_dec_u_digits(s.len() as int);
        },
        BenModel::Int(i) => {
            if i < 0 {
                lemma_dec_u_digits(-i);
            } else {
                lemma_dec_u_digits(i);
            }
        },
        BenModel::List(_) => {},
        BenModel::Dict(_) => {},
        BenModel::End => {},
    }
}

/// Normalization leaves entries with unique keys untouched.
pub proof fn lemma_dict_norm_id(es: Seq<(Seq<u8>, BenModel)>)
    requires
        unique_keys(es),
    ensures
        dict_norm(es) == es,
    decreases es.len(),
{
    if es.len() > 0 {
        let head = es.drop_last();
        assert(unique_keys(head)) by {
            assert(forall|i: int| 0 <= i < head.len() ==> head[i] == es[i]);
        }
        lemma_dict_norm_id(head);
        assert forall|i: int| 0 <= i < head.len() implies head[i].0 != es.last().0 by {
            assert(head[i] == es[i]);
            assert(es[i].0 != es[es.len() - 1].0);
        }
        lemma_find_key_of(head, es.last().0, None);
        assert(dict_norm(es) == dict_put(head, es.last().0, es.last().1));
        assert(dict_put(head, es.last().0, es.last().1) =~= es);
    } else {
        assert(dict_norm(es) =~= es);
    }
}

/// Decoding a canonical value's encoding followed by anything yields the
/// value and consumes exactly the encoding.
pub proof fn lemma_decode_encode(m: BenModel, rest: Seq<u8>)
    requires
        m_canonical(m),
    ensures
        bdec_val(benc(m) + rest) == Ok::<(BenModel, int), DecodeError>(
            (m, benc(m).len() as int),
        ),
    decreases m, 1int,
{
    let full = benc(m) + rest;
    lemma_benc_nonempty(m);
    match m {
        BenModel::Str(s) => {
            lemma_dec_u_digits(s.len() as int);
            assert(full[0] == dec_u(s.len() as int)[0]) by {
                assert(benc(m) =~= benc_str_bytes(s));
                assert(benc_str_bytes(s)[0] == dec_u(s.len() as int)[0]);
            }
            assert(is_digit(full[0]));
            assert(full[0] != B_LOWER_E && full[0] != B_LOWER_I && full[0] != B_LOWER_L && full[0]
                != B_LOWER_D);
            assert(benc_str_bytes(s) + rest =~= full);
            lemma_bdec_str_of_enc(s, rest);
        },
        BenModel::Int(i) => {
            assert(full[0] == B_LOWER_I);
            lemma_bdec_int_of_enc(i, rest);
        },
        BenModel::List(items) => {
            assert(full[0] == B_LOWER_L);
            assert(full.len() > 0);
            assert(full.skip(1) =~= benc_items_m(items) + seq![B_LOWER_E] + rest);
            lemma_decode_encode_items(items, rest);
            assert(benc(m).len() == 2 + benc_items_m(items).len());
        },
        BenModel::Dict(es) => {
            assert(full[0] == B_LOWER_D);
            assert(full.len() > 0);
            assert(full.skip(1) =~= benc_pairs_m(es) + seq![B_LOWER_E] + rest);
            lemma_decode_encode_entries(es, rest);
            lemma_dict_norm_id(es);
            assert(benc(m).len() == 2 + benc_pairs_m(es).len());
        },
        BenModel::End => {},
    }
}

/// Decoding a list body out of its canonical encoding plus terminator.
pub proof fn lemma_decode_encode_items(items: Seq<BenModel>, rest: Seq<u8>)
    requires
        forall|i: int| 0 <= i < items.len() ==> m_canonical(#[trigger] items[i]),
    ensures
        bdec_items(benc_items_m(items) + seq![B_LOWER_E] + rest) == Ok::<
            (Seq<BenModel>, int),
            DecodeError,
        >((items, benc_items_m(items).len() as int + 1)),
    decreases items, 0int,
{
    let full = benc_items_m(items) + seq![B_LOWER_E] + rest;
    if items.len() == 0 {
        assert(benc_items_m(items) =~= Seq::<u8>::empty());
        assert(full =~= seq![B_LOWER_E] + rest);
        assert(full.len() > 0 && full[0] == B_LOWER_E);
        assert(bdec_val(full) == Ok::<(BenModel, int), DecodeError>((BenModel::End, 1)));
        assert(items =~= Seq::<BenModel>::empty());
    } else {
        let first = items.first();
        let tail = items.drop_first();
        assert(m_canonical(first));
        assert(forall|i: int| 0 <= i < tail.len() ==> m_canonical(#[trigger] tail[i])) by {
            assert(forall|i: int| 0 <= i < tail.len() ==> tail[i] == items[i + 1]);
        }
        let e1 = benc(first);
        let tail_full = benc_items_m(tail) + seq![B_LOWER_E] + rest;
        assert(benc_items_m(items) =~= e1 + benc_items_m(tail));
        assert(full =~= e1 + tail_full);
        lemma_decode_encode(first, tail_full);
        lemma_benc_nonempty(first);
        assert(bdec_val(full) == Ok::<(BenModel, int), DecodeError>((first, e1.len() as int)));
        assert(first != BenModel::End);
        assert(1 <= e1.len() <= full.len());
        assert(full.skip(e1.len() as int) =~= tail_full);
        lemma_decode_encode_items(tail, rest);
        assert(seq![first] + tail =~= items);
        assert(benc_items_m(items).len() + 1 == e1.len() + (benc_items_m(tail).len() + 1));
    }
}

/// Decoding a dictionary body out of its canonical encoding plus
/// terminator: the raw pairs come back in stored order.
pub proof fn lemma_decode_encode_entries(es: Seq<(Seq<u8>, BenModel)>, rest: Seq<u8>)
    requires
        forall|i: int|
            0 <= i < es.len() ==> (#[trigger] es[i]).0.len() <= usize::MAX && m_canonical(
                es[i].1,
            ),
    ensures
        bdec_entries(benc_pairs_m(es) + seq![B_LOWER_E] + rest) == Ok::<
            (Seq<(Seq<u8>, BenModel)>, int),
            DecodeError,
        >((es, benc_pairs_m(es).len() as int + 1)),
    decreases es, 0int,
{
    let full = benc_pairs_m(es) + seq![B_LOWER_E] + rest;
    if es.len() == 0 {
        assert(benc_pairs_m(es) =~= Seq::<u8>::empty());
        assert(full =~= seq![B_LOWER_E] + rest);
        assert(full.len() > 0 && full[0] == B_LOWER_E);
        assert(bdec_val(full) == Ok::<(BenModel, int), DecodeError>((BenModel::End, 1)));
        assert(es =~= Seq::<(Seq<u8>, BenModel)>::empty());
    } else {
        let k0 = es.first().0;
        let v0 = es.first().1;
        let tail = es.drop_first();
        assert(forall|i: int|
            0 <= i < tail.len() ==> (#[trigger] tail[i]).0.len() <= usize::MAX && m_canonical(
                tail[i].1,
            )) by {
            assert(forall|i: int| 0 <= i < tail.len() ==> tail[i] == es[i + 1]);
        }
        let ek = benc_str_bytes(k0);
        let ev = benc(v0);
        let tail_full = benc_pairs_m(tail) + seq![B_LOWER_E] + rest;
        assert(benc_pairs_m(es) =~= ek + ev + benc_pairs_m(tail));
        assert(full =~= ek + (ev + tail_full));
        // the key decodes as a byte string
        lemma_dec_u_digits(k0.len() as int);
        assert(ek =~= dec_u(k0.len() as int) + seq![B_COLON] + k0);
        assert(full[0] == dec_u(k0.len() as int)[0]);
        assert(is_digit(full[0]));
        assert(full[0] != B_LOWER_E && full[0] != B_LOWER_I && full[0] != B_LOWER_L && full[0]
            != B_LOWER_D);
        assert(benc_str_bytes(k0) + (ev + tail_full) =~= full);
        lemma_bdec_str_of_enc(k0, ev + tail_full);
        assert(bdec_val(full) == Ok::<(BenModel, int), DecodeError>(
            (BenModel::Str(k0), ek.len() as int),
        ));
        assert(ek.len() >= 2);
        assert(1 <= ek.len() <= full.len());
        assert(full.skip(ek.len() as int) =~= ev + tail_full);
        lemma_decode_encode(v0, tail_full);
        lemma_benc_nonempty(v0);
        assert(bdec_val(full.skip(ek.len() as int)) == Ok::<(BenModel, int), DecodeError>(
            (v0, ev.len() as int),
        ));
        assert(v0 != BenModel::End);
        assert(1 <= ev.len() <= full.len() - ek.len());
        assert(full.skip(ek.len() as int + ev.len() as int) =~= tail_full) by {
            assert(full.skip(ek.len() as int).skip(ev.len() as int) =~= tail_full);
            assert(full.skip(ek.len() as int).skip(ev.len() as int) =~= full.skip(
                ek.len() as int + ev.len() as int,
            ));
        }
        lemma_decode_encode_entries(tail, rest);
        assert(seq![(k0, v0)] + tail =~= es);
        assert(benc_pairs_m(es).len() + 1 == ek.len() + ev.len() + (benc_pairs_m(tail).len() + 1));
    }
}

/// Round trip: decoding the canonical encoding of any canonical value
/// yields that value back, consuming the whole encoding.
pub proof fn lemma_round_trip(m: BenModel)
    requires
        m_canonical(m),
    ensures
        bdec_val(benc(m)) == Ok::<(BenModel, int), DecodeError>((m, benc(m).len() as int)),
{
    lemma_decode_encode(m, Seq::empty());
    assert(benc(m) + Seq::<u8>::empty() =~= benc(m));
}

/// Exact consumption: a successful decode never consumes more bytes than
/// the input holds; a decoded value other than the end-of-input sentinel
/// consumes at least one byte.
pub proof fn lemma_exact_consumption(s: Seq<u8>)
    ensures
        match bdec_val(s) {
            Ok((v, n)) => 0 <= n <= s.len() && (v != BenModel::End ==> 1 <= n),
            Err(_) => true,
        },
{
    lemma_bdec_val_consumed(s);
}


/// Appending bytes after a decodable string leaves the decode unchanged.
pub proof fn lemma_bdec_str_stable(p: Seq<u8>, t: Seq<u8>)
    ensures
        match bdec_str(p) {
            Ok((b, n)) => bdec_str(p + t) == Ok::<(Seq<u8>, int), DecodeError>((b, n)),
            Err(_) => true,
        },
{
    lemma_find_byte_char(p, B_COLON);
    match bdec_str(p) {
        Ok((b, n)) => {
            let j = find_byte(p, B_COLON)->Some_0;
            assert forall|q: int| 0 <= q < j implies (p + t)[q] != B_COLON by {
                assert((p + t)[q] == p[q]);
            }
            assert((p + t)[j] == p[j]);
            lemma_find_byte_of(p + t, B_COLON, Some(j));
            assert((p + t).subrange(0, j) =~= p.subrange(0, j));
            let ll = digits_val(p.subrange(0, j));
            crate::bencode::lemma_digits_val_nonneg(p.subrange(0, j));
            assert((p + t).subrange(j + 1, j + 1 + ll) =~= p.subrange(j + 1, j + 1 + ll));
        },
        Err(_) => {},
    }
}

/// Appending bytes after a decodable integer leaves the decode unchanged.
pub proof fn lemma_bdec_int_stable(p: Seq<u8>, t: Seq<u8>)
    ensures
        match bdec_int(p) {
            Ok((v, n)) => bdec_int(p + t) == Ok::<(int, int), DecodeError>((v, n)),
            Err(_) => true,
        },
{
    lemma_find_byte_char(p, B_LOWER_E);
    match bdec_int(p) {
        Ok((v, n)) => {
            assert((p + t)[0] == p[0]);
            let j = find_byte(p, B_LOWER_E)->Some_0;
            assert forall|q: int| 0 <= q < j implies (p + t)[q] != B_LOWER_E by {
                assert((p + t)[q] == p[q]);
            }
            assert((p + t)[j] == p[j]);
            lemma_find_byte_of(p + t, B_LOWER_E, Some(j));
            assert((p + t).subrange(1, j) =~= p.subrange(1, j));
        },
        Err(_) => {},
    }
}

/// The decoder never reads past its own syntactic boundary: a decode that
/// consumed at least one byte gives the same value and count when any
/// garbage is appended.
pub proof fn lemma_decode_stable(p: Seq<u8>, t: Seq<u8>)
    ensures
        match bdec_val(p) {
            Ok((v, n)) => n >= 1 ==> bdec_val(p + t) == Ok::<(BenModel, int), DecodeError>(
                (v, n),
            ),
            Err(_) => true,
        },
    decreases p.len(), 0int,
{
    if p.len() == 0 {
    } else {
        assert((p + t).len() > 0);
        assert((p + t)[0] == p[0]);
        if p[0] == B_LOWER_E {
        } else if p[0] == B_LOWER_I {
            lemma_bdec_int_stable(p, t);
        } else if p[0] == B_LOWER_L {
            assert((p + t).skip(1) =~= p.skip(1) + t);
            lemma_bdec_items_stable(p.skip(1), t);
        } else if p[0] == B_LOWER_D {
            assert((p + t).skip(1) =~= p.skip(1) + t);
            lemma_bdec_entries_stable(p.skip(1), t);
        } else {
            lemma_bdec_str_stable(p, t);
        }
    }
}

/// Append-stability of list-body decoding.
pub proof fn lemma_bdec_items_stable(p: Seq<u8>, t: Seq<u8>)
    ensures
        match bdec_items(p) {
            Ok((items, n)) => bdec_items(p + t) == Ok::<(Seq<BenModel>, int), DecodeError>(
                (items, n),
            ),
            Err(_) => true,
        },
    decreases p.len(), 1int,
{
    lemma_bdec_val_consumed(p);
    match bdec_val(p) {
        Err(_) => {},
        Ok((v, n0)) => {
            if v == BenModel::End {
                if n0 == 1 {
                    assert(p.len() > 0 && p[0] == B_LOWER_E);
                    assert((p + t).len() > 0 && (p + t)[0] == B_LOWER_E);
                }
            } else {
                lemma_decode_stable(p, t);
                if 1 <= n0 <= p.len() {
                    assert((p + t).skip(n0) =~= p.skip(n0) + t);
                    lemma_bdec_items_stable(p.skip(n0), t);
                }
            }
        },
    }
}

/// Append-stability of dictionary-body decoding.
pub proof fn lemma_bdec_entries_stable(p: Seq<u8>, t: Seq<u8>)
    ensures
        match bdec_entries(p) {
            Ok((es, n)) => bdec_entries(p + t) == Ok::<
                (Seq<(Seq<u8>, BenModel)>, int),
                DecodeError,
            >((es, n)),
            Err(_) => true,
        },
    decreases p.len(), 1int,
{
    lemma_bdec_val_consumed(p);
    match bdec_val(p) {
        Err(_) => {},
        Ok((k, n0)) => {
            if k == BenModel::End {
                if n0 == 1 {
                    assert(p.len() > 0 && p[0] == B_LOWER_E);
                    assert((p + t).len() > 0 && (p + t)[0] == B_LOWER_E);
                }
            } else if k is Str {
                lemma_decode_stable(p, t);
                if 1 <= n0 <= p.len() {
                    lemma_bdec_val_consumed(p.skip(n0));
                    assert((p + t).skip(n0) =~= p.skip(n0) + t);
                    match bdec_val(p.skip(n0)) {
                        Err(_) => {},
                        Ok((v, m0)) => {
                            if v != BenModel::End {
                                lemma_decode_stable(p.skip(n0), t);
                                if 1 <= m0 <= p.len() - n0 {
                                    assert((p + t).skip(n0 + m0) =~= p.skip(n0 + m0) + t);
                                    lemma_bdec_entries_stable(p.skip(n0 + m0), t);
                                }
                            }
                        },
                    }
                }
            }
        },
    }
}

/// Decoding a canonical list body with its terminator cut off fails as
/// unterminated, never loops or succeeds.
pub proof fn lemma_items_unterminated(items: Seq<BenModel>)
    requires
        forall|i: int| 0 <= i < items.len() ==> m_canonical(#[trigger] items[i]),
    ensures
        bdec_items(benc_items_m(items)) == Err::<(Seq<BenModel>, int), DecodeError>(
            DecodeError::UnterminatedList,
        ),
    decreases items,
{
    if items.len() == 0 {
        assert(benc_items_m(items) =~= Seq::<u8>::empty());
        assert(bdec_val(Seq::<u8>::empty()) == Ok::<(BenModel, int), DecodeError>(
            (BenModel::End, 0),
        ));
        assert(bdec_items(Seq::<u8>::empty()) == Err::<(Seq<BenModel>, int), DecodeError>(
            DecodeError::UnterminatedList,
        ));
    } else {
        let first = items.first();
        let tail = items.drop_first();
        assert(forall|i: int| 0 <= i < tail.len() ==> m_canonical(#[trigger] tail[i])) by {
            assert(forall|i: int| 0 <= i < tail.len() ==> tail[i] == items[i + 1]);
        }
        let e1 = benc(first);
        let s = benc_items_m(items);
        assert(s =~= e1 + benc_items_m(tail));
        lemma_decode_encode(first, benc_items_m(tail));
        lemma_benc_nonempty(first);
        assert(bdec_val(s) == Ok::<(BenModel, int), DecodeError>((first, e1.len() as int)));
        assert(first != BenModel::End);
        assert(1 <= e1.len() <= s.len());
        assert(s.skip(e1.len() as int) =~= benc_items_m(tail));
        lemma_items_unterminated(tail);
    }
}

/// Decoding a canonical dictionary body with its terminator cut off fails
/// as unterminated, never loops or succeeds.
pub proof fn lemma_entries_unterminated(es: Seq<(Seq<u8>, BenModel)>)
    requires
        forall|i: int|
            0 <= i < es.len() ==> (#[trigger] es[i]).0.len() <= usize::MAX && m_canonical(
                es[i].1,
            ),
    ensures
        bdec_entries(benc_pairs_m(es)) == Err::<(Seq<(Seq<u8>, BenModel)>, int), DecodeError>(
            DecodeError::UnterminatedDict,
        ),
    decreases es,
{
    if es.len() == 0 {
        assert(benc_pairs_m(es) =~= Seq::<u8>::empty());
        assert(bdec_val(Seq::<u8>::empty()) == Ok::<(BenModel, int), DecodeError>(
            (BenModel::End, 0),
        ));
        assert(bdec_entries(Seq::<u8>::empty()) == Err::<
            (Seq<(Seq<u8>, BenModel)>, int),
            DecodeError,
        >(DecodeError::UnterminatedDict));
    } else {
        let k0 = es.first().0;
        let v0 = es.first().1;
        let tail = es.drop_first();
        assert(forall|i: int|
            0 <= i < tail.len() ==> (#[trigger] tail[i]).0.len() <= usize::MAX && m_canonical(
                tail[i].1,
            )) by {
            assert(forall|i: int| 0 <= i < tail.len() ==> tail[i] == es[i + 1]);
        }
        let ek = benc_str_bytes(k0);
        let ev = benc(v0);
        let s = benc_pairs_m(es);
        assert(s =~= ek + (ev + benc_pairs_m(tail)));
        lemma_dec_u_digits(k0.len() as int);
        assert(ek =~= dec_u(k0.len() as int) + seq![B_COLON] + k0);
        assert(s[0] == dec_u(k0.len() as int)[0]);
        assert(is_digit(s[0]));
        assert(s[0] != B_LOWER_E && s[0] != B_LOWER_I && s[0] != B_LOWER_L && s[0] != B_LOWER_D);
        assert(benc_str_bytes(k0) + (ev + benc_pairs_m(tail)) =~= s);
        lemma_bdec_str_of_enc(k0, ev + benc_pairs_m(tail));
        assert(bdec_val(s) == Ok::<(BenModel, int), DecodeError>(
            (BenModel::Str(k0), ek.len() as int),
        ));
        assert(ek.len() >= 2);
        assert(1 <= ek.len() <= s.len());
        assert(s.skip(ek.len() as int) =~= ev + benc_pairs_m(tail));
        lemma_decode_encode(v0, benc_pairs_m(tail));
        lemma_benc_nonempty(v0);
        assert(bdec_val(s.skip(ek.len() as int)) == Ok::<(BenModel, int), DecodeError>(
            (v0, ev.len() as int),
        ));
        assert(v0 != BenModel::End);
        assert(1 <= ev.len() <= s.len() - ek.len());
        assert(s.skip(ek.len() as int + ev.len() as int) =~= benc_pairs_m(tail)) by {
            assert(s.skip(ek.len() as int).skip(ev.len() as int) =~= benc_pairs_m(tail));
            assert(s.skip(ek.len() as int).skip(ev.len() as int) =~= s.skip(
                ek.len() as int + ev.len() as int,
            ));
        }
        lemma_entries_unterminated(tail);
    }
}

/// Cutting the final terminator off a canonical list or dictionary
/// encoding makes decoding fail with the matching unterminated error.
pub proof fn lemma_truncation_unterminated(m: BenModel)
    requires
        m_canonical(m),
        m is List || m is Dict,
    ensures
        m is List ==> bdec_val(benc(m).drop_last()) == Err::<(BenModel, int), DecodeError>(
            DecodeError::UnterminatedList,
        ),
        m is Dict ==> bdec_val(benc(m).drop_last()) == Err::<(BenModel, int), DecodeError>(
            DecodeError::UnterminatedDict,
        ),
{
    match m {
        BenModel::List(items) => {
            let cut = benc(m).drop_last();
            assert(cut =~= seq![B_LOWER_L] + benc_items_m(items));
            assert(cut.len() > 0 && cut[0] == B_LOWER_L);
            assert(cut.skip(1) =~= benc_items_m(items));
            lemma_items_unterminated(items);
        },
        BenModel::Dict(es) => {
            let cut = benc(m).drop_last();
            assert(cut =~= seq![B_LOWER_D] + benc_pairs_m(es));
            assert(cut.len() > 0 && cut[0] == B_LOWER_D);
            assert(cut.skip(1) =~= benc_pairs_m(es));
            lemma_entries_unterminated(es);
        },
        _ => {},
    }
}

/// Canonical determinism: two dictionaries holding the same key/value
/// pairs in any two insertion orders canonicalize to the same value, so
/// their canonical encodings are byte-identical.
pub proof fn lemma_canonical_determinism(
    es1: Seq<(Seq<u8>, BenModel)>,
    es2: Seq<(Seq<u8>, BenModel)>,
    c1: BenModel,
    c2: BenModel,
)
    requires
        m_wf(BenModel::Dict(es1)),
        m_wf(BenModel::Dict(es2)),
        es1.to_multiset() == es2.to_multiset(),
        canon_rel(BenModel::Dict(es1), c1),
        m_canonical(c1),
        canon_rel(BenModel::Dict(es2), c2),
        m_canonical(c2),
    ensures
        c1 == c2,
        benc(c1) == benc(c2),
{
    broadcast use vstd::seq_lib::group_to_multiset_ensures;

    let d1 = BenModel::Dict(es1);
    let d2 = BenModel::Dict(es2);
    let ys1 = c1->Dict_0;
    let ys2 = c2->Dict_0;
    let mid1 = choose|mid: Seq<(Seq<u8>, BenModel)>|
        #[trigger] mid.to_multiset() == ys1.to_multiset() && mid.len() == es1.len() && (forall|
            i: int,
        |
            0 <= i < es1.len() ==> (#[trigger] mid[i]).0 == es1[i].0 && canon_rel(
                es1[i].1,
                mid[i].1,
            )) && sorted_keys(ys1);
    let mid2 = choose|mid: Seq<(Seq<u8>, BenModel)>|
        #[trigger] mid.to_multiset() == ys2.to_multiset() && mid.len() == es2.len() && (forall|
            i: int,
        |
            0 <= i < es2.len() ==> (#[trigger] mid[i]).0 == es2[i].0 && canon_rel(
                es2[i].1,
                mid[i].1,
            )) && sorted_keys(ys2);
    es1.to_multiset_ensures();
    es2.to_multiset_ensures();
    mid1.to_multiset_ensures();
    mid2.to_multiset_ensures();
    assert(unique_keys(mid1)) by {
        assert forall|a: int, b: int|
            0 <= a < b < mid1.len() implies (#[trigger] mid1[a]).0 != (#[trigger] mid1[b]).0 by {
            assert(mid1[a].0 == es1[a].0 && mid1[b].0 == es1[b].0);
            assert(d1->Dict_0[a].0 != d1->Dict_0[b].0);
        }
    }
    assert(unique_keys(mid2)) by {
        assert forall|a: int, b: int|
            0 <= a < b < mid2.len() implies (#[trigger] mid2[a]).0 != (#[trigger] mid2[b]).0 by {
            assert(mid2[a].0 == es2[a].0 && mid2[b].0 == es2[b].0);
            assert(d2->Dict_0[a].0 != d2->Dict_0[b].0);
        }
    }
    assert(mid1.no_duplicates()) by {
        assert forall|a: int, b: int|
            0 <= a < mid1.len() && 0 <= b < mid1.len() && a != b implies mid1[a] != mid1[b] by {
            if a < b {
                assert(mid1[a].0 != mid1[b].0);
            } else {
                assert(mid1[b].0 != mid1[a].0);
            }
        }
    }
    assert(mid2.no_duplicates()) by {
        assert forall|a: int, b: int|
            0 <= a < mid2.len() && 0 <= b < mid2.len() && a != b implies mid2[a] != mid2[b] by {
            if a < b {
                assert(mid2[a].0 != mid2[b].0);
            } else {
                assert(mid2[b].0 != mid2[a].0);
            }
        }
    }
    mid1.lemma_multiset_has_no_duplicates();
    mid2.lemma_multiset_has_no_duplicates();
    assert forall|e: (Seq<u8>, BenModel)| mid1.contains(e) implies mid2.contains(e) by {
        let i = choose|i: int| 0 <= i < mid1.len() && mid1[i] == e;
        lemma_member_canonical(ys1, mid1, i);
        assert(es1.contains(es1[i]));
        assert(es1.to_multiset().count(es1[i]) > 0);
        assert(es2.to_multiset().count(es1[i]) > 0);
        assert(es2.contains(es1[i]));
        let j = choose|j: int| 0 <= j < es2.len() && es2[j] == es1[i];
        lemma_member_canonical(ys2, mid2, j);
        assert(m_wf(d1->Dict_0[i].1));
        assert(canon_rel(es2[j].1, mid2[j].1));
        lemma_canon_unique(es1[i].1, mid1[i].1, mid2[j].1);
        assert(mid2[j] == e);
    }
    assert forall|e: (Seq<u8>, BenModel)| mid2.contains(e) implies mid1.contains(e) by {
        let i = choose|i: int| 0 <= i < mid2.len() && mid2[i] == e;
        lemma_member_canonical(ys2, mid2, i);
        assert(es2.contains(es2[i]));
        assert(es2.to_multiset().count(es2[i]) > 0);
        assert(es1.to_multiset().count(es2[i]) > 0);
        assert(es1.contains(es2[i]));
        let j = choose|j: int| 0 <= j < es1.len() && es1[j] == es2[i];
        lemma_member_canonical(ys1, mid1, j);
        assert(m_wf(d2->Dict_0[i].1));
        assert(canon_rel(es1[j].1, mid1[j].1));
        lemma_canon_unique(es2[i].1, mid2[i].1, mid1[j].1);
        assert(mid1[j] == e);
    }
    assert(mid1.to_multiset() =~= mid2.to_multiset()) by {
        assert forall|e: (Seq<u8>, BenModel)|
            #[trigger] mid1.to_multiset().count(e) == mid2.to_multiset().count(e) by {
            if mid1.contains(e) {
                assert(mid1.to_multiset().count(e) == 1);
                assert(mid2.contains(e));
                assert(mid2.to_multiset().count(e) == 1);
            } else {
                assert(mid1.to_multiset().count(e) == 0);
                if mid2.contains(e) {
                    assert(mid1.contains(e));
                }
                assert(!mid2.contains(e));
                assert(mid2.to_multiset().count(e) == 0);
            }
        }
    }
    assert(ys1.to_multiset() == ys2.to_multiset());
    lemma_unique_keys_multiset(mid1, ys1);
    lemma_unique_keys_multiset(mid1, ys2);
    lemma_sorted_unique_pairs(ys1, ys2);
    assert(c1 == BenModel::Dict(ys1) && c2 == BenModel::Dict(ys2));
}

/// Round trip of any well-formed tree: the canonical encoding the
/// encoder produces decodes back to exactly the canonical form — the
/// same logical content (`canon_rel`) with every dictionary in sorted
/// key order — consuming the whole encoding. For a tree that is already
/// canonical this specializes to `lemma_round_trip`.
pub proof fn lemma_round_trip_wf(m: BenModel, c: BenModel)
    requires
        m_wf(m),
        canon_rel(m, c),
        m_canonical(c),
    ensures
        bdec_val(benc(c)) == Ok::<(BenModel, int), DecodeError>((c, benc(c).len() as int)),
{
    lemma_round_trip(c);
}


/// The canonical form of a well-formed value is unique: any two
/// canonicalizations coincide, so the canonical encoding is a function of
/// the value alone.
pub proof fn lemma_canon_unique(a: BenModel, c1: BenModel, c2: BenModel)
    requires
        m_wf(a),
        canon_rel(a, c1),
        canon_rel(a, c2),
        m_canonical(c1),
        m_canonical(c2),
    ensures
        c1 == c2,
    decreases a,
{
    match a {
        BenModel::Str(_) => {},
        BenModel::Int(_) => {},
        BenModel::List(xs) => {
            let ys1 = c1->List_0;
            let ys2 = c2->List_0;
            assert forall|i: int| 0 <= i < xs.len() implies ys1[i] == ys2[i] by {
                assert(m_wf(a->List_0[i]));
                assert(m_canonical(c1->List_0[i]));
                assert(m_canonical(c2->List_0[i]));
                assert(canon_rel(xs[i], ys1[i]));
                assert(canon_rel(xs[i], ys2[i]));
                lemma_canon_unique(xs[i], ys1[i], ys2[i]);
            }
            assert(ys1 =~= ys2);
        },
        BenModel::Dict(xs) => {
            let ys1 = c1->Dict_0;
            let ys2 = c2->Dict_0;
            let mid1 = choose|mid: Seq<(Seq<u8>, BenModel)>|
                #[trigger] mid.to_multiset() == ys1.to_multiset() && mid.len() == xs.len() && (
                forall|i: int|
                    0 <= i < xs.len() ==> (#[trigger] mid[i]).0 == xs[i].0 && canon_rel(
                        xs[i].1,
                        mid[i].1,
                    )) && sorted_keys(ys1);
            let mid2 = choose|mid: Seq<(Seq<u8>, BenModel)>|
                #[trigger] mid.to_multiset() == ys2.to_multiset() && mid.len() == xs.len() && (
                forall|i: int|
                    0 <= i < xs.len() ==> (#[trigger] mid[i]).0 == xs[i].0 && canon_rel(
                        xs[i].1,
                        mid[i].1,
                    )) && sorted_keys(ys2);
            assert forall|i: int| 0 <= i < xs.len() implies mid1[i] == mid2[i] by {
                assert(m_wf(a->Dict_0[i].1));
                lemma_member_canonical(ys1, mid1, i);
                lemma_member_canonical(ys2, mid2, i);
                lemma_canon_unique(xs[i].1, mid1[i].1, mid2[i].1);
            }
            assert(mid1 =~= mid2);
            assert(unique_keys(mid1)) by {
                assert forall|i: int, j: int|
                    0 <= i < j < mid1.len() implies (#[trigger] mid1[i]).0 != (
                    #[trigger] mid1[j]).0 by {
                    assert(mid1[i].0 == xs[i].0 && mid1[j].0 == xs[j].0);
                    assert(a->Dict_0[i].0 != a->Dict_0[j].0);
                }
            }
            lemma_unique_keys_multiset(mid1, ys1);
            lemma_unique_keys_multiset(mid1, ys2);
            lemma_sorted_unique_pairs(ys1, ys2);
        },
        BenModel::End => {},
    }
}

/// A pair of a multiset-equal companion of canonical-valued entries has a
/// canonical value itself.
proof fn lemma_member_canonical(
    ys: Seq<(Seq<u8>, BenModel)>,
    mid: Seq<(Seq<u8>, BenModel)>,
    i: int,
)
    requires
        mid.to_multiset() == ys.to_multiset(),
        0 <= i < mid.len(),
        m_canonical(BenModel::Dict(ys)),
    ensures
        m_canonical(mid[i].1),
{
    broadcast use vstd::seq_lib::group_to_multiset_ensures;

    mid.to_multiset_ensures();
    ys.to_multiset_ensures();
    assert(mid.contains(mid[i]));
    assert(mid.to_multiset().count(mid[i]) > 0);
    assert(ys.to_multiset().count(mid[i]) > 0);
    assert(ys.contains(mid[i]));
    let w = choose|w: int| 0 <= w < ys.len() && ys[w] == mid[i];
    assert(m_canonical(BenModel::Dict(ys)->Dict_0[w].1));
}

/// Any two canonical encodings of one well-formed value are
/// byte-identical.
pub proof fn lemma_encode_deterministic(a: BenModel, c1: BenModel, c2: BenModel)
    requires
        m_wf(a),
        canon_rel(a, c1),
        canon_rel(a, c2),
        m_canonical(c1),
        m_canonical(c2),
    ensures
        benc(c1) == benc(c2),
{
    lemma_canon_unique(a, c1, c2);
}


/// Map-style insertion preserves key uniqueness.
proof fn lemma_dict_put_unique(es: Seq<(Seq<u8>, BenModel)>, k: Seq<u8>, v: BenModel)
    requires
        unique_keys(es),
    ensures
        unique_keys(dict_put(es, k, v)),
{
    lemma_find_key_char(es, k);
    match find_key(es, k) {
        Some(i) => {
            let r = es.update(i, (k, v));
            assert forall|a: int, b: int|
                0 <= a < b < r.len() implies (#[trigger] r[a]).0 != (#[trigger] r[b]).0 by {
                assert(es[i].0 == k);
                if a != i && b != i {
                    assert(r[a] == es[a] && r[b] == es[b]);
                } else if a == i {
                    assert(r[b] == es[b]);
                    assert(es[i].0 != es[b].0);
                } else {
                    assert(r[a] == es[a]);
                    assert(es[a].0 != es[i].0);
                }
            }
        },
        None => {
            let r = es.push((k, v));
            assert forall|a: int, b: int|
                0 <= a < b < r.len() implies (#[trigger] r[a]).0 != (#[trigger] r[b]).0 by {
                if b == es.len() {
                    assert(r[a] == es[a]);
                    assert(es[a].0 != k);
                } else {
                    assert(r[a] == es[a] && r[b] == es[b]);
                }
            }
        },
    }
}

/// Every entry of an insertion comes from the old entries or is the new
/// pair.
proof fn lemma_dict_put_member(es: Seq<(Seq<u8>, BenModel)>, k: Seq<u8>, v: BenModel, i: int)
    requires
        0 <= i < dict_put(es, k, v).len(),
    ensures
        dict_put(es, k, v)[i] == (k, v) || exists|j: int|
            0 <= j < es.len() && es[j] == dict_put(es, k, v)[i],
{
    lemma_find_key_char(es, k);
    match find_key(es, k) {
        Some(w) => {
            if i != w {
                assert(es[i] == dict_put(es, k, v)[i]);
            }
        },
        None => {
            if i < es.len() {
                assert(es[i] == dict_put(es, k, v)[i]);
            }
        },
    }
}

/// Normalized entries have unique keys, and each one is one of the raw
/// pairs.
pub proof fn lemma_dict_norm_wf(raw: Seq<(Seq<u8>, BenModel)>)
    ensures
        unique_keys(dict_norm(raw)),
        forall|i: int|
            0 <= i < dict_norm(raw).len() ==> exists|j: int|
                0 <= j < raw.len() && raw[j] == #[trigger] dict_norm(raw)[i],
    decreases raw.len(),
{
    if raw.len() == 0 {
    } else {
        let head = raw.drop_last();
        lemma_dict_norm_wf(head);
        lemma_dict_put_unique(dict_norm(head), raw.last().0, raw.last().1);
        assert forall|i: int| 0 <= i < dict_norm(raw).len() implies exists|j: int|
            0 <= j < raw.len() && raw[j] == #[trigger] dict_norm(raw)[i] by {
            lemma_dict_put_member(dict_norm(head), raw.last().0, raw.last().1, i);
            if dict_norm(raw)[i] == (raw.last().0, raw.last().1) {
                assert(raw[raw.len() - 1] == dict_norm(raw)[i]);
            } else {
                let w = choose|w: int|
                    0 <= w < dict_norm(head).len() && dict_norm(head)[w] == dict_norm(raw)[i];
                let j = choose|j: int| 0 <= j < head.len() && head[j] == dict_norm(head)[w];
                assert(raw[j] == dict_norm(raw)[i]);
            }
        }
    }
}

/// Whatever decodes is well formed: no `End` inside, integers in range,
/// string lengths addressable, dictionary keys unique. Decoded trees can
/// therefore always be re-encoded canonically.
pub proof fn lemma_decoded_well_formed(s: Seq<u8>)
    ensures
        match bdec_val(s) {
            Ok((v, n)) => v == BenModel::End || m_wf(v),
            Err(_) => true,
        },
    decreases s.len(), 0int,
{
    if s.len() == 0 {
    } else if s[0] == B_LOWER_E {
    } else if s[0] == B_LOWER_I {
    } else if s[0] == B_LOWER_L {
        lemma_decoded_items_wf(s.skip(1));
        match bdec_items(s.skip(1)) {
            Ok((items, _)) => {
                assert(m_wf(BenModel::List(items)));
            },
            Err(_) => {},
        }
    } else if s[0] == B_LOWER_D {
        lemma_decoded_entries_wf(s.skip(1));
        match bdec_entries(s.skip(1)) {
            Ok((raw, _)) => {
                lemma_dict_norm_wf(raw);
                let norm = dict_norm(raw);
                assert forall|i: int| 0 <= i < norm.len() implies (#[trigger] norm[i]).0.len()
                    <= usize::MAX && m_wf(norm[i].1) by {
                    let j = choose|j: int| 0 <= j < raw.len() && raw[j] == norm[i];
                }
                assert(m_wf(BenModel::Dict(norm)));
            },
            Err(_) => {},
        }
    } else {
        lemma_find_byte_char(s, B_COLON);
        match bdec_str(s) {
            Ok((b, _)) => {
                let j = find_byte(s, B_COLON)->Some_0;
                crate::bencode::lemma_digits_val_nonneg(s.subrange(0, j));
                assert(b.len() <= usize::MAX);
            },
            Err(_) => {},
        }
    }
}

/// Every decoded list item is a well-formed value, never the sentinel.
proof fn lemma_decoded_items_wf(s: Seq<u8>)
    ensures
        match bdec_items(s) {
            Ok((items, _)) => forall|i: int|
                0 <= i < items.len() ==> m_wf(#[trigger] items[i]),
            Err(_) => true,
        },
    decreases s.len(), 1int,
{
    lemma_bdec_val_consumed(s);
    lemma_decoded_well_formed(s);
    match bdec_val(s) {
        Err(_) => {},
        Ok((v, n)) => {
            if v != BenModel::End && 1 <= n <= s.len() {
                lemma_decoded_items_wf(s.skip(n));
            }
        },
    }
}

/// Every decoded dictionary pair has an addressable key and a well-formed
/// value, never the sentinel.
proof fn lemma_decoded_entries_wf(s: Seq<u8>)
    ensures
        match bdec_entries(s) {
            Ok((raw, _)) => forall|i: int|
                0 <= i < raw.len() ==> (#[trigger] raw[i]).0.len() <= usize::MAX && m_wf(
                    raw[i].1,
                ),
            Err(_) => true,
        },
    decreases s.len(), 1int,
{
    lemma_bdec_val_consumed(s);
    lemma_decoded_well_formed(s);
    match bdec_val(s) {
        Err(_) => {},
        Ok((k, n)) => {
            if k is Str && 1 <= n <= s.len() {
                lemma_bdec_val_consumed(s.skip(n));
                lemma_decoded_well_formed(s.skip(n));
                match bdec_val(s.skip(n)) {
                    Err(_) => {},
                    Ok((v, m)) => {
                        if v != BenModel::End && 1 <= m <= s.len() - n {
                            lemma_decoded_entries_wf(s.skip(n + m));
                        }
                    },
                }
            }
        },
    }
}

} // verus!
