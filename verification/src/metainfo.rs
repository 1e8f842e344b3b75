//! Metadata extraction: walking a decoded torrent dictionary for the
//! tracker announce URLs, and hashing the canonical encoding of the
//! `info` sub-dictionary through the outside digest collaborator.

use vstd::prelude::*;

use sha1::Digest;
use sha1::Sha1;

use crate::bencode::bytes_dup;
use crate::bencode::bytes_eq;
use crate::bencode::canon_rel;
use crate::bencode::dict_put;
use crate::bencode::encode_bencode;
use crate::bencode::find_key;
use crate::bencode::lemma_find_key_of;
use crate::bencode::lemma_pair_views_of;
use crate::bencode::benc;
use crate::bencode::m_canonical;
use crate::bencode::m_wf;
use crate::bencode::pair_views_of;
use crate::bencode::views_of;
use crate::bencode::BDict;
use crate::bencode::BenModel;
use crate::bencode::Bencode;

verus! {

/// The 20-byte SHA-1 digest of a byte run, as the outside hash
/// collaborator computes it: a function of the input bytes alone.
pub uninterp spec fn sha1_of(bytes: Seq<u8>) -> Seq<u8>;

/// Relies on sha1's `Sha1` (`update` then `finalize`): the digest
/// depends on the input bytes alone and is always 20 bytes.
#[verifier::external_body]
fn sha1_digest(bytes: &[u8]) -> (r: Vec<u8>)
    ensures
        r@ == sha1_of(bytes@),
        r@.len() == 20,
{
    let mut hasher = Sha1::new();
    hasher.update(bytes);
    hasher.finalize().as_slice().to_vec()
}

/// The raw bytes of the `announce` key.
pub open spec fn key_announce() -> Seq<u8> {
    seq![97u8, 110u8, 110u8, 111u8, 117u8, 110u8, 99u8, 101u8]
}

/// The raw bytes of the `announce-list` key.
pub open spec fn key_announce_list() -> Seq<u8> {
    seq![97u8, 110u8, 110u8, 111u8, 117u8, 110u8, 99u8, 101u8, 45u8, 108u8, 105u8, 115u8, 116u8]
}

/// The value stored under `k`, going by the first entry with that key.
pub open spec fn dict_get(es: Seq<(Seq<u8>, BenModel)>, k: Seq<u8>) -> Option<BenModel> {
    match find_key(es, k) {
        Some(i) => Some(es[i].1),
        None => None,
    }
}

/// The byte strings among a run of values, in order.
pub open spec fn str_values_of(items: Seq<BenModel>) -> Seq<Seq<u8>>
    decreases items.len(),
{
    if items.len() == 0 {
        Seq::empty()
    } else {
        (match items.first() {
            BenModel::Str(b) => seq![b],
            _ => Seq::empty(),
        }) + str_values_of(items.drop_first())
    }
}

/// The byte strings inside the nested lists of a run of values, in order.
pub open spec fn nested_str_values(items: Seq<BenModel>) -> Seq<Seq<u8>>
    decreases items.len(),
{
    if items.len() == 0 {
        Seq::empty()
    } else {
        (match items.first() {
            BenModel::List(inner) => str_values_of(inner),
            _ => Seq::empty(),
        }) + nested_str_values(items.drop_first())
    }
}

/// Every announce URL of a torrent dictionary: the `announce` string if
/// present, then every string inside the lists of `announce-list`.
pub open spec fn announce_urls(es: Seq<(Seq<u8>, BenModel)>) -> Seq<Seq<u8>> {
    (match dict_get(es, key_announce()) {
        Some(BenModel::Str(b)) => seq![b],
        _ => Seq::empty(),
    }) + (match dict_get(es, key_announce_list()) {
        Some(BenModel::List(outer)) => nested_str_values(outer),
        _ => Seq::empty(),
    })
}

/// The byte views of a run of byte vectors.
pub open spec fn vecs_view(vs: Seq<Vec<u8>>) -> Seq<Seq<u8>>
    decreases vs.len(),
{
    if vs.len() == 0 {
        Seq::empty()
    } else {
        vecs_view(vs.drop_last()).push(vs.last()@)
    }
}

/// Pointwise reading of `vecs_view`.
pub broadcast proof fn lemma_vecs_view(vs: Seq<Vec<u8>>)
    ensures
        (#[trigger] vecs_view(vs)).len() == vs.len(),
        forall|i: int| 0 <= i < vs.len() ==> vecs_view(vs)[i] == vs[i]@,
    decreases vs.len(),
{
    if vs.len() > 0 {
        lemma_vecs_view(vs.drop_last());
    }
}

/// `str_values_of` distributes over concatenation.
proof fn lemma_str_values_concat(s1: Seq<BenModel>, s2: Seq<BenModel>)
    ensures
        str_values_of(s1 + s2) == str_values_of(s1) + str_values_of(s2),
    decreases s1.len(),
{
    if s1.len() == 0 {
        assert(s1 + s2 =~= s2);
        assert(str_values_of(s1) + str_values_of(s2) =~= str_values_of(s2));
    } else {
        assert((s1 + s2).first() == s1.first());
        assert((s1 + s2).drop_first() =~= s1.drop_first() + s2);
        lemma_str_values_concat(s1.drop_first(), s2);
        assert(str_values_of(s1 + s2) =~= str_values_of(s1) + str_values_of(s2));
    }
}

/// `nested_str_values` distributes over concatenation.
proof fn lemma_nested_str_values_concat(s1: Seq<BenModel>, s2: Seq<BenModel>)
    ensures
        nested_str_values(s1 + s2) == nested_str_values(s1) + nested_str_values(s2),
    decreases s1.len(),
{
    if s1.len() == 0 {
        assert(s1 + s2 =~= s2);
        assert(nested_str_values(s1) + nested_str_values(s2) =~= nested_str_values(s2));
    } else {
        assert((s1 + s2).first() == s1.first());
        assert((s1 + s2).drop_first() =~= s1.drop_first() + s2);
        lemma_nested_str_values_concat(s1.drop_first(), s2);
        assert(nested_str_values(s1 + s2) =~= nested_str_values(s1) + nested_str_values(s2));
    }
}

/// Finds the first entry with the given key, exactly `dict_get` over the
/// entries' model.
fn dict_find<'a>(es: &'a BDict, key: &Vec<u8>) -> (r: Option<&'a Bencode>)
    ensures
        match r {
            Some(v) => dict_get(pair_views_of(es@), key@) == Some(v@),
            None => dict_get(pair_views_of(es@), key@) == None::<BenModel>,
        },
{
    let ghost pv = pair_views_of(es@);
    proof {
        lemma_pair_views_of(es@);
    }
    let mut i: usize = 0;
    while i < es.len()
        invariant
            i <= es@.len(),
            pv == pair_views_of(es@),
            pv.len() == es@.len(),
            forall|j: int| 0 <= j < es@.len() ==> pv[j] == (es@[j].0@, crate::bencode::bview(es@[j].1)),
            forall|j: int| 0 <= j < i ==> (#[trigger] pv[j]).0 != key@,
        decreases es@.len() - i,
    {
        if bytes_eq(&es[i].0, key) {
            proof {
                lemma_find_key_of(pv, key@, Some(i as int));
            }
            return Some(&es[i].1);
        }
        i += 1;
    }
    proof {
        lemma_find_key_of(pv, key@, None);
    }
    None
}

/// The `announce` key as bytes.
fn key_announce_vec() -> (r: Vec<u8>)
    ensures
        r@ == key_announce(),
{
    let mut v: Vec<u8> = Vec::new();
    v.push(97);
    v.push(110);
    v.push(110);
    v.push(111);
    v.push(117);
    v.push(110);
    v.push(99);
    v.push(101);
    proof {
        assert(v@ =~= key_announce());
    }
    v
}

/// The `announce-list` key as bytes.
fn key_announce_list_vec() -> (r: Vec<u8>)
    ensures
        r@ == key_announce_list(),
{
    let mut v = key_announce_vec();
    v.push(45);
    v.push(108);
    v.push(105);
    v.push(115);
    v.push(116);
    proof {
        assert(v@ =~= key_announce_list());
    }
    v
}

/// Collects every tracker announce URL of a decoded torrent dictionary:
/// the `announce` string first (when present and a string), then each
/// string inside the lists of `announce-list`, in order. Entries of any
/// other shape are passed over.
pub fn get_announce_list(info_dict: &BDict) -> (r: Vec<Vec<u8>>)
    ensures
        vecs_view(r@) == announce_urls(pair_views_of(info_dict@)),
{
    let ghost es = pair_views_of(info_dict@);
    let mut out: Vec<Vec<u8>> = Vec::new();
    let ka = key_announce_vec();
    let ghost head = (match dict_get(es, key_announce()) {
        Some(BenModel::Str(b)) => seq![b],
        _ => Seq::<Seq<u8>>::empty(),
    });
    proof {
        assert(vecs_view(Seq::<Vec<u8>>::empty()) =~= Seq::<Seq<u8>>::empty());
    }
    match dict_find(info_dict, &ka) {
        Some(v) => {
            match v {
                Bencode::Str(b) => {
                    out.push(bytes_dup(b));
                    proof {
                        assert(out@.drop_last() =~= Seq::<Vec<u8>>::empty());
                        assert(vecs_view(out@) =~= head);
                    }
                },
                _ => {
                    proof {
                        assert(vecs_view(out@) =~= head);
                    }
                },
            }
        },
        None => {
            proof {
                assert(vecs_view(out@) =~= head);
            }
        },
    }
    let kl = key_announce_list_vec();
    match dict_find(info_dict, &kl) {
        Some(v) => {
            match v {
                Bencode::List(outer) => {
                    let ghost om = views_of(outer@);
                    proof {
                        crate::bencode::lemma_views_of(outer@);
                        assert(om.take(0) =~= Seq::<BenModel>::empty());
                        assert(nested_str_values(om.take(0)) =~= Seq::<Seq<u8>>::empty());
                        assert(vecs_view(out@) =~= head + nested_str_values(om.take(0)));
                    }
                    let mut i: usize = 0;
                    while i < outer.len()
                        invariant
                            i <= outer@.len(),
                            om == views_of(outer@),
                            om.len() == outer@.len(),
                            forall|j: int|
                                0 <= j < outer@.len() ==> om[j] == crate::bencode::bview(
                                    outer@[j],
                                ),
                            vecs_view(out@) == head + nested_str_values(om.take(i as int)),
                        decreases outer@.len() - i,
                    {
                        let ghost before = vecs_view(out@);
                        match &outer[i] {
                            Bencode::List(inner) => {
                                let ghost im = views_of(inner@);
                                proof {
                                    crate::bencode::lemma_views_of(inner@);
                                    assert(im.take(0) =~= Seq::<BenModel>::empty());
                                    assert(str_values_of(im.take(0)) =~= Seq::<Seq<u8>>::empty());
                                    assert(vecs_view(out@) =~= before + str_values_of(
                                        im.take(0),
                                    ));
                                }
                                let mut j: usize = 0;
                                while j < inner.len()
                                    invariant
                                        j <= inner@.len(),
                                        im == views_of(inner@),
                                        im.len() == inner@.len(),
                                        forall|t: int|
                                            0 <= t < inner@.len() ==> im[t]
                                                == crate::bencode::bview(inner@[t]),
                                        vecs_view(out@) == before + str_values_of(
                                            im.take(j as int),
                                        ),
                                    decreases inner@.len() - j,
                                {
                                    let ghost out_snap = out@;
                                    let ghost cur = im[j as int];
                                    match &inner[j] {
                                        Bencode::Str(b) => {
                                            out.push(bytes_dup(b));
                                            proof {
                                                assert(out@.drop_last() =~= out_snap);
                                            }
                                        },
                                        _ => {},
                                    }
                                    proof {
                                        assert(im.take(j + 1) =~= im.take(j as int) + seq![cur]);
                                        lemma_str_values_concat(im.take(j as int), seq![cur]);
                                        let single = seq![cur];
                                        assert(single.drop_first() =~= Seq::<BenModel>::empty());
                                        assert(str_values_of(Seq::<BenModel>::empty()) =~= Seq::<
                                            Seq<u8>,
                                        >::empty());
                                        assert(str_values_of(single) =~= (match cur {
                                            BenModel::Str(b) => seq![b],
                                            _ => Seq::<Seq<u8>>::empty(),
                                        }));
                                        assert(vecs_view(out@) =~= before + str_values_of(
                                            im.take(j + 1),
                                        ));
                                    }
                                    j += 1;
                                }
                                proof {
                                    assert(im.take(im.len() as int) =~= im);
                                }
                            },
                            _ => {},
                        }
                        proof {
                            let ocur = om[i as int];
                            assert(om.take(i + 1) =~= om.take(i as int) + seq![ocur]);
                            lemma_nested_str_values_concat(om.take(i as int), seq![ocur]);
                            let osingle = seq![ocur];
                            assert(osingle.drop_first() =~= Seq::<BenModel>::empty());
                            assert(nested_str_values(Seq::<BenModel>::empty()) =~= Seq::<
                                Seq<u8>,
                            >::empty());
                            assert(nested_str_values(osingle) =~= (match ocur {
                                BenModel::List(inner) => str_values_of(inner),
                                _ => Seq::<Seq<u8>>::empty(),
                            }));
                            assert(vecs_view(out@) =~= head + nested_str_values(om.take(i + 1)));
                        }
                        i += 1;
                    }
                    proof {
                        assert(om.take(om.len() as int) =~= om);
                        assert(vecs_view(out@) =~= announce_urls(es));
                    }
                },
                _ => {
                    proof {
                        assert(vecs_view(out@) =~= announce_urls(es));
                    }
                },
            }
        },
        None => {
            proof {
                assert(vecs_view(out@) =~= announce_urls(es));
            }
        },
    }
    out
}

/// The torrent's info-hash: the digest of the canonical encoding of the
/// given value (for a torrent, the `info` sub-dictionary), so equal
/// logical content always hashes identically.
pub fn get_info_hash(info: &Bencode) -> (r: Vec<u8>)
    requires
        m_wf(info@),
    ensures
        r@.len() == 20,
        exists|c: BenModel|
            m_canonical(c) && #[trigger] canon_rel(info@, c) && r@ == sha1_of(benc(c)),
{
    let encoded = encode_bencode(info);
    sha1_digest(encoded.as_slice())
}


/// Equal logical dictionary content gives one info-hash: whatever
/// insertion orders two dictionaries use for the same key/value pairs,
/// their canonical encodings coincide, so the twenty-byte digests do.
pub proof fn lemma_info_hash_insensitive(
    es1: Seq<(Seq<u8>, BenModel)>,
    es2: Seq<(Seq<u8>, BenModel)>,
    c1: BenModel,
    c2: BenModel,
)
    requires
        m_wf(BenModel::Dict(es1)),
        m_wf(BenModel::Dict(es2)),
        es1.to_multiset() == es2.to_multiset(),
        canon_rel(BenModel::Dict(es1), c1),
        m_canonical(c1),
        canon_rel(BenModel::Dict(es2), c2),
        m_canonical(c2),
    ensures
        sha1_of(benc(c1)) == sha1_of(benc(c2)),
{
    crate::bencode::laws::lemma_canonical_determinism(es1, es2, c1, c2);
}

} // verus!
