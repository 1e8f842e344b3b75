//! Bencode codec: a recursive decoder from raw bytes to a tagged value plus
//! the exact number of bytes consumed, and a deterministic encoder that
//! produces the canonical form (dictionary entries sorted by raw key bytes).
//!
//! The behaviour of the executable code is pinned down by a mathematical
//! model: `BenModel` mirrors `Bencode` with `Seq`/`int` fields, and the spec
//! functions `bdec_val` (decoder) and `benc` (encoder) define what every
//! executable function returns.

use vstd::prelude::*;
use vstd::slice::slice_subrange;
use vstd::slice::slice_to_vec;
use vstd::string::StrSliceExecFns;
use vstd::string::StringSliceAdditionalSpecFns;

pub mod laws;

verus! {

broadcast use {vstd::seq_lib::group_to_multiset_ensures, vstd::multiset::group_multiset_axioms};

// ASCII bytes the grammar is built from.
pub const B_COLON: u8 = 58;
pub const B_MINUS: u8 = 45;
pub const B_LOWER_I: u8 = 105;
pub const B_LOWER_E: u8 = 101;
pub const B_LOWER_L: u8 = 108;
pub const B_LOWER_D: u8 = 100;
pub const B_ZERO: u8 = 48;
pub const B_NINE: u8 = 57;

// ---------------------------------------------------------------------------
// Data model
// ---------------------------------------------------------------------------

/// A byte-string payload as decoded from bencode.
pub type BString = Vec<u8>;

/// A bencode integer.
pub type BInt = i64;

/// Decoded dictionary entries: raw byte-string keys (unique, in order of
/// first occurrence) paired with their values.
pub type BDict = Vec<(Vec<u8>, Bencode)>;

/// A decoded list body.
pub type BList = Vec<Bencode>;

/// A bencode value: byte string, signed integer, list, dictionary, or the
/// internal `End` sentinel that marks the `e` terminator while decoding
/// list and dictionary bodies. `End` is never part of a decoded tree.
#[derive(Debug, PartialEq, Eq)]
pub enum Bencode {
    Str(Vec<u8>),
    Int(i64),
    List(Vec<Bencode>),
    Dict(Vec<(Vec<u8>, Bencode)>),
    End,
}

/// The mathematical shape of a bencode value, used in all contracts.
pub enum BenModel {
    Str(Seq<u8>),
    Int(int),
    List(Seq<BenModel>),
    Dict(Seq<(Seq<u8>, BenModel)>),
    End,
}

/// The models of a sequence of values.
pub open spec fn views_of(items: Seq<Bencode>) -> Seq<BenModel>
    decreases items, 0int,
{
    if items.len() == 0 {
        Seq::empty()
    } else {
        views_of(items.drop_last()).push(bview(items.last()))
    }
}

/// The models of a sequence of key/value entries.
pub open spec fn pair_views_of(entries: Seq<(Vec<u8>, Bencode)>) -> Seq<(Seq<u8>, BenModel)>
    decreases entries, 0int,
{
    if entries.len() == 0 {
        Seq::empty()
    } else {
        pair_views_of(entries.drop_last()).push(
            (entries.last().0@, bview(entries.last().1)),
        )
    }
}

/// The model of a bencode value.
pub open spec fn bview(v: Bencode) -> BenModel
    decreases v, 1int,
{
    match v {
        Bencode::Str(b) => BenModel::Str(b@),
        Bencode::Int(i) => BenModel::Int(i as int),
        Bencode::List(items) => BenModel::List(views_of(items@)),
        Bencode::Dict(entries) => BenModel::Dict(pair_views_of(entries@)),
        Bencode::End => BenModel::End,
    }
}

/// Pointwise reading of `views_of`.
pub broadcast proof fn lemma_views_of(items: Seq<Bencode>)
    ensures
        (#[trigger] views_of(items)).len() == items.len(),
        forall|i: int| 0 <= i < items.len() ==> views_of(items)[i] == bview(items[i]),
    decreases items.len(),
{
    if items.len() > 0 {
        lemma_views_of(items.drop_last());
    }
}

/// Pointwise reading of `pair_views_of`.
pub broadcast proof fn lemma_pair_views_of(entries: Seq<(Vec<u8>, Bencode)>)
    ensures
        (#[trigger] pair_views_of(entries)).len() == entries.len(),
        forall|i: int|
            0 <= i < entries.len() ==> pair_views_of(entries)[i] == (
                entries[i].0@,
                bview(entries[i].1),
            ),
    decreases entries.len(),
{
    if entries.len() > 0 {
        lemma_pair_views_of(entries.drop_last());
    }
}

impl View for Bencode {
    type V = BenModel;

    open spec fn view(&self) -> BenModel {
        bview(*self)
    }
}

impl Bencode {
    /// A byte-string value holding the UTF-8 bytes of `string`.
    pub fn new_str(string: &str) -> (r: Bencode)
        ensures
            r@ == BenModel::Str(string.spec_bytes()),
    {
        Bencode::Str(string.as_bytes_vec())
    }

    /// True exactly on the `End` sentinel.
    pub fn is_end(&self) -> (r: bool)
        ensures
            r == (self@ == BenModel::End),
    {
        match self {
            Bencode::End => true,
            Bencode::Str(_) => false,
            Bencode::Int(_) => false,
            Bencode::List(_) => false,
            Bencode::Dict(_) => false,
        }
    }
}

/// A decoded value together with the exact number of input bytes it
/// consumed, so that a caller can advance its own cursor.
#[derive(Debug, PartialEq, Eq)]
pub struct ParseResult<T> {
    pub data: T,
    pub len: usize,
}

impl<T> ParseResult<T> {
    pub fn new(data: T, len: usize) -> (r: ParseResult<T>)
        ensures
            r.data == data,
            r.len == len,
    {
        ParseResult { data, len }
    }
}

/// Why a bencode parse was rejected. Parsing is all-or-nothing: any of
/// these rejects the whole input.
#[derive(Debug, PartialEq, Eq, Structural, Clone, Copy)]
pub enum DecodeError {
    /// A string's decimal length prefix is missing, empty, non-numeric,
    /// or too large to address memory.
    MalformedLength,
    /// An integer has a missing `e` terminator, non-digit content, or a
    /// value outside the signed 64-bit range.
    MalformedInteger,
    /// A string's length prefix promises more payload bytes than remain.
    TruncatedPayload,
    /// The input ended before a list's `e` terminator.
    UnterminatedList,
    /// The input ended before a dictionary's `e` terminator, or an entry
    /// has a key with no paired value.
    UnterminatedDict,
    /// A dictionary key is not a byte string.
    InvalidKeyType,
}

/// The syntactic class of the value that starts the input; decoding
/// dispatches on it.
#[derive(Debug, PartialEq, Eq, Structural, Clone, Copy)]
pub enum BencodeTypes {
    Str,
    Int,
    List,
    Dict,
    End,
}

// ---------------------------------------------------------------------------
// Spec-level decoding: decimal digits and byte search
// ---------------------------------------------------------------------------

/// ASCII decimal digit.
pub open spec fn is_digit(b: u8) -> bool {
    B_ZERO <= b <= B_NINE
}

pub open spec fn digit_val(b: u8) -> int {
    b - B_ZERO
}

pub open spec fn all_digits(s: Seq<u8>) -> bool {
    forall|i: int| 0 <= i < s.len() ==> is_digit(#[trigger] s[i])
}

/// The value of a run of decimal digits, most significant first.
pub open spec fn digits_val(s: Seq<u8>) -> int
    decreases s.len(),
{
    if s.len() == 0 {
        0
    } else {
        digits_val(s.drop_last()) * 10 + digit_val(s.last())
    }
}

/// The index of the first occurrence of `b` in `s`, if any.
pub open spec fn find_byte(s: Seq<u8>, b: u8) -> Option<int>
    decreases s.len(),
{
    if s.len() == 0 {
        None
    } else if s[0] == b {
        Some(0)
    } else {
        match find_byte(s.skip(1), b) {
            Some(i) => Some(i + 1),
            None => None,
        }
    }
}

/// `find_byte` returns the first occurrence: nothing before it matches.
pub proof fn lemma_find_byte_char(s: Seq<u8>, b: u8)
    ensures
        match find_byte(s, b) {
            Some(i) => 0 <= i < s.len() && s[i] == b && forall|j: int| 0 <= j < i ==> s[j] != b,
            None => forall|j: int| 0 <= j < s.len() ==> s[j] != b,
        },
    decreases s.len(),
{
    if s.len() == 0 {
    } else if s[0] == b {
    } else {
        lemma_find_byte_char(s.skip(1), b);
        let t = s.skip(1);
        match find_byte(t, b) {
            Some(i) => {
                assert(s[i + 1] == t[i]);
                assert forall|j: int| 0 <= j < i + 1 implies s[j] != b by {
                    if j >= 1 {
                        assert(t[j - 1] == s[j]);
                    }
                }
            },
            None => {
                assert forall|j: int| 0 <= j < s.len() implies s[j] != b by {
                    if j >= 1 {
                        assert(t[j - 1] == s[j]);
                    }
                }
            },
        }
    }
}

/// Digit runs have non-negative value.
pub proof fn lemma_digits_val_nonneg(s: Seq<u8>)
    requires
        all_digits(s),
    ensures
        digits_val(s) >= 0,
    decreases s.len(),
{
    if s.len() > 0 {
        assert(all_digits(s.drop_last()));
        lemma_digits_val_nonneg(s.drop_last());
    }
}

/// Extending a digit run never shrinks its value: once a prefix exceeds a
/// bound, the whole run does.
pub proof fn lemma_digits_val_grow(s: Seq<u8>, k: int, bound: int)
    requires
        all_digits(s),
        0 <= k <= s.len(),
        bound >= 0,
        digits_val(s.take(k)) > bound,
    ensures
        digits_val(s) > bound,
    decreases s.len() - k,
{
    if k < s.len() {
        assert(s.take(k + 1).drop_last() =~= s.take(k));
        assert(s.take(k + 1).last() == s[k]);
        assert(all_digits(s.take(k)));
        lemma_digits_val_nonneg(s.take(k));
        assert(digits_val(s.take(k + 1)) == digits_val(s.take(k)) * 10 + digit_val(s[k]));
        lemma_digits_val_grow(s, k + 1, bound);
    } else {
        assert(s.take(k) =~= s);
    }
}

// ---------------------------------------------------------------------------
// Spec-level decoding: strings and integers
// ---------------------------------------------------------------------------

/// Decoding of `<len>:<payload>`: digits up to the first `:` give the
/// payload length; the payload is the next `len` raw bytes.
pub open spec fn bdec_str(s: Seq<u8>) -> Result<(Seq<u8>, int), DecodeError> {
    match find_byte(s, B_COLON) {
        None => Err(DecodeError::MalformedLength),
        Some(j) => {
            let digits = s.subrange(0, j);
            if j == 0 || !all_digits(digits) {
                Err(DecodeError::MalformedLength)
            } else if digits_val(digits) > usize::MAX as int {
                Err(DecodeError::MalformedLength)
            } else {
                let n = digits_val(digits);
                if s.len() < j + 1 + n {
                    Err(DecodeError::TruncatedPayload)
                } else {
                    Ok((s.subrange(j + 1, j + 1 + n), j + 1 + n))
                }
            }
        },
    }
}

/// Well-formed integer content between `i` and `e`: an optional leading
/// minus sign followed by at least one decimal digit (leading zeros are
/// tolerated).
pub open spec fn int_content_ok(c: Seq<u8>) -> bool {
    if c.len() > 0 && c[0] == B_MINUS {
        c.len() > 1 && all_digits(c.skip(1))
    } else {
        c.len() > 0 && all_digits(c)
    }
}

/// The signed value of integer content.
pub open spec fn int_content_val(c: Seq<u8>) -> int {
    if c.len() > 0 && c[0] == B_MINUS {
        -digits_val(c.skip(1))
    } else {
        digits_val(c)
    }
}

/// Decoding of `i<dec>e`: the signed decimal between the tag and the
/// first `e`, rejected unless it is well formed and fits a signed 64-bit
/// value.
pub open spec fn bdec_int(s: Seq<u8>) -> Result<(int, int), DecodeError> {
    if s.len() == 0 || s[0] != B_LOWER_I {
        Err(DecodeError::MalformedInteger)
    } else {
        match find_byte(s, B_LOWER_E) {
            None => Err(DecodeError::MalformedInteger),
            Some(j) => {
                let c = s.subrange(1, j);
                if !int_content_ok(c) {
                    Err(DecodeError::MalformedInteger)
                } else if int_content_val(c) < i64::MIN as int || int_content_val(c) > i64::MAX as int {
                    Err(DecodeError::MalformedInteger)
                } else {
                    Ok((int_content_val(c), j + 1))
                }
            },
        }
    }
}


// ---------------------------------------------------------------------------
// Spec-level decoding: values, lists, dictionaries
// ---------------------------------------------------------------------------

/// The syntactic class of the first byte: the decoder's dispatch.
pub open spec fn btype_of(s: Seq<u8>) -> BencodeTypes {
    if s.len() == 0 {
        BencodeTypes::End
    } else if s[0] == B_LOWER_E {
        BencodeTypes::End
    } else if s[0] == B_LOWER_I {
        BencodeTypes::Int
    } else if s[0] == B_LOWER_L {
        BencodeTypes::List
    } else if s[0] == B_LOWER_D {
        BencodeTypes::Dict
    } else {
        BencodeTypes::Str
    }
}

/// The index of the first entry with key `k`, if any.
pub open spec fn find_key(es: Seq<(Seq<u8>, BenModel)>, k: Seq<u8>) -> Option<int>
    decreases es.len(),
{
    if es.len() == 0 {
        None
    } else if es[0].0 == k {
        Some(0)
    } else {
        match find_key(es.skip(1), k) {
            Some(i) => Some(i + 1),
            None => None,
        }
    }
}

/// `find_key` returns the first occurrence: nothing before it matches.
pub proof fn lemma_find_key_char(es: Seq<(Seq<u8>, BenModel)>, k: Seq<u8>)
    ensures
        match find_key(es, k) {
            Some(i) => 0 <= i < es.len() && es[i].0 == k && forall|j: int|
                0 <= j < i ==> es[j].0 != k,
            None => forall|j: int| 0 <= j < es.len() ==> es[j].0 != k,
        },
    decreases es.len(),
{
    if es.len() == 0 {
    } else if es[0].0 == k {
    } else {
        lemma_find_key_char(es.skip(1), k);
        let t = es.skip(1);
        match find_key(t, k) {
            Some(i) => {
                assert(es[i + 1] == t[i]);
                assert forall|j: int| 0 <= j < i + 1 implies es[j].0 != k by {
                    if j >= 1 {
                        assert(t[j - 1] == es[j]);
                    }
                }
            },
            None => {
                assert forall|j: int| 0 <= j < es.len() implies es[j].0 != k by {
                    if j >= 1 {
                        assert(t[j - 1] == es[j]);
                    }
                }
            },
        }
    }
}

/// Anything satisfying the first-occurrence characterisation is what
/// `find_key` returns.
pub proof fn lemma_find_key_of(es: Seq<(Seq<u8>, BenModel)>, k: Seq<u8>, r: Option<int>)
    requires
        match r {
            Some(i) => 0 <= i < es.len() && es[i].0 == k && forall|j: int|
                0 <= j < i ==> es[j].0 != k,
            None => forall|j: int| 0 <= j < es.len() ==> es[j].0 != k,
        },
    ensures
        find_key(es, k) == r,
{
    lemma_find_key_char(es, k);
    match (find_key(es, k), r) {
        (Some(i1), Some(i2)) => {
            if i1 < i2 {
                assert(es[i1].0 == k);
                assert(false);
            }
            if i2 < i1 {
                assert(es[i2].0 == k);
                assert(false);
            }
        },
        (Some(i1), None) => {
            assert(es[i1].0 == k);
            assert(false);
        },
        (None, Some(i2)) => {
            assert(es[i2].0 == k);
            assert(false);
        },
        (None, None) => {},
    }
}

/// Map-style insertion into an entry sequence: an existing key keeps its
/// position but takes the new value (last write wins); a new key is
/// appended.
pub open spec fn dict_put(
    es: Seq<(Seq<u8>, BenModel)>,
    k: Seq<u8>,
    v: BenModel,
) -> Seq<(Seq<u8>, BenModel)> {
    match find_key(es, k) {
        Some(i) => es.update(i, (k, v)),
        None => es.push((k, v)),
    }
}

/// Entries as decoded in source order, folded left to right with
/// `dict_put`: duplicate keys collapse, last write wins.
pub open spec fn dict_norm(raw: Seq<(Seq<u8>, BenModel)>) -> Seq<(Seq<u8>, BenModel)>
    decreases raw.len(),
{
    if raw.len() == 0 {
        Seq::empty()
    } else {
        dict_put(dict_norm(raw.drop_last()), raw.last().0, raw.last().1)
    }
}

/// Decoding of one value: dispatch on the first byte. Empty input decodes
/// to the `End` sentinel consuming nothing; a lone `e` decodes to `End`
/// consuming one byte.
pub open spec fn bdec_val(s: Seq<u8>) -> Result<(BenModel, int), DecodeError>
    decreases s.len(), 0int,
{
    if s.len() == 0 {
        Ok((BenModel::End, 0))
    } else if s[0] == B_LOWER_E {
        Ok((BenModel::End, 1))
    } else if s[0] == B_LOWER_I {
        match bdec_int(s) {
            Ok((v, n)) => Ok((BenModel::Int(v), n)),
            Err(e) => Err(e),
        }
    } else if s[0] == B_LOWER_L {
        match bdec_items(s.skip(1)) {
            Ok((items, n)) => Ok((BenModel::List(items), 1 + n)),
            Err(e) => Err(e),
        }
    } else if s[0] == B_LOWER_D {
        match bdec_entries(s.skip(1)) {
            Ok((raw, n)) => Ok((BenModel::Dict(dict_norm(raw)), 1 + n)),
            Err(e) => Err(e),
        }
    } else {
        match bdec_str(s) {
            Ok((b, n)) => Ok((BenModel::Str(b), n)),
            Err(e) => Err(e),
        }
    }
}

/// Decoding of a list body (after the `l` tag): values until the `End`
/// sentinel from a lone `e`; exhausting the input first is
/// `UnterminatedList`. The count includes the terminating `e`.
pub open spec fn bdec_items(s: Seq<u8>) -> Result<(Seq<BenModel>, int), DecodeError>
    decreases s.len(), 1int,
{
    match bdec_val(s) {
        Err(e) => Err(e),
        Ok((v, n)) => match v {
            BenModel::End => if n == 1 {
                Ok((Seq::empty(), 1))
            } else {
                Err(DecodeError::UnterminatedList)
            },
            _ => {
                if 1 <= n <= s.len() {
                    match bdec_items(s.skip(n)) {
                        Err(e) => Err(e),
                        Ok((rest, m)) => Ok((seq![v] + rest, n + m)),
                    }
                } else {
                    Err(DecodeError::UnterminatedList)
                }
            },
        },
    }
}

/// Decoding of a dictionary body (after the `d` tag): key/value pairs in
/// source order, until the `End` sentinel in key position. A non-string
/// key is `InvalidKeyType`; input exhausted before the terminator, or in
/// value position, is `UnterminatedDict`.
pub open spec fn bdec_entries(s: Seq<u8>) -> Result<(Seq<(Seq<u8>, BenModel)>, int), DecodeError>
    decreases s.len(), 1int,
{
    match bdec_val(s) {
        Err(e) => Err(e),
        Ok((k, n)) => match k {
            BenModel::End => if n == 1 {
                Ok((Seq::empty(), 1))
            } else {
                Err(DecodeError::UnterminatedDict)
            },
            BenModel::Str(kb) => {
                if 1 <= n <= s.len() {
                    match bdec_val(s.skip(n)) {
                        Err(e) => Err(e),
                        Ok((v, m)) => match v {
                            BenModel::End => Err(DecodeError::UnterminatedDict),
                            _ => {
                                if 1 <= m <= s.len() - n {
                                    match bdec_entries(s.skip(n + m)) {
                                        Err(e) => Err(e),
                                        Ok((rest, t)) => Ok((seq![(kb, v)] + rest, n + m + t)),
                                    }
                                } else {
                                    Err(DecodeError::UnterminatedDict)
                                }
                            },
                        },
                    }
                } else {
                    Err(DecodeError::UnterminatedDict)
                }
            },
            _ => Err(DecodeError::InvalidKeyType),
        },
    }
}

/// A successful decode consumes at least one byte (except the bare `End`
/// of empty input) and never more than the input holds.
pub proof fn lemma_bdec_val_consumed(s: Seq<u8>)
    ensures
        match bdec_val(s) {
            Ok((v, n)) => 0 <= n <= s.len() && (v == BenModel::End ==> n <= 1) && (v
                != BenModel::End ==> 1 <= n),
            Err(_) => true,
        },
    decreases s.len(), 0int,
{
    if s.len() == 0 {
    } else if s[0] == B_LOWER_E {
    } else if s[0] == B_LOWER_I {
        if s.len() > 0 && s[0] == B_LOWER_I {
            lemma_find_byte_char(s, B_LOWER_E);
        }
    } else if s[0] == B_LOWER_L {
        lemma_bdec_items_consumed(s.skip(1));
    } else if s[0] == B_LOWER_D {
        lemma_bdec_entries_consumed(s.skip(1));
    } else {
        lemma_find_byte_char(s, B_COLON);
        if bdec_str(s) is Ok {
            let j = find_byte(s, B_COLON).unwrap();
            let digits = s.subrange(0, j);
            lemma_digits_val_nonneg(digits);
        }
    }
}

/// A successful list body consumes between one byte and the whole input.
pub proof fn lemma_bdec_items_consumed(s: Seq<u8>)
    ensures
        match bdec_items(s) {
            Ok((_, n)) => 1 <= n <= s.len(),
            Err(_) => true,
        },
    decreases s.len(), 1int,
{
    lemma_bdec_val_consumed(s);
    match bdec_val(s) {
        Err(_) => {},
        Ok((v, n)) => {
            if v != BenModel::End && 1 <= n <= s.len() {
                lemma_bdec_items_consumed(s.skip(n));
            }
        },
    }
}

/// A successful dictionary body consumes between one byte and the whole
/// input.
pub proof fn lemma_bdec_entries_consumed(s: Seq<u8>)
    ensures
        match bdec_entries(s) {
            Ok((_, n)) => 1 <= n <= s.len(),
            Err(_) => true,
        },
    decreases s.len(), 1int,
{
    lemma_bdec_val_consumed(s);
    match bdec_val(s) {
        Err(_) => {},
        Ok((k, n)) => {
            if k is Str && 1 <= n <= s.len() {
                lemma_bdec_val_consumed(s.skip(n));
                match bdec_val(s.skip(n)) {
                    Err(_) => {},
                    Ok((v, m)) => {
                        if v != BenModel::End && 1 <= m <= s.len() - n {
                            lemma_bdec_entries_consumed(s.skip(n + m));
                        }
                    },
                }
            }
        },
    }
}


// ---------------------------------------------------------------------------
// Executable decoding: primitives
// ---------------------------------------------------------------------------

/// Anything satisfying the first-occurrence characterisation is what
/// `find_byte` returns.
proof fn lemma_find_byte_of(t: Seq<u8>, b: u8, r: Option<int>)
    requires
        match r {
            Some(i) => 0 <= i < t.len() && t[i] == b && forall|j: int| 0 <= j < i ==> t[j] != b,
            None => forall|j: int| 0 <= j < t.len() ==> t[j] != b,
        },
    ensures
        find_byte(t, b) == r,
{
    lemma_find_byte_char(t, b);
    match (find_byte(t, b), r) {
        (Some(i1), Some(i2)) => {
            if i1 < i2 {
                assert(t[i1] == b);
                assert(false);
            }
            if i2 < i1 {
                assert(t[i2] == b);
                assert(false);
            }
        },
        (Some(i1), None) => {
            assert(t[i1] == b);
            assert(false);
        },
        (None, Some(i2)) => {
            assert(t[i2] == b);
            assert(false);
        },
        (None, None) => {},
    }
}

/// First occurrence of `b` in `line` at or after `at`.
fn find_byte_at(line: &[u8], at: usize, b: u8) -> (r: Option<usize>)
    requires
        at <= line@.len(),
    ensures
        match r {
            Some(j) => at <= j < line@.len() && line@[j as int] == b && (forall|t: int|
                at <= t < j ==> line@[t] != b),
            None => forall|t: int| at <= t < line@.len() ==> line@[t] != b,
        },
{
    let mut j = at;
    while j < line.len()
        invariant
            at <= j <= line@.len(),
            forall|t: int| at <= t < j ==> line@[t] != b,
        decreases line@.len() - j,
    {
        if line[j] == b {
            return Some(j);
        }
        j += 1;
    }
    None
}

/// Parses `<len>:<payload>` at offset `at`; returns the payload bytes and
/// the bytes consumed, exactly as `bdec_str` says on the input from `at`.
fn parse_string_at(line: &[u8], at: usize) -> (r: Result<(Vec<u8>, usize), DecodeError>)
    requires
        at <= line@.len(),
    ensures
        match r {
            Ok(p) => bdec_str(line@.skip(at as int)) == Ok::<(Seq<u8>, int), DecodeError>(
                (p.0@, p.1 as int),
            ) && at + p.1 <= line@.len(),
            Err(e) => bdec_str(line@.skip(at as int)) == Err::<(Seq<u8>, int), DecodeError>(e),
        },
{
    let ghost s = line@.skip(at as int);
    match find_byte_at(line, at, B_COLON) {
        None => {
            proof {
                assert forall|j: int| 0 <= j < s.len() implies s[j] != B_COLON by {
                    assert(s[j] == line@[at + j]);
                }
                lemma_find_byte_of(s, B_COLON, None);
            }
            Err(DecodeError::MalformedLength)
        },
        Some(jabs) => {
            let ghost jrel = jabs - at;
            proof {
                assert(s[jrel] == line@[jabs as int]);
                assert forall|j: int| 0 <= j < jrel implies s[j] != B_COLON by {
                    assert(s[j] == line@[at + j]);
                }
                lemma_find_byte_of(s, B_COLON, Some(jrel));
            }
            let ghost digits = s.subrange(0, jrel);
            proof {
                assert(digits =~= line@.subrange(at as int, jabs as int));
            }
            if jabs == at {
                return Err(DecodeError::MalformedLength);
            }
            let mut k = at;
            let mut acc: u128 = 0;
            while k < jabs
                invariant
                    at <= k <= jabs,
                    jabs < line@.len(),
                    s == line@.skip(at as int),
                    jrel == jabs - at,
                    digits == line@.subrange(at as int, jabs as int),
                    digits == s.subrange(0, jrel),
                    line@[jabs as int] == B_COLON,
                    find_byte(s, B_COLON) == Some(jrel),
                    jabs != at,
                    forall|t: int| at <= t < k ==> is_digit(#[trigger] line@[t]),
                    acc == digits_val(line@.subrange(at as int, k as int)),
                    acc <= usize::MAX as u128,
                decreases jabs - k,
            {
                let b = line[k];
                if b < B_ZERO || b > B_NINE {
                    proof {
                        assert(digits[k - at] == line@[k as int]);
                        assert(!all_digits(digits));
                    }
                    return Err(DecodeError::MalformedLength);
                }
                proof {
                    assert(line@.subrange(at as int, k + 1).drop_last() =~= line@.subrange(
                        at as int,
                        k as int,
                    ));
                    assert(line@.subrange(at as int, k + 1).last() == line@[k as int]);
                }
                acc = acc * 10 + ((b - B_ZERO) as u128);
                k += 1;
                if acc > usize::MAX as u128 {
                    proof {
                        if all_digits(digits) {
                            assert(digits.take(k - at) =~= line@.subrange(at as int, k as int));
                            lemma_digits_val_grow(digits, k - at, usize::MAX as int);
                        }
                    }
                    return Err(DecodeError::MalformedLength);
                }
            }
            proof {
                assert(all_digits(digits)) by {
                    assert forall|i: int| 0 <= i < digits.len() implies is_digit(digits[i]) by {
                        assert(digits[i] == line@[at + i]);
                    }
                }
            }
            let n = acc as usize;
            if line.len() - (jabs + 1) < n {
                proof {
                    assert(s.len() < jrel + 1 + n);
                }
                return Err(DecodeError::TruncatedPayload);
            }
            let payload = slice_to_vec(slice_subrange(line, jabs + 1, jabs + 1 + n));
            proof {
                assert(payload@ =~= s.subrange(jrel + 1, jrel + 1 + n));
            }
            Ok((payload, jabs + 1 + n - at))
        },
    }
}

/// Parses `i<dec>e` at offset `at`, exactly as `bdec_int` says on the
/// input from `at`.
fn parse_int_at(line: &[u8], at: usize) -> (r: Result<(i64, usize), DecodeError>)
    requires
        at <= line@.len(),
    ensures
        match r {
            Ok(p) => bdec_int(line@.skip(at as int)) == Ok::<(int, int), DecodeError>(
                (p.0 as int, p.1 as int),
            ) && at + p.1 <= line@.len(),
            Err(e) => bdec_int(line@.skip(at as int)) == Err::<(int, int), DecodeError>(e),
        },
{
    let ghost s = line@.skip(at as int);
    if at == line.len() || line[at] != B_LOWER_I {
        return Err(DecodeError::MalformedInteger);
    }
    match find_byte_at(line, at, B_LOWER_E) {
        None => {
            proof {
                assert forall|j: int| 0 <= j < s.len() implies s[j] != B_LOWER_E by {
                    assert(s[j] == line@[at + j]);
                }
                lemma_find_byte_of(s, B_LOWER_E, None);
            }
            Err(DecodeError::MalformedInteger)
        },
        Some(jabs) => {
            let ghost jrel = jabs - at;
            proof {
                assert(s[jrel] == line@[jabs as int]);
                assert forall|j: int| 0 <= j < jrel implies s[j] != B_LOWER_E by {
                    assert(s[j] == line@[at + j]);
                }
                lemma_find_byte_of(s, B_LOWER_E, Some(jrel));
            }
            let ghost content = s.subrange(1, jrel);
            if jabs == at + 1 {
                return Err(DecodeError::MalformedInteger);
            }
            let neg = line[at + 1] == B_MINUS;
            proof {
                assert(content[0] == line@[at + 1]);
            }
            if neg && jabs == at + 2 {
                return Err(DecodeError::MalformedInteger);
            }
            let dstart = if neg {
                at + 2
            } else {
                at + 1
            };
            let ghost dseq = line@.subrange(dstart as int, jabs as int);
            proof {
                if neg {
                    assert(content.skip(1) =~= dseq);
                } else {
                    assert(content =~= dseq);
                }
            }
            let mut k = dstart;
            let mut acc: u128 = 0;
            while k < jabs
                invariant
                    dstart <= k <= jabs,
                    at + 1 <= dstart <= at + 2,
                    dstart == if neg { at + 2int } else { at + 1int },
                    jabs < line@.len(),
                    s == line@.skip(at as int),
                    s.len() == line@.len() - at,
                    s[0] == B_LOWER_I,
                    find_byte(s, B_LOWER_E) == Some(jrel),
                    jrel == jabs - at,
                    dstart < jabs,
                    content == s.subrange(1, jrel),
                    dseq == line@.subrange(dstart as int, jabs as int),
                    content.len() == jrel - 1,
                    content[0] == line@[at + 1],
                    neg == (content[0] == B_MINUS),
                    neg ==> content.skip(1) == dseq,
                    !neg ==> content == dseq,
                    forall|t: int| dstart <= t < k ==> is_digit(#[trigger] line@[t]),
                    acc == digits_val(line@.subrange(dstart as int, k as int)),
                    acc <= 0x8000_0000_0000_0000u128,
                decreases jabs - k,
            {
                let b = line[k];
                if b < B_ZERO || b > B_NINE {
                    proof {
                        assert(dseq[k - dstart] == line@[k as int]);
                        assert(!all_digits(dseq));
                        assert(!int_content_ok(content));
                    }
                    return Err(DecodeError::MalformedInteger);
                }
                proof {
                    assert(line@.subrange(dstart as int, k + 1).drop_last() =~= line@.subrange(
                        dstart as int,
                        k as int,
                    ));
                    assert(line@.subrange(dstart as int, k + 1).last() == line@[k as int]);
                }
                acc = acc * 10 + ((b - B_ZERO) as u128);
                k += 1;
                if acc > 0x8000_0000_0000_0000u128 {
                    proof {
                        if all_digits(dseq) {
                            assert(dseq.take(k - dstart) =~= line@.subrange(
                                dstart as int,
                                k as int,
                            ));
                            lemma_digits_val_grow(dseq, k - dstart, 0x8000_0000_0000_0000);
                        }
                    }
                    return Err(DecodeError::MalformedInteger);
                }
            }
            proof {
                assert(dseq =~= line@.subrange(dstart as int, jabs as int));
                assert(all_digits(dseq)) by {
                    assert forall|i: int| 0 <= i < dseq.len() implies is_digit(dseq[i]) by {
                        assert(dseq[i] == line@[dstart + i]);
                    }
                }
                assert(int_content_ok(content));
            }
            if !neg && acc > (i64::MAX as u128) {
                return Err(DecodeError::MalformedInteger);
            }
            let v: i64 = if neg {
                if acc == 0x8000_0000_0000_0000u128 {
                    i64::MIN
                } else {
                    -((acc as u64) as i64)
                }
            } else {
                (acc as u64) as i64
            };
            proof {
                assert(v as int == int_content_val(content));
            }
            Ok((v, jabs + 1 - at))
        },
    }
}

// ---------------------------------------------------------------------------
// Executable decoding: public entry points for strings and integers
// ---------------------------------------------------------------------------

/// The syntactic class of the value starting at the first byte.
pub fn get_type(line: &[u8]) -> (r: BencodeTypes)
    ensures
        r == btype_of(line@),
{
    if line.len() == 0 {
        BencodeTypes::End
    } else {
        let b = line[0];
        if b == B_LOWER_E {
            BencodeTypes::End
        } else if b == B_LOWER_I {
            BencodeTypes::Int
        } else if b == B_LOWER_L {
            BencodeTypes::List
        } else if b == B_LOWER_D {
            BencodeTypes::Dict
        } else {
            BencodeTypes::Str
        }
    }
}

/// Decodes a byte string `<len>:<payload>` from the start of the input.
pub fn parse_string(line: &[u8]) -> (r: Result<ParseResult<Vec<u8>>, DecodeError>)
    ensures
        match r {
            Ok(pr) => bdec_str(line@) == Ok::<(Seq<u8>, int), DecodeError>(
                (pr.data@, pr.len as int),
            ),
            Err(e) => bdec_str(line@) == Err::<(Seq<u8>, int), DecodeError>(e),
        },
{
    proof {
        assert(line@.skip(0) =~= line@);
    }
    match parse_string_at(line, 0) {
        Ok((data, len)) => Ok(ParseResult::new(data, len)),
        Err(e) => Err(e),
    }
}

/// Decodes an integer `i<dec>e` from the start of the input.
pub fn parse_int(line: &[u8]) -> (r: Result<ParseResult<i64>, DecodeError>)
    ensures
        match r {
            Ok(pr) => bdec_int(line@) == Ok::<(int, int), DecodeError>(
                (pr.data as int, pr.len as int),
            ),
            Err(e) => bdec_int(line@) == Err::<(int, int), DecodeError>(e),
        },
{
    proof {
        assert(line@.skip(0) =~= line@);
    }
    match parse_int_at(line, 0) {
        Ok((data, len)) => Ok(ParseResult::new(data, len)),
        Err(e) => Err(e),
    }
}


// ---------------------------------------------------------------------------
// Executable decoding: values, lists, dictionaries
// ---------------------------------------------------------------------------

/// Byte-for-byte equality of two byte vectors.
pub(crate) fn bytes_eq(a: &Vec<u8>, b: &Vec<u8>) -> (r: bool)
    ensures
        r == (a@ == b@),
{
    if a.len() != b.len() {
        return false;
    }
    let mut i: usize = 0;
    while i < a.len()
        invariant
            a@.len() == b@.len(),
            i <= a@.len(),
            forall|j: int| 0 <= j < i ==> a@[j] == b@[j],
        decreases a@.len() - i,
    {
        if a[i] != b[i] {
            return false;
        }
        i += 1;
    }
    proof {
        assert(a@ =~= b@);
    }
    true
}

/// A fresh byte vector with the same contents.
pub(crate) fn bytes_dup(a: &Vec<u8>) -> (r: Vec<u8>)
    ensures
        r@ == a@,
{
    let r = a.clone();
    proof {
        assert(r@ =~= a@);
    }
    r
}

/// Inserts one decoded pair into the accumulated entries, exactly as
/// `dict_put` says: an existing key keeps its position and takes the new
/// value, a new key is appended.
fn dict_put_pair(entries: &mut Vec<(Vec<u8>, Bencode)>, key: Vec<u8>, val: Bencode)
    ensures
        pair_views_of(final(entries)@) == dict_put(
            pair_views_of(old(entries)@),
            key@,
            bview(val),
        ),
{
    let ghost orig = entries@;
    let ghost es = pair_views_of(orig);
    proof {
        lemma_pair_views_of(orig);
    }
    let mut i: usize = 0;
    while i < entries.len()
        invariant
            orig == old(entries)@,
            entries@ == orig,
            es == pair_views_of(orig),
            es.len() == orig.len(),
            forall|j: int| 0 <= j < orig.len() ==> es[j] == (orig[j].0@, bview(orig[j].1)),
            i <= orig.len(),
            forall|j: int| 0 <= j < i ==> es[j].0 != key@,
        decreases orig.len() - i,
    {
        if bytes_eq(&entries[i].0, &key) {
            proof {
                lemma_find_key_of(es, key@, Some(i as int));
            }
            let ghost k_snap = key;
            let ghost v_snap = val;
            let _ = entries.remove(i);
            entries.insert(i, (key, val));
            proof {
                assert(entries@ =~= orig.update(i as int, (k_snap, v_snap)));
                lemma_pair_views_of(entries@);
                assert(pair_views_of(entries@) =~= es.update(i as int, (k_snap@, bview(v_snap))));
            }
            return ;
        }
        i += 1;
    }
    proof {
        lemma_find_key_of(es, key@, None);
    }
    entries.push((key, val));
    proof {
        lemma_pair_views_of(entries@);
        assert(pair_views_of(entries@) =~= es.push((key@, bview(val))));
    }
}

/// Folds decoded pairs in source order into normalized entries, exactly
/// as `dict_norm` says.
fn dict_norm_exec(raw: Vec<(Vec<u8>, Bencode)>) -> (r: Vec<(Vec<u8>, Bencode)>)
    ensures
        pair_views_of(r@) == dict_norm(pair_views_of(raw@)),
{
    let ghost orig = raw@;
    let mut rest = raw;
    let total = rest.len();
    proof {
        assert(orig.len() == total);
    }
    let mut out: Vec<(Vec<u8>, Bencode)> = Vec::new();
    let mut i: usize = 0;
    proof {
        assert(pair_views_of(orig.take(0)) =~= pair_views_of(Seq::<(Vec<u8>, Bencode)>::empty()));
        assert(pair_views_of(out@) =~= Seq::<(Seq<u8>, BenModel)>::empty());
    }
    while rest.len() > 0
        invariant
            orig.len() <= usize::MAX,
            i + rest@.len() == orig.len(),
            rest@ == orig.skip(i as int),
            pair_views_of(out@) == dict_norm(pair_views_of(orig.take(i as int))),
        decreases rest@.len(),
    {
        let pair = rest.remove(0);
        proof {
            assert(pair == orig[i as int]);
            assert(rest@ =~= orig.skip(i + 1));
        }
        let ghost before = pair_views_of(orig.take(i as int));
        dict_put_pair(&mut out, pair.0, pair.1);
        proof {
            lemma_pair_views_of(orig.take(i as int));
            lemma_pair_views_of(orig.take(i + 1));
            assert(pair_views_of(orig.take(i + 1)).drop_last() =~= before);
            assert(pair_views_of(orig.take(i + 1)).last() == (orig[i as int].0@, bview(
                orig[i as int].1,
            )));
        }
        i += 1;
    }
    proof {
        assert(orig.take(orig.len() as int) =~= orig);
    }
    out
}

/// Decodes one value at offset `at`, exactly as `bdec_val` says on the
/// input from `at`.
fn parse_val_at(line: &[u8], at: usize) -> (r: Result<(Bencode, usize), DecodeError>)
    requires
        at <= line@.len(),
    ensures
        match r {
            Ok(p) => bdec_val(line@.skip(at as int)) == Ok::<(BenModel, int), DecodeError>(
                (p.0@, p.1 as int),
            ) && at + p.1 <= line@.len(),
            Err(e) => bdec_val(line@.skip(at as int)) == Err::<(BenModel, int), DecodeError>(e),
        },
    decreases line@.len() - at, 0int,
{
    let ghost s = line@.skip(at as int);
    if at == line.len() {
        return Ok((Bencode::End, 0));
    }
    let b = line[at];
    proof {
        assert(s[0] == line@[at as int]);
    }
    if b == B_LOWER_E {
        Ok((Bencode::End, 1))
    } else if b == B_LOWER_I {
        match parse_int_at(line, at) {
            Ok((v, n)) => Ok((Bencode::Int(v), n)),
            Err(e) => Err(e),
        }
    } else if b == B_LOWER_L {
        proof {
            assert(line@.skip((at + 1) as int) =~= s.skip(1));
        }
        match parse_items_at(line, at + 1) {
            Ok((items, n)) => Ok((Bencode::List(items), 1 + n)),
            Err(e) => Err(e),
        }
    } else if b == B_LOWER_D {
        proof {
            assert(line@.skip((at + 1) as int) =~= s.skip(1));
        }
        match parse_entries_at(line, at + 1) {
            Ok((raw, n)) => {
                let entries = dict_norm_exec(raw);
                Ok((Bencode::Dict(entries), 1 + n))
            },
            Err(e) => Err(e),
        }
    } else {
        match parse_string_at(line, at) {
            Ok((v, n)) => Ok((Bencode::Str(v), n)),
            Err(e) => Err(e),
        }
    }
}

/// Decodes a list body at offset `at` (after the `l` tag), exactly as
/// `bdec_items` says on the input from `at`.
fn parse_items_at(line: &[u8], at: usize) -> (r: Result<(Vec<Bencode>, usize), DecodeError>)
    requires
        at <= line@.len(),
    ensures
        match r {
            Ok(p) => bdec_items(line@.skip(at as int)) == Ok::<(Seq<BenModel>, int), DecodeError>(
                (views_of(p.0@), p.1 as int),
            ) && 1 <= p.1 && at + p.1 <= line@.len(),
            Err(e) => bdec_items(line@.skip(at as int)) == Err::<
                (Seq<BenModel>, int),
                DecodeError,
            >(e),
        },
    decreases line@.len() - at, 1int,
{
    let ghost s = line@.skip(at as int);
    match parse_val_at(line, at) {
        Err(e) => Err(e),
        Ok((v, n)) => {
            if v.is_end() {
                if n == 1 {
                    proof {
                        assert(views_of(Seq::<Bencode>::empty()) =~= Seq::<BenModel>::empty());
                    }
                    Ok((Vec::new(), 1))
                } else {
                    Err(DecodeError::UnterminatedList)
                }
            } else {
                if 1 <= n && n <= line.len() - at {
                    proof {
                        assert(line@.skip((at + n) as int) =~= s.skip(n as int));
                    }
                    match parse_items_at(line, at + n) {
                        Err(e) => Err(e),
                        Ok((rest, m)) => {
                            let ghost rest_snap = rest@;
                            let mut items = rest;
                            items.insert(0, v);
                            proof {
                                assert(items@ =~= seq![v] + rest_snap);
                                lemma_views_of(items@);
                                lemma_views_of(rest_snap);
                                assert(views_of(items@) =~= seq![bview(v)] + views_of(rest_snap));
                            }
                            Ok((items, n + m))
                        },
                    }
                } else {
                    Err(DecodeError::UnterminatedList)
                }
            }
        },
    }
}

/// Decodes a dictionary body at offset `at` (after the `d` tag) into raw
/// pairs in source order, exactly as `bdec_entries` says on the input
/// from `at`.
fn parse_entries_at(line: &[u8], at: usize) -> (r: Result<
    (Vec<(Vec<u8>, Bencode)>, usize),
    DecodeError,
>)
    requires
        at <= line@.len(),
    ensures
        match r {
            Ok(p) => bdec_entries(line@.skip(at as int)) == Ok::<
                (Seq<(Seq<u8>, BenModel)>, int),
                DecodeError,
            >((pair_views_of(p.0@), p.1 as int)) && 1 <= p.1 && at + p.1 <= line@.len(),
            Err(e) => bdec_entries(line@.skip(at as int)) == Err::<
                (Seq<(Seq<u8>, BenModel)>, int),
                DecodeError,
            >(e),
        },
    decreases line@.len() - at, 1int,
{
    let ghost s = line@.skip(at as int);
    match parse_val_at(line, at) {
        Err(e) => Err(e),
        Ok((k, n)) => match k {
            Bencode::End => {
                if n == 1 {
                    proof {
                        assert(pair_views_of(Seq::<(Vec<u8>, Bencode)>::empty()) =~= Seq::<
                            (Seq<u8>, BenModel),
                        >::empty());
                    }
                    Ok((Vec::new(), 1))
                } else {
                    Err(DecodeError::UnterminatedDict)
                }
            },
            Bencode::Str(kb) => {
                if 1 <= n && n <= line.len() - at {
                    proof {
                        assert(line@.skip((at + n) as int) =~= s.skip(n as int));
                    }
                    match parse_val_at(line, at + n) {
                        Err(e) => Err(e),
                        Ok((v, m)) => {
                            if v.is_end() {
                                Err(DecodeError::UnterminatedDict)
                            } else if 1 <= m && m <= line.len() - (at + n) {
                                proof {
                                    assert(line@.skip((at + n + m) as int) =~= s.skip(
                                        (n + m) as int,
                                    ));
                                }
                                match parse_entries_at(line, at + n + m) {
                                    Err(e) => Err(e),
                                    Ok((rest, t)) => {
                                        let ghost rest_snap = rest@;
                                        let ghost kbs = kb@;
                                        let mut entries = rest;
                                        entries.insert(0, (kb, v));
                                        proof {
                                            lemma_pair_views_of(entries@);
                                            lemma_pair_views_of(rest_snap);
                                            assert(pair_views_of(entries@) =~= seq![
                                                (kbs, bview(v)),
                                            ] + pair_views_of(rest_snap));
                                        }
                                        Ok((entries, n + m + t))
                                    },
                                }
                            } else {
                                Err(DecodeError::UnterminatedDict)
                            }
                        },
                    }
                } else {
                    Err(DecodeError::UnterminatedDict)
                }
            },
            _ => Err(DecodeError::InvalidKeyType),
        },
    }
}


// ---------------------------------------------------------------------------
// Executable decoding: public entry points for values, lists, dictionaries
// ---------------------------------------------------------------------------

/// Decoding of a whole list `l...e` from the start of the input; input
/// that does not open with the `l` tag is `UnterminatedList`.
pub open spec fn bdec_list(s: Seq<u8>) -> Result<(Seq<BenModel>, int), DecodeError> {
    if s.len() > 0 && s[0] == B_LOWER_L {
        match bdec_items(s.skip(1)) {
            Ok((items, n)) => Ok((items, 1 + n)),
            Err(e) => Err(e),
        }
    } else {
        Err(DecodeError::UnterminatedList)
    }
}

/// Decoding of a whole dictionary `d...e` from the start of the input,
/// normalized so duplicate keys collapse (last write wins); input that
/// does not open with the `d` tag is `UnterminatedDict`.
pub open spec fn bdec_dict(s: Seq<u8>) -> Result<(Seq<(Seq<u8>, BenModel)>, int), DecodeError> {
    if s.len() > 0 && s[0] == B_LOWER_D {
        match bdec_entries(s.skip(1)) {
            Ok((raw, n)) => Ok((dict_norm(raw), 1 + n)),
            Err(e) => Err(e),
        }
    } else {
        Err(DecodeError::UnterminatedDict)
    }
}

/// Decodes one bencode value from the start of the input, returning it
/// with the exact number of bytes consumed, as `bdec_val` says.
pub fn parse_bencode(line: &[u8]) -> (r: Result<ParseResult<Bencode>, DecodeError>)
    ensures
        match r {
            Ok(pr) => bdec_val(line@) == Ok::<(BenModel, int), DecodeError>(
                (pr.data@, pr.len as int),
            ) && pr.len <= line@.len(),
            Err(e) => bdec_val(line@) == Err::<(BenModel, int), DecodeError>(e),
        },
{
    proof {
        assert(line@.skip(0) =~= line@);
    }
    match parse_val_at(line, 0) {
        Ok((data, len)) => Ok(ParseResult::new(data, len)),
        Err(e) => Err(e),
    }
}

/// Decodes a whole list `l...e` from the start of the input, as
/// `bdec_list` says.
pub fn parse_list(line: &[u8]) -> (r: Result<ParseResult<Vec<Bencode>>, DecodeError>)
    ensures
        match r {
            Ok(pr) => bdec_list(line@) == Ok::<(Seq<BenModel>, int), DecodeError>(
                (views_of(pr.data@), pr.len as int),
            ) && pr.len <= line@.len(),
            Err(e) => bdec_list(line@) == Err::<(Seq<BenModel>, int), DecodeError>(e),
        },
{
    if line.len() > 0 && line[0] == B_LOWER_L {
        proof {
            assert(line@.skip(1) =~= line@.skip(1int));
        }
        match parse_items_at(line, 1) {
            Ok((items, n)) => Ok(ParseResult::new(items, 1 + n)),
            Err(e) => Err(e),
        }
    } else {
        Err(DecodeError::UnterminatedList)
    }
}

/// Decodes a whole dictionary `d...e` from the start of the input into
/// normalized entries (source order of first occurrence, duplicate keys
/// collapsed last-write-wins), as `bdec_dict` says.
pub fn parse_dict(line: &[u8]) -> (r: Result<ParseResult<Vec<(Vec<u8>, Bencode)>>, DecodeError>)
    ensures
        match r {
            Ok(pr) => bdec_dict(line@) == Ok::<(Seq<(Seq<u8>, BenModel)>, int), DecodeError>(
                (pair_views_of(pr.data@), pr.len as int),
            ) && pr.len <= line@.len(),
            Err(e) => bdec_dict(line@) == Err::<(Seq<(Seq<u8>, BenModel)>, int), DecodeError>(e),
        },
{
    if line.len() > 0 && line[0] == B_LOWER_D {
        proof {
            assert(line@.skip(1) =~= line@.skip(1int));
        }
        match parse_entries_at(line, 1) {
            Ok((raw, n)) => {
                let entries = dict_norm_exec(raw);
                Ok(ParseResult::new(entries, 1 + n))
            },
            Err(e) => Err(e),
        }
    } else {
        Err(DecodeError::UnterminatedDict)
    }
}


// ---------------------------------------------------------------------------
// Spec-level encoding
// ---------------------------------------------------------------------------

/// The ASCII decimal digits of `n >= 0`, most significant first, no
/// leading zeros (a single `0` for zero).
pub open spec fn dec_u(n: int) -> Seq<u8>
    decreases n,
{
    if n < 10 {
        seq![(B_ZERO + n) as u8]
    } else {
        dec_u(n / 10).push((B_ZERO + n % 10) as u8)
    }
}

/// The ASCII decimal rendering of a signed integer.
pub open spec fn dec_int(i: int) -> Seq<u8> {
    if i < 0 {
        seq![B_MINUS] + dec_u(-i)
    } else {
        dec_u(i)
    }
}

/// The encoding of a byte string: `<len>:<payload>`.
pub open spec fn benc_str_bytes(s: Seq<u8>) -> Seq<u8> {
    dec_u(s.len() as int) + seq![B_COLON] + s
}

/// The encoding of a value, entries taken in stored order: the encoder
/// composes this with canonicalization (`canon_rel`). The `End` sentinel
/// has no encoding.
pub open spec fn benc(m: BenModel) -> Seq<u8>
    decreases m, 1int,
{
    match m {
        BenModel::Str(s) => benc_str_bytes(s),
        BenModel::Int(i) => seq![B_LOWER_I] + dec_int(i) + seq![B_LOWER_E],
        BenModel::List(items) => seq![B_LOWER_L] + benc_items_m(items) + seq![B_LOWER_E],
        BenModel::Dict(es) => seq![B_LOWER_D] + benc_pairs_m(es) + seq![B_LOWER_E],
        BenModel::End => Seq::empty(),
    }
}

/// The concatenated encodings of list items, in order.
pub open spec fn benc_items_m(items: Seq<BenModel>) -> Seq<u8>
    decreases items, 0int,
{
    if items.len() == 0 {
        Seq::empty()
    } else {
        benc(items.first()) + benc_items_m(items.drop_first())
    }
}

/// The concatenated encodings of dictionary entries, in stored order.
pub open spec fn benc_pairs_m(es: Seq<(Seq<u8>, BenModel)>) -> Seq<u8>
    decreases es, 0int,
{
    if es.len() == 0 {
        Seq::empty()
    } else {
        benc_str_bytes(es.first().0) + benc(es.first().1) + benc_pairs_m(es.drop_first())
    }
}

// ---------------------------------------------------------------------------
// Key order, well-formedness, canonical form
// ---------------------------------------------------------------------------

/// Byte-lexicographic order on raw keys: shorter prefixes come first.
pub open spec fn lex_le(a: Seq<u8>, b: Seq<u8>) -> bool
    decreases a.len(),
{
    if a.len() == 0 {
        true
    } else if b.len() == 0 {
        false
    } else if a[0] < b[0] {
        true
    } else if a[0] > b[0] {
        false
    } else {
        lex_le(a.skip(1), b.skip(1))
    }
}

/// Strict byte-lexicographic order.
pub open spec fn lex_lt(a: Seq<u8>, b: Seq<u8>) -> bool {
    lex_le(a, b) && a != b
}

/// `lex_le` relates every pair of keys one way or the other.
pub proof fn lemma_lex_le_total(a: Seq<u8>, b: Seq<u8>)
    ensures
        lex_le(a, b) || lex_le(b, a),
    decreases a.len(),
{
    if a.len() > 0 && b.len() > 0 && a[0] == b[0] {
        lemma_lex_le_total(a.skip(1), b.skip(1));
    }
}

/// Keys below each other are equal.
pub proof fn lemma_lex_le_antisym(a: Seq<u8>, b: Seq<u8>)
    requires
        lex_le(a, b),
        lex_le(b, a),
    ensures
        a == b,
    decreases a.len(),
{
    if a.len() == 0 {
        assert(b.len() == 0);
        assert(a =~= b);
    } else {
        assert(b.len() > 0);
        assert(a[0] == b[0]);
        lemma_lex_le_antisym(a.skip(1), b.skip(1));
        assert(a =~= Seq::empty().push(a[0]) + a.skip(1));
        assert(b =~= Seq::empty().push(b[0]) + b.skip(1));
    }
}

/// `lex_le` is transitive.
pub proof fn lemma_lex_le_trans(a: Seq<u8>, b: Seq<u8>, c: Seq<u8>)
    requires
        lex_le(a, b),
        lex_le(b, c),
    ensures
        lex_le(a, c),
    decreases a.len(),
{
    if a.len() > 0 && b.len() > 0 && c.len() > 0 && a[0] == b[0] && b[0] == c[0] {
        lemma_lex_le_trans(a.skip(1), b.skip(1), c.skip(1));
    }
}

/// No two entries share a key.
pub open spec fn unique_keys(es: Seq<(Seq<u8>, BenModel)>) -> bool {
    forall|i: int, j: int| 0 <= i < j < es.len() ==> (#[trigger] es[i]).0 != (#[trigger] es[j]).0
}

/// Entries are sorted by key, byte-lexicographically.
pub open spec fn sorted_keys(es: Seq<(Seq<u8>, BenModel)>) -> bool {
    forall|i: int, j: int| 0 <= i < j < es.len() ==> lex_le((#[trigger] es[i]).0, (#[trigger] es[j]).0)
}

/// A well-formed model: no `End` sentinel anywhere, integers within the
/// signed 64-bit range, string lengths addressable, dictionary keys
/// unique.
pub open spec fn m_wf(m: BenModel) -> bool
    decreases m,
{
    match m {
        BenModel::Str(s) => s.len() <= usize::MAX,
        BenModel::Int(i) => i64::MIN <= i <= i64::MAX,
        BenModel::List(items) => forall|i: int|
            0 <= i < items.len() ==> m_wf(#[trigger] items[i]),
        BenModel::Dict(es) => unique_keys(es) && (forall|i: int|
            0 <= i < es.len() ==> es[i].0.len() <= usize::MAX && m_wf((#[trigger] es[i]).1)),
        BenModel::End => false,
    }
}

/// A canonical model: well formed, and every dictionary's entries sorted
/// strictly ascending by raw key bytes.
pub open spec fn m_canonical(m: BenModel) -> bool
    decreases m,
{
    match m {
        BenModel::Str(s) => s.len() <= usize::MAX,
        BenModel::Int(i) => i64::MIN <= i <= i64::MAX,
        BenModel::List(items) => forall|i: int|
            0 <= i < items.len() ==> m_canonical(#[trigger] items[i]),
        BenModel::Dict(es) => unique_keys(es) && sorted_keys(es) && (forall|i: int|
            0 <= i < es.len() ==> es[i].0.len() <= usize::MAX && m_canonical(
                (#[trigger] es[i]).1,
            )),
        BenModel::End => false,
    }
}

/// `c` is a canonicalization of `a`: the same logical content, with every
/// dictionary's entries rearranged into sorted key order.
pub open spec fn canon_rel(a: BenModel, c: BenModel) -> bool
    decreases a,
{
    match (a, c) {
        (BenModel::Str(x), BenModel::Str(y)) => x == y,
        (BenModel::Int(x), BenModel::Int(y)) => x == y,
        (BenModel::List(xs), BenModel::List(ys)) => ys.len() == xs.len() && (forall|i: int|
            0 <= i < xs.len() ==> canon_rel(#[trigger] xs[i], ys[i])),
        (BenModel::Dict(xs), BenModel::Dict(ys)) => exists|mid: Seq<(Seq<u8>, BenModel)>|
            #[trigger] mid.to_multiset() == ys.to_multiset() && mid.len() == xs.len() && (
            forall|i: int|
                0 <= i < xs.len() ==> (#[trigger] mid[i]).0 == xs[i].0 && canon_rel(
                    xs[i].1,
                    mid[i].1,
                )) && sorted_keys(ys),
        _ => false,
    }
}


// ---------------------------------------------------------------------------
// Encoding lemmas
// ---------------------------------------------------------------------------

/// Item encoding distributes over concatenation.
pub proof fn lemma_benc_items_m_concat(s1: Seq<BenModel>, s2: Seq<BenModel>)
    ensures
        benc_items_m(s1 + s2) == benc_items_m(s1) + benc_items_m(s2),
    decreases s1.len(),
{
    if s1.len() == 0 {
        assert(s1 + s2 =~= s2);
        assert(benc_items_m(s1) + benc_items_m(s2) =~= benc_items_m(s2));
    } else {
        assert((s1 + s2).len() > 0);
        assert((s1 + s2).first() == s1.first());
        assert((s1 + s2).drop_first() =~= s1.drop_first() + s2);
        lemma_benc_items_m_concat(s1.drop_first(), s2);
        assert(benc_items_m(s1 + s2) =~= benc_items_m(s1) + benc_items_m(s2));
    }
}

/// Entry encoding distributes over concatenation.
pub proof fn lemma_benc_pairs_m_concat(s1: Seq<(Seq<u8>, BenModel)>, s2: Seq<(Seq<u8>, BenModel)>)
    ensures
        benc_pairs_m(s1 + s2) == benc_pairs_m(s1) + benc_pairs_m(s2),
    decreases s1.len(),
{
    if s1.len() == 0 {
        assert(s1 + s2 =~= s2);
        assert(benc_pairs_m(s1) + benc_pairs_m(s2) =~= benc_pairs_m(s2));
    } else {
        assert((s1 + s2).len() > 0);
        assert((s1 + s2).first() == s1.first());
        assert((s1 + s2).drop_first() =~= s1.drop_first() + s2);
        lemma_benc_pairs_m_concat(s1.drop_first(), s2);
        assert(benc_pairs_m(s1 + s2) =~= benc_pairs_m(s1) + benc_pairs_m(s2));
    }
}

/// Key uniqueness carries across a permutation of the entries.
pub proof fn lemma_unique_keys_multiset(x: Seq<(Seq<u8>, BenModel)>, y: Seq<(Seq<u8>, BenModel)>)
    requires
        x.to_multiset() == y.to_multiset(),
        unique_keys(x),
    ensures
        unique_keys(y),
{
    x.to_multiset_ensures();
    y.to_multiset_ensures();
    assert(x.no_duplicates()) by {
        assert forall|a: int, b: int|
            0 <= a < x.len() && 0 <= b < x.len() && a != b implies x[a] != x[b] by {
            if a < b {
                assert(x[a].0 != x[b].0);
            } else {
                assert(x[b].0 != x[a].0);
            }
        }
    }
    x.lemma_multiset_has_no_duplicates();
    assert forall|i: int, j: int|
        0 <= i < j < y.len() implies (#[trigger] y[i]).0 != (#[trigger] y[j]).0 by {
        if y[i].0 == y[j].0 {
            if y[i] == y[j] {
                y.remove_ensures(j);
                assert(y.remove(j)[i] == y[i]);
                assert(y.remove(j).contains(y[i]));
                assert(y.remove(j).to_multiset() =~= y.to_multiset().remove(y[j]));
                y.remove(j).to_multiset_ensures();
                assert(y.remove(j).to_multiset().count(y[i]) > 0);
                assert(y.to_multiset().count(y[i]) >= 2);
                assert(x.to_multiset().count(y[i]) >= 2);
                assert(x.to_multiset().contains(y[i]));
                assert(x.contains(y[i]));
                assert(false);
            } else {
                assert(y.contains(y[i]));
                assert(y.contains(y[j]));
                assert(y.to_multiset().count(y[i]) > 0);
                assert(y.to_multiset().count(y[j]) > 0);
                assert(x.to_multiset().count(y[i]) > 0);
                assert(x.to_multiset().count(y[j]) > 0);
                assert(x.contains(y[i]));
                assert(x.contains(y[j]));
                let a = choose|a: int| 0 <= a < x.len() && x[a] == y[i];
                let b = choose|b: int| 0 <= b < x.len() && x[b] == y[j];
                assert(a != b);
                if a < b {
                    assert(x[a].0 != x[b].0);
                } else {
                    assert(x[b].0 != x[a].0);
                }
                assert(false);
            }
        }
    }
}

/// Two entry sequences sorted by key, with unique keys and the same
/// entries, are identical.
pub proof fn lemma_sorted_unique_pairs(x: Seq<(Seq<u8>, BenModel)>, y: Seq<(Seq<u8>, BenModel)>)
    requires
        sorted_keys(x),
        sorted_keys(y),
        unique_keys(x),
        unique_keys(y),
        x.to_multiset() == y.to_multiset(),
    ensures
        x == y,
    decreases x.len(),
{
    x.to_multiset_ensures();
    y.to_multiset_ensures();
    if x.len() == 0 {
        assert(y.to_multiset().len() == 0);
        assert(x =~= y);
    } else if y.len() == 0 {
        assert(x.to_multiset().len() == 0);
        assert(x =~= y);
    } else {
        assert(x.contains(x[0]));
        assert(x.to_multiset().count(x[0]) > 0);
        assert(y.to_multiset().count(x[0]) > 0);
        assert(y.contains(x[0]));
        assert(y.to_multiset().count(y[0]) > 0);
        assert(x.to_multiset().count(y[0]) > 0);
        assert(x.contains(y[0]));
        let iy = choose|i: int| 0 <= i < y.len() && y[i] == x[0];
        let ix = choose|i: int| 0 <= i < x.len() && x[i] == y[0];
        assert(lex_le(y[0].0, x[0].0)) by {
            if iy > 0 {
                assert(lex_le(y[0].0, y[iy].0));
                assert(y[iy] == x[0]);
            } else {
                assert(y[0] == x[0]);
                lemma_lex_le_total(x[0].0, x[0].0);
            }
        }
        assert(lex_le(x[0].0, y[0].0)) by {
            if ix > 0 {
                assert(lex_le(x[0].0, x[ix].0));
                assert(x[ix] == y[0]);
            } else {
                assert(x[0] == y[0]);
                lemma_lex_le_total(x[0].0, x[0].0);
            }
        }
        lemma_lex_le_antisym(x[0].0, y[0].0);
        assert(x[0].0 == y[0].0);
        assert(x[0] == y[0]) by {
            if iy != 0 {
                assert(y[iy].0 == y[0].0);
                assert(false);
            }
        }
        assert(x.drop_first().to_multiset() =~= x.to_multiset().remove(x[0])) by {
            assert(x.remove(0) =~= x.drop_first());
        }
        assert(y.drop_first().to_multiset() =~= y.to_multiset().remove(y[0])) by {
            assert(y.remove(0) =~= y.drop_first());
        }
        assert(forall|i: int|
            0 <= i < x.drop_first().len() ==> #[trigger] x.drop_first()[i] == x[i + 1]);
        assert(forall|i: int|
            0 <= i < y.drop_first().len() ==> #[trigger] y.drop_first()[i] == y[i + 1]);
        lemma_sorted_unique_pairs(x.drop_first(), y.drop_first());
        assert(x =~= Seq::empty().push(x[0]) + x.drop_first());
        assert(y =~= Seq::empty().push(y[0]) + y.drop_first());
        assert(x =~= y);
    }
}

/// Canonicalizing a canonical value changes nothing.
pub proof fn lemma_canon_of_canonical(a: BenModel, c: BenModel)
    requires
        m_canonical(a),
        canon_rel(a, c),
    ensures
        c == a,
    decreases a,
{
    match (a, c) {
        (BenModel::Str(_), BenModel::Str(_)) => {},
        (BenModel::Int(_), BenModel::Int(_)) => {},
        (BenModel::List(xs), BenModel::List(ys)) => {
            assert forall|i: int| 0 <= i < xs.len() implies ys[i] == xs[i] by {
                assert(canon_rel(xs[i], ys[i]));
                assert(m_canonical(xs[i]));
                lemma_canon_of_canonical(xs[i], ys[i]);
            }
            assert(xs =~= ys);
        },
        (BenModel::Dict(xs), BenModel::Dict(ys)) => {
            let mid = choose|mid: Seq<(Seq<u8>, BenModel)>|
                #[trigger] mid.to_multiset() == ys.to_multiset() && mid.len() == xs.len() && (
                forall|i: int|
                    0 <= i < xs.len() ==> (#[trigger] mid[i]).0 == xs[i].0 && canon_rel(
                        xs[i].1,
                        mid[i].1,
                    )) && sorted_keys(ys);
            assert forall|i: int| 0 <= i < xs.len() implies mid[i] == xs[i] by {
                assert(mid[i].0 == xs[i].0 && canon_rel(xs[i].1, mid[i].1));
                assert(m_canonical(xs[i].1));
                lemma_canon_of_canonical(xs[i].1, mid[i].1);
            }
            assert(mid =~= xs);
            lemma_unique_keys_multiset(xs, ys);
            lemma_sorted_unique_pairs(xs, ys);
        },
        _ => {},
    }
}

// ---------------------------------------------------------------------------
// Executable encoding
// ---------------------------------------------------------------------------

/// Appends the decimal digits of `n`, exactly `dec_u`.
fn push_dec_u64(out: &mut Vec<u8>, n: u64)
    ensures
        final(out)@ == old(out)@ + dec_u(n as int),
    decreases n,
{
    if n < 10 {
        out.push(B_ZERO + (n as u8));
        proof {
            assert(final(out)@ =~= old(out)@ + dec_u(n as int));
        }
    } else {
        push_dec_u64(out, n / 10);
        out.push(B_ZERO + ((n % 10) as u8));
        proof {
            assert(final(out)@ =~= old(out)@ + dec_u(n as int));
        }
    }
}

/// Appends the decimal rendering of a signed value, exactly `dec_int`.
fn push_dec_i64(out: &mut Vec<u8>, i: i64)
    ensures
        final(out)@ == old(out)@ + dec_int(i as int),
{
    if i < 0 {
        out.push(B_MINUS);
        let mag = (-(i as i128)) as u64;
        push_dec_u64(out, mag);
        proof {
            assert(final(out)@ =~= old(out)@ + dec_int(i as int));
        }
    } else {
        push_dec_u64(out, i as u64);
    }
}

/// Appends the in-order encoding of `v`, exactly `benc` of its model.
fn encode_onto(v: &Bencode, out: &mut Vec<u8>)
    ensures
        final(out)@ == old(out)@ + benc(v@),
    decreases v,
{
    match v {
        Bencode::Str(b) => {
            push_dec_u64(out, b.len() as u64);
            out.push(B_COLON);
            out.extend_from_slice(b.as_slice());
            proof {
                assert(final(out)@ =~= old(out)@ + benc_str_bytes(b@));
            }
        },
        Bencode::Int(i) => {
            out.push(B_LOWER_I);
            push_dec_i64(out, *i);
            out.push(B_LOWER_E);
            proof {
                assert(final(out)@ =~= old(out)@ + benc(v@));
            }
        },
        Bencode::List(items) => {
            out.push(B_LOWER_L);
            let ghost base = out@;
            let mut k: usize = 0;
            proof {
                assert(views_of(items@.take(0)) =~= Seq::<BenModel>::empty());
                assert(base + benc_items_m(views_of(items@.take(0))) =~= base);
            }
            while k < items.len()
                invariant
                    *v == Bencode::List(*items),
                    k <= items@.len(),
                    out@ == base + benc_items_m(views_of(items@.take(k as int))),
                decreases items@.len() - k,
            {
                proof {
                    assert(decreases_to!(*v => items@[k as int])) by {
                        assert(v->List_0 == *items);
                        assert(decreases_to!(*v => v->List_0));
                        assert(decreases_to!(*items => items@));
                        assert(decreases_to!(items@ => items@[k as int]));
                    }
                }
                encode_onto(&items[k], out);
                proof {
                    let a = views_of(items@.take(k as int));
                    let b = views_of(items@.take(k + 1));
                    lemma_views_of(items@.take(k as int));
                    lemma_views_of(items@.take(k + 1));
                    assert(b =~= a + seq![bview(items@[k as int])]);
                    lemma_benc_items_m_concat(a, seq![bview(items@[k as int])]);
                    let single = seq![bview(items@[k as int])];
                    assert(single.drop_first() =~= Seq::<BenModel>::empty());
                    assert(benc_items_m(Seq::<BenModel>::empty()) =~= Seq::<u8>::empty());
                    assert(benc_items_m(single) =~= benc(bview(items@[k as int])));
                    assert(out@ =~= base + benc_items_m(b));
                }
                k += 1;
            }
            out.push(B_LOWER_E);
            proof {
                assert(items@.take(items@.len() as int) =~= items@);
                assert(final(out)@ =~= old(out)@ + benc(v@));
            }
        },
        Bencode::Dict(entries) => {
            out.push(B_LOWER_D);
            let ghost base = out@;
            let mut k: usize = 0;
            proof {
                assert(pair_views_of(entries@.take(0)) =~= Seq::<(Seq<u8>, BenModel)>::empty());
                assert(base + benc_pairs_m(pair_views_of(entries@.take(0))) =~= base);
            }
            while k < entries.len()
                invariant
                    *v == Bencode::Dict(*entries),
                    k <= entries@.len(),
                    out@ == base + benc_pairs_m(pair_views_of(entries@.take(k as int))),
                decreases entries@.len() - k,
            {
                push_dec_u64(out, entries[k].0.len() as u64);
                out.push(B_COLON);
                out.extend_from_slice(entries[k].0.as_slice());
                proof {
                    assert(decreases_to!(*v => entries@[k as int].1)) by {
                        assert(v->Dict_0 == *entries);
                        assert(decreases_to!(*v => v->Dict_0));
                        assert(decreases_to!(*entries => entries@));
                        assert(decreases_to!(entries@ => entries@[k as int]));
                        assert(decreases_to!(entries@[k as int] => entries@[k as int].1));
                    }
                }
                encode_onto(&entries[k].1, out);
                proof {
                    let a = pair_views_of(entries@.take(k as int));
                    let b = pair_views_of(entries@.take(k + 1));
                    lemma_pair_views_of(entries@.take(k as int));
                    lemma_pair_views_of(entries@.take(k + 1));
                    let e = (entries@[k as int].0@, bview(entries@[k as int].1));
                    assert(b =~= a + seq![e]);
                    lemma_benc_pairs_m_concat(a, seq![e]);
                    let single = seq![e];
                    assert(single.drop_first() =~= Seq::<(Seq<u8>, BenModel)>::empty());
                    assert(benc_pairs_m(Seq::<(Seq<u8>, BenModel)>::empty()) =~= Seq::<u8>::empty());
                    assert(benc_pairs_m(single) =~= benc_str_bytes(e.0) + benc(e.1));
                    assert(out@ =~= base + benc_pairs_m(b));
                }
                k += 1;
            }
            out.push(B_LOWER_E);
            proof {
                assert(entries@.take(entries@.len() as int) =~= entries@);
                assert(final(out)@ =~= old(out)@ + benc(v@));
            }
        },
        Bencode::End => {
            proof {
                assert(benc(v@) =~= Seq::<u8>::empty());
                assert(final(out)@ =~= old(out)@ + benc(v@));
            }
        },
    }
}

/// Byte-lexicographic comparison of two keys, exactly `lex_le`.
fn lex_le_exec(a: &Vec<u8>, b: &Vec<u8>) -> (r: bool)
    ensures
        r == lex_le(a@, b@),
{
    let mut i: usize = 0;
    proof {
        assert(a@.skip(0) =~= a@);
        assert(b@.skip(0) =~= b@);
    }
    while i < a.len() && i < b.len()
        invariant
            i <= a@.len(),
            i <= b@.len(),
            lex_le(a@, b@) == lex_le(a@.skip(i as int), b@.skip(i as int)),
        decreases a@.len() - i,
    {
        if a[i] < b[i] {
            proof {
                assert(a@.skip(i as int)[0] == a@[i as int]);
                assert(b@.skip(i as int)[0] == b@[i as int]);
            }
            return true;
        }
        if a[i] > b[i] {
            proof {
                assert(a@.skip(i as int)[0] == a@[i as int]);
                assert(b@.skip(i as int)[0] == b@[i as int]);
            }
            return false;
        }
        proof {
            assert(a@.skip(i as int)[0] == a@[i as int]);
            assert(b@.skip(i as int)[0] == b@[i as int]);
            assert(a@.skip(i as int).skip(1) =~= a@.skip(i + 1));
            assert(b@.skip(i as int).skip(1) =~= b@.skip(i + 1));
        }
        i += 1;
    }
    let r = i == a.len();
    proof {
        if i == a@.len() {
            assert(a@.skip(i as int).len() == 0);
        } else {
            assert(b@.skip(i as int).len() == 0);
            assert(a@.skip(i as int).len() > 0);
        }
    }
    r
}

/// Sorts entries ascending by raw key bytes: same entries, sorted order.
fn sort_entries(entries: Vec<(Vec<u8>, Bencode)>) -> (r: Vec<(Vec<u8>, Bencode)>)
    ensures
        pair_views_of(r@).to_multiset() == pair_views_of(entries@).to_multiset(),
        sorted_keys(pair_views_of(r@)),
{
    let ghost orig = entries@;
    let mut rest = entries;
    let total = rest.len();
    proof {
        assert(orig.len() == total);
        assert(pair_views_of(orig.take(0)) =~= Seq::<(Seq<u8>, BenModel)>::empty());
        lemma_pair_views_of(orig);
    }
    let mut out: Vec<(Vec<u8>, Bencode)> = Vec::new();
    let mut i: usize = 0;
    while rest.len() > 0
        invariant
            orig.len() <= usize::MAX,
            i + rest@.len() == orig.len(),
            rest@ == orig.skip(i as int),
            pair_views_of(out@).to_multiset() == pair_views_of(orig.take(i as int)).to_multiset(),
            pair_views_of(out@).len() == i,
            sorted_keys(pair_views_of(out@)),
        decreases rest@.len(),
    {
        let pair = rest.remove(0);
        proof {
            assert(pair == orig[i as int]);
            assert(rest@ =~= orig.skip(i + 1));
        }
        let ghost a = pair_views_of(out@);
        let ghost e = (pair.0@, bview(pair.1));
        let mut pos: usize = 0;
        let mut scanning = true;
        proof {
            lemma_pair_views_of(out@);
        }
        while scanning && pos < out.len()
            invariant
                pos <= out@.len(),
                a == pair_views_of(out@),
                a.len() == out@.len(),
                forall|j: int| 0 <= j < out@.len() ==> a[j] == (out@[j].0@, bview(out@[j].1)),
                e == (pair.0@, bview(pair.1)),
                forall|j: int| 0 <= j < pos ==> lex_le((#[trigger] a[j]).0, e.0),
                !scanning ==> pos < out@.len() && !lex_le(a[pos as int].0, e.0),
            decreases out@.len() - pos + (if scanning { 1int } else { 0int }),
        {
            if lex_le_exec(&out[pos].0, &pair.0) {
                pos += 1;
            } else {
                scanning = false;
            }
        }
        out.insert(pos, pair);
        proof {
            lemma_pair_views_of(out@);
            let b = pair_views_of(out@);
            assert(b =~= a.insert(pos as int, e)) by {
                a.insert_ensures(pos as int, e);
            }
            assert(b.to_multiset() =~= a.to_multiset().insert(e)) by {
                assert(a.insert(pos as int, e) =~= a.subrange(0, pos as int).push(e) + a.subrange(
                    pos as int,
                    a.len() as int,
                ));
                assert(a =~= a.subrange(0, pos as int) + a.subrange(pos as int, a.len() as int));
                vstd::seq_lib::lemma_multiset_commutative(
                    a.subrange(0, pos as int).push(e),
                    a.subrange(pos as int, a.len() as int),
                );
                vstd::seq_lib::lemma_multiset_commutative(
                    a.subrange(0, pos as int),
                    a.subrange(pos as int, a.len() as int),
                );
            }
            assert(pair_views_of(orig.take(i + 1)) =~= pair_views_of(orig.take(i as int)).push(e))
                by {
                lemma_pair_views_of(orig.take(i as int));
                lemma_pair_views_of(orig.take(i + 1));
            }
            assert(b.to_multiset() =~= pair_views_of(orig.take(i + 1)).to_multiset());
            assert(sorted_keys(b)) by {
                a.insert_ensures(pos as int, e);
                assert forall|p: int, q: int|
                    0 <= p < q < b.len() implies lex_le((#[trigger] b[p]).0, (#[trigger] b[q]).0) by {
                    if q < pos {
                        assert(b[p] == a[p] && b[q] == a[q]);
                    } else if p < pos && q == pos {
                        assert(b[p] == a[p] && b[q] == e);
                    } else if p < pos && q > pos {
                        assert(b[p] == a[p] && b[q] == a[q - 1]);
                        if p == q - 1 {
                            assert(false);
                        }
                    } else if p == pos {
                        assert(b[p] == e && b[q] == a[q - 1]);
                        assert(q - 1 >= pos);
                        assert(pos < a.len());
                        assert(!lex_le(a[pos as int].0, e.0));
                        lemma_lex_le_total(a[pos as int].0, e.0);
                        assert(lex_le(e.0, a[pos as int].0));
                        if q - 1 > pos {
                            assert(lex_le(a[pos as int].0, a[q - 1].0));
                            lemma_lex_le_trans(e.0, a[pos as int].0, a[q - 1].0);
                        }
                    } else {
                        assert(b[p] == a[p - 1] && b[q] == a[q - 1]);
                    }
                }
            }
        }
        i += 1;
    }
    proof {
        assert(orig.take(orig.len() as int) =~= orig);
    }
    out
}

/// Builds the canonical form of a well-formed value: the same logical
/// content with every dictionary's entries sorted ascending by raw key
/// bytes.
pub fn canon_bencode(v: &Bencode) -> (c: Bencode)
    requires
        m_wf(v@),
    ensures
        m_canonical(c@),
        canon_rel(v@, c@),
    decreases v,
{
    match v {
        Bencode::Str(b) => {
            let nb = b.clone();
            proof {
                assert(nb@ =~= b@);
            }
            Bencode::Str(nb)
        },
        Bencode::Int(i) => Bencode::Int(*i),
        Bencode::List(items) => {
            let mut nitems: Vec<Bencode> = Vec::new();
            let mut k: usize = 0;
            proof {
                lemma_views_of(items@);
                assert(m_wf(v@));
                assert(v@ == BenModel::List(views_of(items@)));
                assert forall|j: int| 0 <= j < items@.len() implies m_wf(
                    bview(#[trigger] items@[j]),
                ) by {
                    assert(views_of(items@)[j] == bview(items@[j]));
                    assert(v@->List_0 == views_of(items@));
                    assert(m_wf(v@->List_0[j]));
                }
            }
            while k < items.len()
                invariant
                    *v == Bencode::List(*items),
                    k <= items@.len(),
                    forall|j: int| 0 <= j < items@.len() ==> m_wf(bview(#[trigger] items@[j])),
                    nitems@.len() == k,
                    forall|j: int|
                        0 <= j < k ==> m_canonical(bview(#[trigger] nitems@[j])) && canon_rel(
                            bview(items@[j]),
                            bview(nitems@[j]),
                        ),
                decreases items@.len() - k,
            {
                proof {
                    assert(decreases_to!(*v => items@[k as int])) by {
                        assert(v->List_0 == *items);
                        assert(decreases_to!(*v => v->List_0));
                        assert(decreases_to!(*items => items@));
                        assert(decreases_to!(items@ => items@[k as int]));
                    }
                }
                let c = canon_bencode(&items[k]);
                nitems.push(c);
                k += 1;
            }
            let r = Bencode::List(nitems);
            proof {
                lemma_views_of(r->List_0@);
                assert(m_canonical(r@));
                assert(canon_rel(v@, r@));
            }
            r
        },
        Bencode::Dict(entries) => {
            let mut mid: Vec<(Vec<u8>, Bencode)> = Vec::new();
            let mut k: usize = 0;
            proof {
                lemma_pair_views_of(entries@);
                assert forall|j: int| 0 <= j < entries@.len() implies m_wf(
                    bview((#[trigger] entries@[j]).1),
                ) by {
                    assert(pair_views_of(entries@)[j] == (entries@[j].0@, bview(entries@[j].1)));
                }
            }
            while k < entries.len()
                invariant
                    *v == Bencode::Dict(*entries),
                    k <= entries@.len(),
                    forall|j: int|
                        0 <= j < entries@.len() ==> m_wf(bview((#[trigger] entries@[j]).1)),
                    mid@.len() == k,
                    forall|j: int|
                        0 <= j < k ==> (#[trigger] mid@[j]).0@ == entries@[j].0@ && m_canonical(
                            bview(mid@[j].1),
                        ) && canon_rel(bview(entries@[j].1), bview(mid@[j].1)),
                decreases entries@.len() - k,
            {
                let key = entries[k].0.clone();
                proof {
                    assert(key@ =~= entries@[k as int].0@);
                }
                proof {
                    assert(decreases_to!(*v => entries@[k as int].1)) by {
                        assert(v->Dict_0 == *entries);
                        assert(decreases_to!(*v => v->Dict_0));
                        assert(decreases_to!(*entries => entries@));
                        assert(decreases_to!(entries@ => entries@[k as int]));
                        assert(decreases_to!(entries@[k as int] => entries@[k as int].1));
                    }
                }
                let cv = canon_bencode(&entries[k].1);
                mid.push((key, cv));
                k += 1;
            }
            let ghost es = pair_views_of(entries@);
            let ghost midv = pair_views_of(mid@);
            proof {
                lemma_pair_views_of(mid@);
                assert(midv.len() == es.len());
                assert(forall|j: int|
                    0 <= j < es.len() ==> (#[trigger] midv[j]).0 == es[j].0 && m_canonical(
                        midv[j].1,
                    ) && canon_rel(es[j].1, midv[j].1));
                assert(unique_keys(midv));
            }
            let sorted = sort_entries(mid);
            let ghost ys = pair_views_of(sorted@);
            proof {
                lemma_pair_views_of(sorted@);
                lemma_unique_keys_multiset(midv, ys);
                ys.to_multiset_ensures();
                midv.to_multiset_ensures();
                assert forall|j: int| 0 <= j < ys.len() implies m_canonical(
                    (#[trigger] ys[j]).1,
                ) && ys[j].0.len() <= usize::MAX by {
                    assert(ys.contains(ys[j]));
                    assert(ys.to_multiset().count(ys[j]) > 0);
                    assert(midv.to_multiset().count(ys[j]) > 0);
                    assert(midv.contains(ys[j]));
                    let w = choose|w: int| 0 <= w < midv.len() && midv[w] == ys[j];
                    assert(m_canonical(midv[w].1));
                }
                assert(m_canonical(BenModel::Dict(ys)));
                assert(canon_rel(v@, BenModel::Dict(ys)));
            }
            Bencode::Dict(sorted)
        },
        Bencode::End => {
            proof {
                assert(false);
            }
            Bencode::End
        },
    }
}

/// Encodes a well-formed value into its canonical byte form: dictionary
/// entries sorted ascending by raw key bytes at every level, so equal
/// logical content always gives byte-identical output. On input that is
/// already canonical this is exactly `benc` of its model.
pub fn encode_bencode(v: &Bencode) -> (r: Vec<u8>)
    requires
        m_wf(v@),
    ensures
        exists|c: BenModel|
            m_canonical(c) && #[trigger] canon_rel(v@, c) && r@ == benc(c),
        m_canonical(v@) ==> r@ == benc(v@),
{
    let canon = canon_bencode(v);
    let mut out: Vec<u8> = Vec::new();
    encode_onto(&canon, &mut out);
    proof {
        assert(out@ =~= Seq::<u8>::empty() + benc(canon@));
        assert(m_canonical(canon@) && canon_rel(v@, canon@) && out@ == benc(canon@));
        if m_canonical(v@) {
            lemma_canon_of_canonical(v@, canon@);
        }
    }
    out
}


/// Checks well-formedness of a value: no `End` sentinel anywhere and no
/// duplicate dictionary keys, exactly `m_wf` of its model. Decoded trees
/// pass; a caller-built tree can be checked before encoding.
pub fn is_well_formed(v: &Bencode) -> (r: bool)
    ensures
        r == m_wf(v@),
    decreases v,
{
    match v {
        Bencode::Str(b) => {
            let n = b.len();
            proof {
                assert(b@.len() == n);
            }
            true
        },
        Bencode::Int(_) => true,
        Bencode::List(items) => {
            let mut k: usize = 0;
            while k < items.len()
                invariant
                    *v == Bencode::List(*items),
                    k <= items@.len(),
                    forall|j: int| 0 <= j < k ==> m_wf(bview(#[trigger] items@[j])),
                decreases items@.len() - k,
            {
                proof {
                    assert(decreases_to!(*v => items@[k as int])) by {
                        assert(v->List_0 == *items);
                        assert(decreases_to!(*v => v->List_0));
                        assert(decreases_to!(*items => items@));
                        assert(decreases_to!(items@ => items@[k as int]));
                    }
                }
                if !is_well_formed(&items[k]) {
                    proof {
                        assert(!m_wf(v@)) by {
                            if m_wf(v@) {
                                lemma_views_of(items@);
                                assert(v@->List_0 == views_of(items@));
                                assert(views_of(items@)[k as int] == bview(items@[k as int]));
                                assert(m_wf(v@->List_0[k as int]));
                            }
                        }
                    }
                    return false;
                }
                k += 1;
            }
            proof {
                lemma_views_of(items@);
                assert(m_wf(v@)) by {
                    assert(v@ == BenModel::List(views_of(items@)));
                    assert forall|i: int| 0 <= i < views_of(items@).len() implies m_wf(
                        #[trigger] views_of(items@)[i],
                    ) by {
                        assert(views_of(items@)[i] == bview(items@[i]));
                    }
                }
            }
            true
        },
        Bencode::Dict(entries) => {
            let mut k: usize = 0;
            while k < entries.len()
                invariant
                    *v == Bencode::Dict(*entries),
                    k <= entries@.len(),
                    forall|j: int| 0 <= j < k ==> m_wf(bview((#[trigger] entries@[j]).1)),
                    forall|j: int| 0 <= j < k ==> (#[trigger] entries@[j]).0@.len() <= usize::MAX,
                    forall|a: int, b: int|
                        0 <= a < b < k ==> (#[trigger] entries@[a]).0@ != (
                        #[trigger] entries@[b]).0@,
                decreases entries@.len() - k,
            {
                proof {
                    assert(decreases_to!(*v => entries@[k as int].1)) by {
                        assert(v->Dict_0 == *entries);
                        assert(decreases_to!(*v => v->Dict_0));
                        assert(decreases_to!(*entries => entries@));
                        assert(decreases_to!(entries@ => entries@[k as int]));
                        assert(decreases_to!(entries@[k as int] => entries@[k as int].1));
                    }
                }
                let klen = entries[k].0.len();
                proof {
                    assert(entries@[k as int].0@.len() == klen);
                }
                if !is_well_formed(&entries[k].1) {
                    proof {
                        assert(!m_wf(v@)) by {
                            if m_wf(v@) {
                                lemma_pair_views_of(entries@);
                                assert(v@->Dict_0 == pair_views_of(entries@));
                                assert(pair_views_of(entries@)[k as int] == (
                                    entries@[k as int].0@,
                                    bview(entries@[k as int].1),
                                ));
                                assert(m_wf(v@->Dict_0[k as int].1));
                            }
                        }
                    }
                    return false;
                }
                let mut t: usize = 0;
                while t < k
                    invariant
                        *v == Bencode::Dict(*entries),
                        t <= k < entries@.len(),
                        forall|a: int| 0 <= a < t ==> (#[trigger] entries@[a]).0@ != entries@[
                            k as int].0@,
                    decreases k - t,
                {
                    if bytes_eq(&entries[t].0, &entries[k].0) {
                        proof {
                            assert(!m_wf(v@)) by {
                                if m_wf(v@) {
                                    lemma_pair_views_of(entries@);
                                    assert(v@->Dict_0 == pair_views_of(entries@));
                                    assert(unique_keys(pair_views_of(entries@)));
                                    assert(pair_views_of(entries@)[t as int].0 == entries@[
                                        t as int].0@);
                                    assert(pair_views_of(entries@)[k as int].0 == entries@[
                                        k as int].0@);
                                }
                            }
                        }
                        return false;
                    }
                    t += 1;
                }
                k += 1;
            }
            proof {
                lemma_pair_views_of(entries@);
                assert(m_wf(v@)) by {
                    assert(v@ == BenModel::Dict(pair_views_of(entries@)));
                    let pv = pair_views_of(entries@);
                    assert forall|i: int| 0 <= i < pv.len() implies (#[trigger] pv[i]).0.len()
                        <= usize::MAX && m_wf(pv[i].1) by {
                        assert(pv[i] == (entries@[i].0@, bview(entries@[i].1)));
                    }
                    assert(unique_keys(pv)) by {
                        assert forall|a: int, b: int|
                            0 <= a < b < pv.len() implies (#[trigger] pv[a]).0 != (
                            #[trigger] pv[b]).0 by {
                            assert(pv[a] == (entries@[a].0@, bview(entries@[a].1)));
                            assert(pv[b] == (entries@[b].0@, bview(entries@[b].1)));
                        }
                    }
                }
            }
            true
        },
        Bencode::End => false,
    }
}

} // verus!
