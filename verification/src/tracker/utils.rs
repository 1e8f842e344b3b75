//! Conversions between byte runs and integers, and tracker URL splitting.

use vstd::prelude::*;
use vstd::string::StrSliceExecFns;

verus! {

/// The big-endian value of a byte run.
pub open spec fn be_val(s: Seq<u8>) -> int
    decreases s.len(),
{
    if s.len() == 0 {
        0
    } else {
        be_val(s.drop_last()) * 256 + s.last()
    }
}

/// 256 to the `n`.
pub open spec fn pow256(n: nat) -> int
    decreases n,
{
    if n == 0 {
        1
    } else {
        256 * pow256((n - 1) as nat)
    }
}

/// A byte run of length `n` holds a value below `pow256(n)`.
pub proof fn lemma_be_val_bound(s: Seq<u8>)
    ensures
        0 <= be_val(s) < pow256(s.len()),
    decreases s.len(),
{
    if s.len() > 0 {
        lemma_be_val_bound(s.drop_last());
        let head = be_val(s.drop_last());
        assert(head * 256 <= (pow256((s.len() - 1) as nat) - 1) * 256) by (nonlinear_arith)
            requires
                head <= pow256((s.len() - 1) as nat) - 1,
        ;
        assert(head * 256 >= 0) by (nonlinear_arith)
            requires
                head >= 0,
        ;
    }
}

/// `pow256` grows with its argument.
pub proof fn lemma_pow256_mono(a: nat, b: nat)
    requires
        a <= b,
    ensures
        pow256(a) <= pow256(b),
    decreases b,
{
    if a < b {
        lemma_pow256_mono(a, (b - 1) as nat);
        lemma_pow256_pos((b - 1) as nat);
    }
}

/// `pow256` is positive.
pub proof fn lemma_pow256_pos(n: nat)
    ensures
        pow256(n) >= 1,
    decreases n,
{
    if n > 0 {
        lemma_pow256_pos((n - 1) as nat);
    }
}

/// The big-endian value of up to fifteen bytes, most significant first.
pub fn bytes_to_int(bytes: &[u8]) -> (r: i128)
    requires
        bytes@.len() <= 15,
    ensures
        r == be_val(bytes@),
{
    let mut num: i128 = 0;
    let mut i: usize = 0;
    proof {
        assert(bytes@.take(0) =~= Seq::<u8>::empty());
        lemma_pow256_pos(0);
    }
    while i < bytes.len()
        invariant
            bytes@.len() <= 15,
            i <= bytes@.len(),
            num == be_val(bytes@.take(i as int)),
            0 <= num < pow256(i as nat),
        decreases bytes@.len() - i,
    {
        proof {
            assert(bytes@.take(i + 1).drop_last() =~= bytes@.take(i as int));
            assert(bytes@.take(i + 1).last() == bytes@[i as int]);
            lemma_pow256_mono((i + 1) as nat, 15);
            assert(pow256(15) == 0x1000000000000000000000000000000) by {
                reveal_with_fuel(pow256, 16);
            }
            let head = num as int;
            assert(head * 256 <= (pow256(i as nat) - 1) * 256) by (nonlinear_arith)
                requires
                    head <= pow256(i as nat) - 1,
            ;
            assert(head * 256 >= 0) by (nonlinear_arith)
                requires
                    head >= 0,
            ;
        }
        num = num * 256 + (bytes[i] as i128);
        i += 1;
    }
    proof {
        assert(bytes@.take(bytes@.len() as int) =~= bytes@);
    }
    num
}

/// The little-endian bytes of a non-negative value, low byte first,
/// truncated or zero-padded to exactly `size` bytes.
pub open spec fn le_bytes(n: int, size: nat) -> Seq<u8>
    decreases size,
{
    if size == 0 {
        Seq::empty()
    } else {
        seq![(n % 256) as u8] + le_bytes(n / 256, (size - 1) as nat)
    }
}

/// The little-endian bytes of a non-negative value, exactly `le_bytes`.
pub fn int_to_bytes(value: i128, size: usize) -> (r: Vec<u8>)
    requires
        value >= 0,
    ensures
        r@ == le_bytes(value as int, size as nat),
        r@.len() == size,
    decreases size,
{
    if size == 0 {
        let r: Vec<u8> = Vec::new();
        proof {
            assert(r@ =~= le_bytes(value as int, 0));
        }
        r
    } else {
        let b = (value % 0x100) as u8;
        let mut rest = int_to_bytes(value / 0x100, size - 1);
        rest.insert(0, b);
        proof {
            assert(rest@ =~= seq![b] + le_bytes(value as int / 256, (size - 1) as nat));
        }
        rest
    }
}

// ---------------------------------------------------------------------------
// URL splitting
// ---------------------------------------------------------------------------

/// The index of the first occurrence of `c` in `s`, if any.
pub open spec fn find_char(s: Seq<char>, c: char) -> Option<int>
    decreases s.len(),
{
    if s.len() == 0 {
        None
    } else if s[0] == c {
        Some(0)
    } else {
        match find_char(s.skip(1), c) {
            Some(i) => Some(i + 1),
            None => None,
        }
    }
}

/// Anything satisfying the first-occurrence characterisation is what
/// `find_char` returns.
pub proof fn lemma_find_char_of(t: Seq<char>, c: char, r: Option<int>)
    requires
        match r {
            Some(i) => 0 <= i < t.len() && t[i] == c && forall|j: int| 0 <= j < i ==> t[j] != c,
            None => forall|j: int| 0 <= j < t.len() ==> t[j] != c,
        },
    ensures
        find_char(t, c) == r,
    decreases t.len(),
{
    if t.len() == 0 {
    } else if t[0] == c {
        match r {
            Some(i) => {
                if i > 0 {
                    assert(t[0] != c);
                }
            },
            None => {
                assert(t[0] != c);
            },
        }
    } else {
        let rr = match r {
            Some(i) => Some(i - 1),
            None => None,
        };
        assert forall|j: int| 0 <= j < t.skip(1).len() implies t.skip(1)[j] == t[j + 1] by {}
        lemma_find_char_of(t.skip(1), c, rr);
    }
}

/// Clamps an index to a length.
pub open spec fn cclip(i: int, n: int) -> int {
    if i > n {
        n
    } else {
        i
    }
}

/// The scheme: everything before the first `:`, or the whole string when
/// there is none.
pub open spec fn url_scheme(s: Seq<char>) -> Seq<char> {
    match find_char(s, ':') {
        None => s,
        Some(i) => s.take(i),
    }
}

/// What follows the scheme separator `://` (three characters skipped).
pub open spec fn url_tail(s: Seq<char>) -> Seq<char> {
    match find_char(s, ':') {
        None => Seq::empty(),
        Some(i) => s.skip(cclip(i + 3, s.len() as int)),
    }
}

/// The host (with any port): the tail up to the first `/`.
pub open spec fn url_host(s: Seq<char>) -> Seq<char> {
    match find_char(url_tail(s), '/') {
        None => url_tail(s),
        Some(j) => url_tail(s).take(j),
    }
}

/// The path fragment after the first `/` of the tail; empty when there is
/// no `/`.
pub open spec fn url_path(s: Seq<char>) -> Seq<char> {
    match find_char(url_tail(s), '/') {
        None => Seq::empty(),
        Some(j) => url_tail(s).skip(j + 1),
    }
}

/// First occurrence of `c` in `s` at or after `at`.
fn find_char_at(s: &str, at: usize, c: char) -> (r: Option<usize>)
    requires
        at <= s@.len(),
    ensures
        match r {
            Some(j) => at <= j < s@.len() && s@[j as int] == c && (forall|t: int|
                at <= t < j ==> s@[t] != c),
            None => forall|t: int| at <= t < s@.len() ==> s@[t] != c,
        },
{
    let n = s.unicode_len();
    let mut j = at;
    while j < n
        invariant
            n == s@.len(),
            at <= j <= n,
            forall|t: int| at <= t < j ==> s@[t] != c,
        decreases n - j,
    {
        if s.get_char(j) == c {
            return Some(j);
        }
        j += 1;
    }
    None
}

/// Splits `scheme://host:port/path` into scheme, host (with port), and
/// path, tolerating missing parts: no `:` leaves everything in the
/// scheme; no `/` after the separator leaves the path empty.
pub fn parse_url(url: &str) -> (r: (String, String, String))
    ensures
        r.0@ == url_scheme(url@),
        r.1@ == url_host(url@),
        r.2@ == url_path(url@),
{
    let n = url.unicode_len();
    match find_char_at(url, 0, ':') {
        None => {
            proof {
                lemma_find_char_of(url@, ':', None);
            }
            (url.to_owned(), String::new(), String::new())
        },
        Some(i) => {
            proof {
                lemma_find_char_of(url@, ':', Some(i as int));
            }
            let scheme = url.substring_char(0, i).to_owned();
            let tstart = if n - i <= 3 {
                n
            } else {
                i + 3
            };
            let ghost tail = url@.skip(tstart as int);
            proof {
                assert(tail =~= url_tail(url@));
            }
            match find_char_at(url, tstart, '/') {
                None => {
                    proof {
                        assert forall|t: int| 0 <= t < tail.len() implies tail[t] != '/' by {
                            assert(tail[t] == url@[tstart + t]);
                        }
                        lemma_find_char_of(tail, '/', None);
                    }
                    let host = url.substring_char(tstart, n).to_owned();
                    (scheme, host, String::new())
                },
                Some(j) => {
                    proof {
                        assert(tail[j - tstart] == url@[j as int]);
                        assert forall|t: int| 0 <= t < j - tstart implies tail[t] != '/' by {
                            assert(tail[t] == url@[tstart + t]);
                        }
                        lemma_find_char_of(tail, '/', Some(j - tstart));
                    }
                    let host = url.substring_char(tstart, j).to_owned();
                    let path = url.substring_char(j + 1, n).to_owned();
                    proof {
                        assert(host@ =~= url_host(url@));
                        assert(path@ =~= url_path(url@));
                    }
                    (scheme, host, path)
                },
            }
        },
    }
}

} // verus!
