//! Bounds-safe sub-slice and search primitives shared by the bencode codec
//! and the tracker wire-format decoders.

use vstd::prelude::*;
use vstd::std_specs::cmp::PartialEqSpec;

verus! {

/// Clamps an index to the length of the thing it indexes into.
pub open spec fn clip(i: int, n: int) -> int {
    if i > n {
        n
    } else {
        i
    }
}

/// The characters of `string` starting at `start` (clamped to the end) and
/// running for at most `len` characters.
pub fn sub_str(string: &str, start: usize, len: usize) -> (r: String)
    ensures
        r@ == string@.subrange(
            clip(start as int, string@.len() as int),
            clip(start as int + len as int, string@.len() as int),
        ),
{
    let n = string.unicode_len();
    let from = if start > n {
        n
    } else {
        start
    };
    let rem = n - from;
    let take = if len > rem {
        rem
    } else {
        len
    };
    let piece = string.substring_char(from, from + take);
    piece.to_owned()
}

/// The elements of `vec` starting at `start` (clamped to the end) and
/// running for at most `len` elements.
pub fn sub_arr<T>(vec: Vec<T>, start: usize, len: usize) -> (r: Vec<T>)
    ensures
        r@ == vec@.subrange(
            clip(start as int, vec@.len() as int),
            clip(start as int + len as int, vec@.len() as int),
        ),
{
    let ghost orig = vec@;
    let n = vec.len();
    let from = if start > n {
        n
    } else {
        start
    };
    let rem = n - from;
    let take = if len > rem {
        rem
    } else {
        len
    };
    let mut head = vec;
    let mut tail = head.split_off(from);
    tail.truncate(take);
    proof {
        assert(tail@ =~= orig.subrange(
            clip(start as int, orig.len() as int),
            clip(start as int + len as int, orig.len() as int),
        ));
    }
    tail
}

/// The index of the first element of `vec` equal to `item`, or `Err` if
/// there is none.
pub fn vec_index_of<T: PartialEq>(vec: &Vec<T>, item: T) -> (r: Result<usize, ()>)
    ensures
        T::obeys_eq_spec() ==> match r {
            Ok(i) => 0 <= i < vec@.len() && vec@[i as int].eq_spec(&item) && forall|j: int|
                0 <= j < i ==> !(#[trigger] vec@[j].eq_spec(&item)),
            Err(_) => forall|j: int| 0 <= j < vec@.len() ==> !(#[trigger] vec@[j].eq_spec(&item)),
        },
{
    let mut i: usize = 0;
    while i < vec.len()
        invariant
            i <= vec@.len(),
            T::obeys_eq_spec() ==> forall|j: int|
                0 <= j < i ==> !(#[trigger] vec@[j].eq_spec(&item)),
        decreases vec@.len() - i,
    {
        if vec[i] == item {
            return Ok(i);
        }
        i += 1;
    }
    Err(())
}

} // verus!
