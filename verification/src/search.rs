//! Accelerated marker-byte search, and its connection to the model's
//! `find_from`.

use vstd::prelude::*;
use vstd::slice::slice_subrange;
use crate::model::{find_from, lemma_find_from_unique};

verus! {

/// Relies on memchr::memchr: it returns the index of the first occurrence
/// of `needle` in `haystack`, or `None` if the byte does not occur; a
/// returned index is less than `haystack.len()`.
pub assume_specification [ memchr::memchr ] (needle: u8, haystack: &[u8]) -> (r: Option<
    usize,
>)
    ensures
        match r {
            Some(i) => i < haystack@.len() && haystack@[i as int] == needle && forall|j: int|
                0 <= j < i ==> haystack@[j] != needle,
            None => forall|j: int| 0 <= j < haystack@.len() ==> haystack@[j] != needle,
        },
;

/// What a first-occurrence search over the suffix of `s` that starts at
/// `from` says about `find_from` on the whole of `s`.
pub proof fn lemma_find_in_suffix(s: Seq<u8>, b: u8, from: int, r: Option<usize>)
    requires
        0 <= from <= s.len(),
        match r {
            Some(i) => from + i < s.len() && s[from + i] == b && forall|j: int|
                from <= j < from + i ==> s[j] != b,
            None => forall|j: int| from <= j < s.len() ==> s[j] != b,
        },
    ensures
        find_from(s, b, from) == match r {
            Some(i) => from + i,
            None => s.len() as int,
        },
{
    match r {
        Some(i) => lemma_find_from_unique(s, b, from, from + i),
        None => lemma_find_from_unique(s, b, from, s.len() as int),
    }
}

/// The position of the first occurrence of `b` in `data` at or after
/// `from`, or `data.len()` if there is none: `find_from`, exactly.
pub fn find_byte_from(data: &[u8], b: u8, from: usize) -> (r: usize)
    requires
        from <= data@.len(),
    ensures
        r == find_from(data@, b, from as int),
        from <= r <= data@.len(),
{
    let tail = slice_subrange(data, from, data.len());
    let found = memchr::memchr(b, tail);
    proof {
        match found {
            Some(i) => {
                assert forall|j: int| from <= j < from + i implies data@[j] != b by {
                    assert(tail@[j - from] == data@[j]);
                }
                assert(data@[from + i] == tail@[i as int]);
            },
            None => {
                assert forall|j: int| from <= j < data@.len() implies data@[j] != b by {
                    assert(tail@[j - from] == data@[j]);
                }
            },
        }
        lemma_find_in_suffix(data@, b, from as int, found);
    }
    match found {
        Some(i) => from + i,
        None => data.len(),
    }
}

} // verus!
