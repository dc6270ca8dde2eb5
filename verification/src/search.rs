//! Searching a byte string, by `memchr`.

use vstd::prelude::*;

verus! {

/// `needle` stands in `hay` at index `i`.
pub open spec fn occurs_at(hay: Seq<u8>, needle: Seq<u8>, i: int) -> bool {
    0 <= i && i + needle.len() <= hay.len() && hay.subrange(i, i + needle.len()) == needle
}

/// `found` is the index of the first occurrence of `needle` in `hay`, or `None`
/// where there is none.
pub open spec fn is_first(hay: Seq<u8>, needle: Seq<u8>, found: Option<usize>) -> bool {
    match found {
        Some(i) => occurs_at(hay, needle, i as int) && forall|j: int|
            0 <= j < i ==> !occurs_at(hay, needle, j),
        None => forall|j: int| !occurs_at(hay, needle, j),
    }
}

/// `found` is the index of the last occurrence of `needle` in `hay`, or `None`
/// where there is none.
pub open spec fn is_last(hay: Seq<u8>, needle: Seq<u8>, found: Option<usize>) -> bool {
    match found {
        Some(i) => occurs_at(hay, needle, i as int) && forall|j: int|
            i < j ==> !occurs_at(hay, needle, j),
        None => forall|j: int| !occurs_at(hay, needle, j),
    }
}

/// `memchr::memmem::find` returns the index of the first occurrence of the
/// needle in the haystack.
pub assume_specification[ memchr::memmem::find ](haystack: &[u8], needle: &[u8]) -> (found: Option<
    usize,
>)
    ensures
        is_first(haystack@, needle@, found),
;

/// `memchr::memmem::rfind` returns the index of the last occurrence of the
/// needle in the haystack.
pub assume_specification[ memchr::memmem::rfind ](haystack: &[u8], needle: &[u8]) -> (found:
    Option<usize>)
    ensures
        is_last(haystack@, needle@, found),
;

/// `memchr::memchr` returns the index of the first occurrence of a byte in the
/// haystack.
pub assume_specification[ memchr::memchr ](needle: u8, haystack: &[u8]) -> (found: Option<usize>)
    ensures
        is_first(haystack@, seq![needle], found),
;

/// The index of the first occurrence of `needle` in `hay` at or after `from`.
pub open spec fn first_from(hay: Seq<u8>, needle: Seq<u8>, from: int) -> Option<int>
    decreases hay.len() - from + 1,
{
    if from < 0 || from + needle.len() > hay.len() {
        None
    } else if occurs_at(hay, needle, from) {
        Some(from)
    } else {
        first_from(hay, needle, from + 1)
    }
}

/// The index of the first occurrence of `needle` in `hay`.
pub open spec fn first_index(hay: Seq<u8>, needle: Seq<u8>) -> Option<int> {
    first_from(hay, needle, 0)
}

/// `first_from` finds an occurrence, and passes over none.
pub proof fn lemma_first_from(hay: Seq<u8>, needle: Seq<u8>, from: int)
    requires
        0 <= from,
    ensures
        match first_from(hay, needle, from) {
            Some(i) => from <= i && occurs_at(hay, needle, i) && forall|j: int|
                from <= j < i ==> !occurs_at(hay, needle, j),
            None => forall|j: int| from <= j ==> !occurs_at(hay, needle, j),
        },
    decreases hay.len() - from + 1,
{
    if from + needle.len() <= hay.len() && !occurs_at(hay, needle, from) {
        lemma_first_from(hay, needle, from + 1);
    }
}

/// There is one first occurrence at most: an answer that fits is the answer.
pub proof fn lemma_first_index(hay: Seq<u8>, needle: Seq<u8>, found: Option<usize>)
    requires
        is_first(hay, needle, found),
    ensures
        first_index(hay, needle) == match found {
            Some(i) => Some(i as int),
            None => None,
        },
{
    lemma_first_from(hay, needle, 0);
}

/// An occurrence with none before it is the first.
pub proof fn lemma_first_index_is(hay: Seq<u8>, needle: Seq<u8>, i: int)
    requires
        occurs_at(hay, needle, i),
        forall|j: int| 0 <= j < i ==> !occurs_at(hay, needle, j),
    ensures
        first_index(hay, needle) == Some(i),
{
    lemma_first_from(hay, needle, 0);
}

/// Where the needle occurs nowhere, there is no first occurrence.
pub proof fn lemma_first_index_none(hay: Seq<u8>, needle: Seq<u8>)
    requires
        forall|j: int| 0 <= j ==> !occurs_at(hay, needle, j),
    ensures
        first_index(hay, needle) is None,
{
    lemma_first_from(hay, needle, 0);
}

/// A needle occurs only where its first byte stands.
pub proof fn lemma_occurrence_starts_with(hay: Seq<u8>, needle: Seq<u8>, j: int)
    requires
        needle.len() > 0,
        occurs_at(hay, needle, j),
    ensures
        0 <= j < hay.len(),
        hay[j] == needle[0],
{
    assert(hay.subrange(j, j + needle.len())[0] == needle[0]);
}

} // verus!
