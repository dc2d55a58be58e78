//! Byte and substring search, relied on from the `memchr` crate.
//!
//! Every search the scanner performs goes through one of the wrappers
//! below; their contracts state exactly which index is returned.

use vstd::prelude::*;

verus! {

/// True when `needle` occurs in `hay` starting at index `i`.
pub open spec fn matches_at(hay: Seq<u8>, needle: Seq<u8>, i: int) -> bool {
    0 <= i && i + needle.len() <= hay.len() && hay.subrange(i, i + needle.len() as int) == needle
}

/// First index at or after `i` where `needle` occurs in `s`, or
/// `s.len()` if it occurs nowhere at or after `i`.
pub open spec fn match_pos_from(s: Seq<u8>, needle: Seq<u8>, i: int) -> int
    decreases s.len() - i,
{
    if i < 0 || i >= s.len() {
        s.len() as int
    } else if matches_at(s, needle, i) {
        i
    } else {
        match_pos_from(s, needle, i + 1)
    }
}

/// A least occurrence pins `match_pos_from` down.
pub proof fn lemma_match_pos_found(s: Seq<u8>, needle: Seq<u8>, q: int, i: int)
    requires
        0 <= q <= i,
        matches_at(s, needle, i),
        needle.len() >= 1,
        forall|j: int| q <= j < i ==> !matches_at(s, needle, j),
    ensures
        match_pos_from(s, needle, q) == i,
    decreases i - q,
{
    if q < i {
        lemma_match_pos_found(s, needle, q + 1, i);
    }
}

/// No occurrence anywhere leaves `match_pos_from` at the end.
pub proof fn lemma_match_pos_none(s: Seq<u8>, needle: Seq<u8>, q: int)
    requires
        0 <= q,
        forall|j: int| q <= j ==> !matches_at(s, needle, j),
    ensures
        match_pos_from(s, needle, q) == s.len(),
    decreases s.len() - q,
{
    if q < s.len() {
        lemma_match_pos_none(s, needle, q + 1);
    }
}

/// First index at or after `i` holding the byte `b`, or `s.len()`.
pub open spec fn byte_pos_from(s: Seq<u8>, b: u8, i: int) -> int
    decreases s.len() - i,
{
    if i < 0 || i >= s.len() {
        s.len() as int
    } else if s[i] == b {
        i
    } else {
        byte_pos_from(s, b, i + 1)
    }
}

pub proof fn lemma_byte_pos_found(s: Seq<u8>, b: u8, q: int, i: int)
    requires
        0 <= q <= i < s.len(),
        s[i] == b,
        forall|j: int| q <= j < i ==> s[j] != b,
    ensures
        byte_pos_from(s, b, q) == i,
    decreases i - q,
{
    if q < i {
        lemma_byte_pos_found(s, b, q + 1, i);
    }
}

pub proof fn lemma_byte_pos_none(s: Seq<u8>, b: u8, q: int)
    requires
        0 <= q,
        forall|j: int| q <= j < s.len() ==> s[j] != b,
    ensures
        byte_pos_from(s, b, q) == s.len(),
    decreases s.len() - q,
{
    if q < s.len() {
        lemma_byte_pos_none(s, b, q + 1);
    }
}

/// Relies on memchr::memchr: index of the first occurrence of `b` in `hay`.
#[verifier::external_body]
pub fn find_byte(b: u8, hay: &[u8]) -> (r: Option<usize>)
    ensures
        match r {
            Some(i) => i < hay@.len() && hay@[i as int] == b && forall|j: int|
                0 <= j < i ==> hay@[j] != b,
            None => forall|j: int| 0 <= j < hay@.len() ==> hay@[j] != b,
        },
{
    memchr::memchr(b, hay)
}

/// Relies on memchr::memchr2: index of the first occurrence of `b1` or `b2`
/// in `hay`.
#[verifier::external_body]
pub fn find_byte2(b1: u8, b2: u8, hay: &[u8]) -> (r: Option<usize>)
    ensures
        match r {
            Some(i) => i < hay@.len() && (hay@[i as int] == b1 || hay@[i as int] == b2)
                && forall|j: int| 0 <= j < i ==> hay@[j] != b1 && hay@[j] != b2,
            None => forall|j: int| 0 <= j < hay@.len() ==> hay@[j] != b1 && hay@[j] != b2,
        },
{
    memchr::memchr2(b1, b2, hay)
}

/// Relies on memchr::memrchr: index of the last occurrence of `b` in `hay`.
#[verifier::external_body]
pub fn rfind_byte(b: u8, hay: &[u8]) -> (r: Option<usize>)
    ensures
        match r {
            Some(i) => i < hay@.len() && hay@[i as int] == b && forall|j: int|
                i < j < hay@.len() ==> hay@[j] != b,
            None => forall|j: int| 0 <= j < hay@.len() ==> hay@[j] != b,
        },
{
    memchr::memrchr(b, hay)
}

/// Relies on memchr::memrchr2: index of the last occurrence of `b1` or `b2`
/// in `hay`.
#[verifier::external_body]
pub fn rfind_byte2(b1: u8, b2: u8, hay: &[u8]) -> (r: Option<usize>)
    ensures
        match r {
            Some(i) => i < hay@.len() && (hay@[i as int] == b1 || hay@[i as int] == b2)
                && forall|j: int| i < j < hay@.len() ==> hay@[j] != b1 && hay@[j] != b2,
            None => forall|j: int| 0 <= j < hay@.len() ==> hay@[j] != b1 && hay@[j] != b2,
        },
{
    memchr::memrchr2(b1, b2, hay)
}

/// Relies on memchr::memmem::find: index of the first occurrence of
/// `needle` in `hay`.
#[verifier::external_body]
pub fn find_subslice(hay: &[u8], needle: &[u8]) -> (r: Option<usize>)
    requires
        needle@.len() >= 1,
    ensures
        match r {
            Some(i) => matches_at(hay@, needle@, i as int) && forall|j: int|
                0 <= j < i ==> !matches_at(hay@, needle@, j),
            None => forall|j: int| !matches_at(hay@, needle@, j),
        },
{
    memchr::memmem::find(hay, needle)
}

/// Relies on memchr::memmem::rfind: index of the last occurrence of
/// `needle` in `hay`.
#[verifier::external_body]
pub fn rfind_subslice(hay: &[u8], needle: &[u8]) -> (r: Option<usize>)
    requires
        needle@.len() >= 1,
    ensures
        match r {
            Some(i) => matches_at(hay@, needle@, i as int) && forall|j: int|
                j > i ==> !matches_at(hay@, needle@, j),
            None => forall|j: int| !matches_at(hay@, needle@, j),
        },
{
    memchr::memmem::rfind(hay, needle)
}

} // verus!
