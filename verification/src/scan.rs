//! Finding the line terminator in a byte sequence.

use vstd::prelude::*;

verus! {

/// Carriage return.
pub const CR: u8 = 13;

/// Line feed.
pub const LF: u8 = 10;

/// Whether the two-byte line terminator starts at index `i` of `s`.
pub open spec fn crlf_at(s: Seq<u8>, i: int) -> bool {
    0 <= i && i + 1 < s.len() && s[i] == CR && s[i + 1] == LF
}

/// Whether `s` holds no line terminator.
pub open spec fn no_crlf(s: Seq<u8>) -> bool {
    forall|j: int| !crlf_at(s, j)
}

/// Whether the first line terminator of `s` starts at index `i`.
pub open spec fn first_crlf_at(s: Seq<u8>, i: int) -> bool {
    crlf_at(s, i) && forall|j: int| 0 <= j < i ==> !crlf_at(s, j)
}

/// The index at which the first line terminator of `s` starts, if `s` holds
/// one.
pub open spec fn first_crlf(s: Seq<u8>) -> Option<int> {
    if no_crlf(s) {
        None
    } else {
        Some(choose|i: int| first_crlf_at(s, i))
    }
}

proof fn lemma_some_crlf_is_first(s: Seq<u8>, k: int)
    requires
        crlf_at(s, k),
    ensures
        exists|i: int| first_crlf_at(s, i),
    decreases k,
{
    if exists|j: int| 0 <= j < k && crlf_at(s, j) {
        let j = choose|j: int| 0 <= j < k && crlf_at(s, j);
        lemma_some_crlf_is_first(s, j);
    } else {
        assert(first_crlf_at(s, k));
    }
}

/// `first_crlf` gives the first terminator where there is one, and nothing
/// only where there is none.
pub proof fn lemma_first_crlf(s: Seq<u8>)
    ensures
        match first_crlf(s) {
            Some(i) => first_crlf_at(s, i) && 0 <= i && i + 2 <= s.len(),
            None => no_crlf(s),
        },
{
    if !no_crlf(s) {
        let k = choose|k: int| crlf_at(s, k);
        lemma_some_crlf_is_first(s, k);
    }
}

/// The first terminator is unique: an index that is one is what
/// `first_crlf` gives.
pub proof fn lemma_first_crlf_is(s: Seq<u8>, i: int)
    requires
        first_crlf_at(s, i),
    ensures
        first_crlf(s) == Some(i),
{
    lemma_first_crlf(s);
    let j = first_crlf(s).unwrap();
    if j < i {
        assert(!crlf_at(s, j));
    } else if i < j {
        assert(!crlf_at(s, i));
    }
}

/// The first terminator of a sequence is also that of every sequence that
/// extends it.
pub proof fn lemma_first_crlf_extends(s: Seq<u8>, t: Seq<u8>)
    requires
        first_crlf(s) is Some,
    ensures
        first_crlf(s + t) == first_crlf(s),
{
    lemma_first_crlf(s);
    let i = first_crlf(s).unwrap();
    assert(first_crlf_at(s + t, i)) by {
        assert((s + t)[i] == s[i]);
        assert((s + t)[i + 1] == s[i + 1]);
        assert forall|j: int| 0 <= j < i implies !crlf_at(s + t, j) by {
            assert(!crlf_at(s, j));
            assert((s + t)[j] == s[j]);
            assert((s + t)[j + 1] == s[j + 1]);
        }
    }
    lemma_first_crlf_is(s + t, i);
}

/// Finds the first line terminator in `data`.
pub fn find_crlf(data: &[u8]) -> (r: Option<usize>)
    ensures
        match r {
            Some(i) => first_crlf(data@) == Some(i as int),
            None => first_crlf(data@) is None,
        },
{
    let n = data.len();
    if n < 2 {
        return None;
    }
    let mut i: usize = 0;
    while i < n - 1
        invariant
            n == data@.len(),
            n >= 2,
            i <= n - 1,
            forall|j: int| 0 <= j < i ==> !crlf_at(data@, j),
        decreases n - i,
    {
        if data[i] == CR && data[i + 1] == LF {
            proof {
                lemma_first_crlf_is(data@, i as int);
            }
            return Some(i);
        }
        i = i + 1;
    }
    None
}

/// Finds the first occurrence of `byte` in `data`.
pub fn find_byte(data: &[u8], byte: u8) -> (r: Option<usize>)
    ensures
        match r {
            Some(i) => data@.index_of_first(byte) == Some(i as int),
            None => data@.index_of_first(byte) is None,
        },
{
    let n = data.len();
    let mut i: usize = 0;
    while i < n
        invariant
            n == data@.len(),
            i <= n,
            forall|j: int| 0 <= j < i ==> data@[j] != byte,
        decreases n - i,
    {
        if data[i] == byte {
            proof {
                data@.index_of_first_ensures(byte);
                assert(data@.contains(byte));
            }
            return Some(i);
        }
        i = i + 1;
    }
    proof {
        data@.index_of_first_ensures(byte);
    }
    None
}

} // verus!
