//! Byte patterns and where they occur.

use vstd::prelude::*;

verus! {

pub const CR: u8 = 13;

pub const LF: u8 = 10;

pub const DASH: u8 = 45;

pub const SEMICOLON: u8 = 59;

/// The line terminator.
pub open spec fn crlf() -> Seq<u8> {
    seq![CR, LF]
}

/// The blank line that ends a header block.
pub open spec fn crlf_crlf() -> Seq<u8> {
    seq![CR, LF, CR, LF]
}

/// Two dashes.
pub open spec fn dashes() -> Seq<u8> {
    seq![DASH, DASH]
}

/// `needle`, which is not empty, stands in `haystack` at `i`.
pub open spec fn occurs_at(haystack: Seq<u8>, needle: Seq<u8>, i: int) -> bool {
    &&& needle.len() > 0
    &&& 0 <= i
    &&& i + needle.len() <= haystack.len()
    &&& haystack.subrange(i, i + needle.len()) == needle
}

/// `i` is the first place where `needle` stands in `haystack`.
pub open spec fn first_at(haystack: Seq<u8>, needle: Seq<u8>, i: int) -> bool {
    &&& occurs_at(haystack, needle, i)
    &&& forall|j: int| 0 <= j < i ==> !occurs_at(haystack, needle, j)
}

/// The first place where `needle` stands in `haystack`, if there is one.
#[verifier::opaque]
pub open spec fn find(haystack: Seq<u8>, needle: Seq<u8>) -> Option<int> {
    if exists|i: int| occurs_at(haystack, needle, i) {
        Some(choose|i: int| first_at(haystack, needle, i))
    } else {
        None
    }
}

proof fn lemma_first_exists(haystack: Seq<u8>, needle: Seq<u8>, i: int)
    requires
        occurs_at(haystack, needle, i),
    ensures
        exists|j: int| first_at(haystack, needle, j),
    decreases i,
{
    if exists|j: int| 0 <= j < i && occurs_at(haystack, needle, j) {
        let j = choose|j: int| 0 <= j < i && occurs_at(haystack, needle, j);
        lemma_first_exists(haystack, needle, j);
    } else {
        assert(first_at(haystack, needle, i));
    }
}

/// What `find` answers is a first occurrence, and it answers whenever there is one.
pub proof fn lemma_find(haystack: Seq<u8>, needle: Seq<u8>)
    ensures
        match find(haystack, needle) {
            Some(i) => first_at(haystack, needle, i),
            None => forall|i: int| !occurs_at(haystack, needle, i),
        },
{
    reveal(find);
    if exists|i: int| occurs_at(haystack, needle, i) {
        let i = choose|i: int| occurs_at(haystack, needle, i);
        lemma_first_exists(haystack, needle, i);
    }
}

/// There is only one first occurrence.
pub proof fn lemma_find_is(haystack: Seq<u8>, needle: Seq<u8>, i: int)
    requires
        first_at(haystack, needle, i),
    ensures
        find(haystack, needle) == Some(i),
{
    lemma_find(haystack, needle);
    let j = find(haystack, needle)->0;
    if j < i {
        assert(!occurs_at(haystack, needle, j));
    } else if i < j {
        assert(!occurs_at(haystack, needle, i));
    }
}

/// Whether a pattern stands within a prefix does not depend on what follows it.
pub proof fn lemma_occurs_in_prefix(head: Seq<u8>, tail: Seq<u8>, needle: Seq<u8>, i: int)
    requires
        i + needle.len() <= head.len(),
    ensures
        occurs_at(head + tail, needle, i) == occurs_at(head, needle, i),
{
    if 0 <= i {
        assert((head + tail).subrange(i, i + needle.len()) =~= head.subrange(
            i,
            i + needle.len(),
        ));
    }
}

/// Bytes that arrive later do not move the first occurrence.
pub proof fn lemma_find_extends(head: Seq<u8>, tail: Seq<u8>, needle: Seq<u8>)
    requires
        find(head, needle) is Some,
    ensures
        find(head + tail, needle) == find(head, needle),
{
    lemma_find(head, needle);
    let i = find(head, needle)->0;
    lemma_occurs_in_prefix(head, tail, needle, i);
    assert forall|j: int| 0 <= j < i implies !occurs_at(head + tail, needle, j) by {
        lemma_occurs_in_prefix(head, tail, needle, j);
    }
    lemma_find_is(head + tail, needle, i);
}

/// Dropping bytes in front in which the pattern cannot start moves the first
/// occurrence by as many places, and changes nothing else.
pub proof fn lemma_find_skips(haystack: Seq<u8>, needle: Seq<u8>, n: int)
    requires
        0 <= n <= haystack.len(),
        forall|j: int| 0 <= j < n ==> !occurs_at(haystack, needle, j),
    ensures
        find(haystack.skip(n), needle) == match find(haystack, needle) {
            Some(i) => Some(i - n),
            None => None,
        },
        find(haystack, needle) matches Some(i) ==> n <= i,
{
    lemma_find(haystack, needle);
    lemma_find(haystack.skip(n), needle);
    assert forall|j: int| 0 <= j implies #[trigger] occurs_at(haystack.skip(n), needle, j)
        == occurs_at(haystack, needle, n + j) by {
        if j + needle.len() <= haystack.skip(n).len() {
            assert(haystack.skip(n).subrange(j, j + needle.len()) =~= haystack.subrange(
                n + j,
                n + j + needle.len(),
            ));
        }
    }
    match find(haystack, needle) {
        Some(i) => {
            assert(n <= i);
            assert(occurs_at(haystack.skip(n), needle, i - n));
            assert forall|j: int| 0 <= j < i - n implies !occurs_at(
                haystack.skip(n),
                needle,
                j,
            ) by {
                assert(!occurs_at(haystack, needle, n + j));
            }
            lemma_find_is(haystack.skip(n), needle, i - n);
        },
        None => {
            match find(haystack.skip(n), needle) {
                Some(j) => {
                    assert(occurs_at(haystack, needle, n + j));
                },
                None => {},
            }
        },
    }
}

/// `pattern` stands in `buf` at `at`.
pub fn matches_at(buf: &[u8], at: usize, pattern: &[u8]) -> (found: bool)
    requires
        at + pattern@.len() <= buf@.len(),
    ensures
        found == (buf@.subrange(at as int, at + pattern@.len()) == pattern@),
{
    let mut i: usize = 0;
    while i < pattern.len()
        invariant
            i <= pattern@.len(),
            at + pattern@.len() <= buf.len(),
            forall|k: int| 0 <= k < i ==> buf@[at + k] == pattern@[k],
        decreases pattern@.len() - i,
    {
        if buf[at + i] != pattern[i] {
            assert(buf@.subrange(at as int, at + pattern@.len())[i as int] != pattern@[i as int]);
            return false;
        }
        i += 1;
    }
    assert(buf@.subrange(at as int, at + pattern@.len()) =~= pattern@);
    true
}

/// Finds the first occurrence of `needle` in `haystack`. An empty `needle`
/// occurs nowhere.
pub fn find_subsequence(haystack: &[u8], needle: &[u8]) -> (at: Option<usize>)
    ensures
        match at {
            Some(i) => find(haystack@, needle@) == Some(i as int),
            None => find(haystack@, needle@) is None,
        },
        at matches Some(i) ==> occurs_at(haystack@, needle@, i as int),
{
    proof {
        lemma_find(haystack@, needle@);
    }
    if needle.len() == 0 || needle.len() > haystack.len() {
        return None;
    }
    let last: usize = haystack.len() - needle.len();
    let mut i: usize = 0;
    while i <= last
        invariant
            0 < needle@.len() <= haystack@.len(),
            last == haystack.len() - needle@.len(),
            i <= last + 1,
            forall|j: int| 0 <= j < i ==> !occurs_at(haystack@, needle@, j),
        decreases last + 1 - i,
    {
        if matches_at(haystack, i, needle) {
            proof {
                lemma_find_is(haystack@, needle@, i as int);
            }
            return Some(i);
        }
        i += 1;
    }
    None
}

/// Removes the first `n` bytes of `buf`.
pub fn drain_front(buf: &mut Vec<u8>, n: usize)
    requires
        n <= old(buf)@.len(),
    ensures
        final(buf)@ == old(buf)@.skip(n as int),
{
    let rest = buf.split_off(n);
    *buf = rest;
}

/// Appends the bytes of `more` to `buf`.
pub fn append_bytes(buf: &mut Vec<u8>, more: &[u8])
    ensures
        final(buf)@ == old(buf)@ + more@,
{
    buf.extend_from_slice(more);
    assert(buf@ =~= old(buf)@ + more@);
}

/// `buf` begins with `pattern`.
pub fn starts_with(buf: &[u8], pattern: &[u8]) -> (found: bool)
    ensures
        found == pattern@.is_prefix_of(buf@),
{
    pattern.len() <= buf.len() && matches_at(buf, 0, pattern)
}

} // verus!
