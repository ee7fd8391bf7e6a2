//! Literal substring containment and non-overlapping occurrence counting,
//! compared byte by byte on the UTF-8 encoding.
use vstd::prelude::*;
use vstd::utf8::*;
use vstd::string::*;

verus! {

broadcast use {encode_utf8_decode_utf8};

/// `q` occurs in `t` starting at byte `i`.
pub open spec fn occurs_at(t: Seq<u8>, q: Seq<u8>, i: int) -> bool {
    0 <= i && i + q.len() <= t.len() && t.subrange(i, i + q.len()) == q
}

/// `q` occurs somewhere in `t` (the empty sequence occurs in every `t`).
pub open spec fn contains(t: Seq<u8>, q: Seq<u8>) -> bool {
    exists|i: int| occurs_at(t, q, i)
}

/// The number of non-overlapping occurrences of a non-empty `q` in `t[i..]`,
/// found left to right, each search resuming after the previous match.
pub open spec fn count_from(t: Seq<u8>, q: Seq<u8>, i: int) -> nat
    decreases t.len() - i,
{
    if q.len() == 0 || i < 0 || i + q.len() > t.len() {
        0
    } else if occurs_at(t, q, i) {
        1 + count_from(t, q, i + q.len())
    } else {
        count_from(t, q, i + 1)
    }
}

/// The occurrences of `q` in `t`: the empty query occurs once before each
/// character and once at the end, so `t` of `n` characters counts `n + 1`.
pub open spec fn occurrences(t: Seq<u8>, q: Seq<u8>) -> nat {
    if q.len() == 0 {
        decode_utf8(t).len() + 1
    } else {
        count_from(t, q, 0)
    }
}

/// `n`, or `usize::MAX` where `n` is larger.
pub open spec fn capped(n: nat) -> nat {
    if n > usize::MAX {
        usize::MAX as nat
    } else {
        n
    }
}

fn occurs_at_exec(t: &[u8], q: &[u8], i: usize) -> (r: bool)
    requires
        i + q@.len() <= t@.len(),
    ensures
        r == occurs_at(t@, q@, i as int),
{
    let tn = t.len();
    let mut j: usize = 0;
    while j < q.len()
        invariant
            tn == t@.len(),
            i + q@.len() <= t@.len(),
            j <= q@.len(),
            forall|m: int| 0 <= m < j ==> t@[i + m] == q@[m],
        decreases q@.len() - j,
    {
        assert(i + j < t@.len());
        if t[i + j] != q[j] {
            assert(t@.subrange(i as int, i + q@.len())[j as int] != q@[j as int]);
            return false;
        }
        j = j + 1;
    }
    assert(t@.subrange(i as int, i + q@.len()) =~= q@);
    true
}

fn contains_bytes(t: &[u8], q: &[u8]) -> (r: bool)
    ensures
        r == contains(t@, q@),
{
    if q.len() > t.len() {
        return false;
    }
    let last = t.len() - q.len();
    let mut i: usize = 0;
    while i <= last
        invariant
            last + q@.len() == t@.len(),
            forall|j: int| 0 <= j < i ==> !occurs_at(t@, q@, j),
        decreases last + 1 - i,
    {
        if occurs_at_exec(t, q, i) {
            return true;
        }
        if i == last {
            return false;
        }
        i = i + 1;
    }
    false
}

/// Whether `query` occurs as a literal substring of `text`.
pub fn contains_text(text: &str, query: &str) -> (r: bool)
    ensures
        r == contains(text.spec_bytes(), query.spec_bytes()),
{
    contains_bytes(text.as_bytes(), query.as_bytes())
}

fn count_bytes(t: &[u8], q: &[u8]) -> (r: usize)
    requires
        q@.len() > 0,
    ensures
        r == count_from(t@, q@, 0),
{
    let mut c: usize = 0;
    let mut i: usize = 0;
    while i <= t.len() && q.len() <= t.len() - i
        invariant
            q@.len() > 0,
            i <= t@.len() + q@.len(),
            c <= i,
            c + count_from(t@, q@, i as int) == count_from(t@, q@, 0),
        decreases t@.len() + 1 - i,
    {
        if occurs_at_exec(t, q, i) {
            c = c + 1;
            i = i + q.len();
        } else {
            i = i + 1;
        }
    }
    c
}

/// The number of non-overlapping occurrences of `query` in `text`, found
/// left to right; for the empty query, one more than the characters of
/// `text`. Saturates at `usize::MAX`.
pub fn occurrence_count(text: &str, query: &str) -> (r: usize)
    ensures
        r == capped(occurrences(text.spec_bytes(), query.spec_bytes())),
{
    let q = query.as_bytes();
    if q.len() == 0 {
        text.unicode_len().saturating_add(1)
    } else {
        count_bytes(text.as_bytes(), q)
    }
}

} // verus!
