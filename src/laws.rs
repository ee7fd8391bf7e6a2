//! Properties that relate the scans to one another.
use vstd::prelude::*;
use vstd::string::*;
use vstd::utf8::*;
use crate::fold::ascii_lower_char;
use crate::lines::{lines_from, text_lines, trim_cr};
use crate::matching::{contains, occurs_at};
use crate::search::{picked, reported, tally};

verus! {

/// A line is among the first `n` picked exactly when it is one of them and
/// its key is reported.
pub proof fn lemma_picked_members(keys: Seq<Seq<u8>>, q: Seq<u8>, invert: bool, n: int)
    requires
        0 <= n <= keys.len(),
    ensures
        forall|k: int|
            #[trigger] picked(keys, q, invert, n).contains(k) <==> (0 <= k < n && reported(
                keys[k],
                q,
                invert,
            )),
    decreases n,
{
    if n > 0 {
        lemma_picked_members(keys, q, invert, n - 1);
        let prev = picked(keys, q, invert, n - 1);
        assert forall|k: int| #[trigger] picked(keys, q, invert, n).contains(k) <==> (0 <= k < n
            && reported(keys[k], q, invert)) by {
            if reported(keys[n - 1], q, invert) {
                let cur = prev.push(n - 1);
                if cur.contains(k) && k != n - 1 {
                    let j = choose|j: int| 0 <= j < cur.len() && cur[j] == k;
                    assert(prev[j] == k);
                }
                if prev.contains(k) {
                    let j = choose|j: int| 0 <= j < prev.len() && prev[j] == k;
                    assert(cur[j] == k);
                }
                if k == n - 1 {
                    assert(cur[prev.len() as int] == k);
                }
            }
        }
    }
}

/// The empty sequence occurs in every sequence.
pub proof fn lemma_empty_occurs(t: Seq<u8>, q: Seq<u8>)
    requires
        q.len() == 0,
    ensures
        contains(t, q),
{
    assert(t.subrange(0, 0) =~= q);
    assert(occurs_at(t, q, 0));
}

/// An inverted scan counts no occurrences.
pub proof fn lemma_inverted_tally(keys: Seq<Seq<u8>>, q: Seq<u8>, n: int)
    ensures
        tally(keys, q, true, n) == 0,
    decreases n,
{
    if n > 0 {
        lemma_inverted_tally(keys, q, n - 1);
    }
}

/// The empty query is found in every line: the exact scan for it reports
/// every line of a text, in order, and the inverted scan reports none.
pub proof fn law_empty_query(contents: &str, query: &str)
    requires
        query@.len() == 0,
    ensures
        picked(text_lines(contents), query.spec_bytes(), false, text_lines(contents).len() as int)
            == Seq::new(text_lines(contents).len(), |k: int| k),
        picked(text_lines(contents), query.spec_bytes(), true, text_lines(contents).len() as int).len()
            == 0,
{
    let ls = text_lines(contents);
    let q = query.spec_bytes();
    assert(q.len() == 0);
    lemma_every_line_picked(ls, q, ls.len() as int);
}

proof fn lemma_every_line_picked(keys: Seq<Seq<u8>>, q: Seq<u8>, n: int)
    requires
        q.len() == 0,
        0 <= n <= keys.len(),
    ensures
        picked(keys, q, false, n) == Seq::new(n as nat, |k: int| k),
        picked(keys, q, true, n).len() == 0,
    decreases n,
{
    if n > 0 {
        lemma_every_line_picked(keys, q, n - 1);
        lemma_empty_occurs(keys[n - 1], q);
        assert(picked(keys, q, false, n) =~= Seq::new(n as nat, |k: int| k));
    }
}

/// The exact and the inverted scan for one query share out the lines of a
/// text: each line is reported by exactly one of the two, and neither
/// reports anything else.
pub proof fn law_invert_complements_search(contents: &str, query: &str)
    ensures
        forall|k: int|
            0 <= k < text_lines(contents).len() ==> #[trigger] picked(
                text_lines(contents),
                query.spec_bytes(),
                false,
                text_lines(contents).len() as int,
            ).contains(k) != picked(
                text_lines(contents),
                query.spec_bytes(),
                true,
                text_lines(contents).len() as int,
            ).contains(k),
        forall|k: int|
            picked(text_lines(contents), query.spec_bytes(), false, text_lines(contents).len() as int).contains(k)
                || picked(text_lines(contents), query.spec_bytes(), true, text_lines(contents).len() as int).contains(k)
                ==> 0 <= k < text_lines(contents).len(),
{
    let ls = text_lines(contents);
    let q = query.spec_bytes();
    lemma_picked_members(ls, q, false, ls.len() as int);
    lemma_picked_members(ls, q, true, ls.len() as int);
}

proof fn lemma_leading_byte_high(x: u8, a: u8)
    requires
        a >= 0x80,
    ensures
        (a | x) >= 0x80,
{
    assert((a | x) >= 0x80) by (bit_vector)
        requires
            a >= 0x80,
    ;
}

proof fn lemma_ascii_char(c: char)
    requires
        (c as u32) <= 0x7f,
    ensures
        '\0' <= c <= '\u{7f}',
{
    char_is_scalar(c);
}

/// Characters whose UTF-8 bytes are all below 0x80 are ASCII.
pub(crate) proof fn lemma_low_bytes_ascii(s: Seq<char>)
    requires
        forall|i: int| 0 <= i < encode_utf8(s).len() ==> encode_utf8(s)[i] < 0x80,
    ensures
        is_ascii_chars(s),
    decreases s.len(),
{
    if s.len() > 0 {
        let c = s[0] as u32;
        char_is_scalar(s[0]);
        let head = encode_scalar(c);
        let rest = encode_utf8(s.drop_first());
        assert(encode_utf8(s) == head + rest);
        assert(encode_utf8(s)[0] == head[0]);
        if !has_width_1_encoding(c) {
            if has_width_2_encoding(c) {
                lemma_leading_byte_high(((c >> 6) & 0x1F) as u8, 0xC0);
            } else if has_width_3_encoding(c) {
                lemma_leading_byte_high(((c >> 12) & 0x0F) as u8, 0xE0);
            } else {
                lemma_leading_byte_high(((c >> 18) & 0x7) as u8, 0xF0);
            }
            assert(false);
        }
        assert forall|i: int| 0 <= i < rest.len() implies rest[i] < 0x80 by {
            assert(encode_utf8(s)[i + head.len()] == rest[i]);
        }
        lemma_low_bytes_ascii(s.drop_first());
        assert forall|i: int| 0 <= i < s.len() implies '\0' <= #[trigger] s[i] <= '\u{7f}' by {
            if i > 0 {
                assert(s[i] == s.drop_first()[i - 1]);
            } else {
                assert(has_width_1_encoding(c));
                lemma_ascii_char(s[0]);
            }
        }
    }
}

/// Every line of bytes below 0x80 has only bytes below 0x80.
pub(crate) proof fn lemma_lines_low_bytes(b: Seq<u8>, start: int, i: int)
    requires
        0 <= start <= i,
        forall|j: int| 0 <= j < b.len() ==> b[j] < 0x80,
    ensures
        forall|m: int, j: int|
            0 <= m < lines_from(b, start, i).len() && 0 <= j < lines_from(b, start, i)[m].len()
                ==> #[trigger] lines_from(b, start, i)[m][j] < 0x80,
    decreases b.len() - i,
{
    if i >= b.len() {
        if start < b.len() {
            let line = b.subrange(start, b.len() as int);
            assert forall|j: int| 0 <= j < line.len() implies line[j] < 0x80 by {
                assert(line[j] == b[start + j]);
            }
        }
    } else if b[i] == 10 {
        lemma_lines_low_bytes(b, i + 1, i + 1);
        let first = trim_cr(b.subrange(start, i));
        let tail = lines_from(b, i + 1, i + 1);
        assert(lines_from(b, start, i) == seq![first] + tail);
        assert forall|m: int, j: int|
            0 <= m < lines_from(b, start, i).len() && 0 <= j < lines_from(b, start, i)[m].len()
                implies #[trigger] lines_from(b, start, i)[m][j] < 0x80 by {
            if m == 0 {
                assert(first[j] == b[start + j]);
            } else {
                assert(lines_from(b, start, i)[m] == tail[m - 1]);
            }
        }
    } else {
        lemma_lines_low_bytes(b, start, i + 1);
        assert(lines_from(b, start, i) == lines_from(b, start, i + 1));
    }
}

/// A literal occurrence between ASCII texts survives lowering both.
pub(crate) proof fn lemma_ascii_lowering_keeps_match(s: Seq<char>, t: Seq<char>)
    requires
        is_ascii_chars(s),
        is_ascii_chars(t),
        contains(encode_utf8(s), encode_utf8(t)),
    ensures
        contains(
            encode_utf8(s.map_values(|c: char| ascii_lower_char(c))),
            encode_utf8(t.map_values(|c: char| ascii_lower_char(c))),
        ),
{
    let ls = s.map_values(|c: char| ascii_lower_char(c));
    let lt = t.map_values(|c: char| ascii_lower_char(c));
    is_ascii_chars_encode_utf8(s);
    is_ascii_chars_encode_utf8(t);
    assert(is_ascii_chars(ls));
    assert(is_ascii_chars(lt));
    is_ascii_chars_encode_utf8(ls);
    is_ascii_chars_encode_utf8(lt);
    let es = encode_utf8(s);
    let et = encode_utf8(t);
    let p = choose|p: int| occurs_at(es, et, p);
    assert forall|j: int| 0 <= j < t.len() implies s[p + j] == t[j] by {
        assert(es.subrange(p, p + et.len())[j] == et[j]);
        assert(es[p + j] == et[j]);
    }
    let el = encode_utf8(ls);
    let elt = encode_utf8(lt);
    assert(el.subrange(p, p + elt.len()) =~= elt) by {
        assert forall|j: int| 0 <= j < elt.len() implies el.subrange(p, p + elt.len())[j] == elt[j] by {
            assert(el[p + j] == ls[p + j] as u8);
            assert(elt[j] == lt[j] as u8);
            assert(ls[p + j] == lt[j]);
        }
    }
    assert(occurs_at(el, elt, p));
}

} // verus!
