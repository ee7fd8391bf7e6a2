//! Splitting text into line records.
use vstd::prelude::*;
use vstd::utf8::*;
use vstd::string::*;

verus! {

broadcast use {encode_utf8_valid_utf8, encode_utf8_decode_utf8, is_char_boundary_iff_not_is_continuation_byte, is_char_boundary_start_end_of_seq};

/// The byte of a line feed.
pub const LF: u8 = 10;

/// The byte of a carriage return.
pub const CR: u8 = 13;

/// `l` without one trailing carriage return, if it ends with one.
pub open spec fn trim_cr(l: Seq<u8>) -> Seq<u8> {
    if l.len() > 0 && l.last() == CR {
        l.drop_last()
    } else {
        l
    }
}

/// The lines of `b[start..]`, scanning from `i`, where `b[start..i]` holds
/// no line feed. A line ends at a line feed, which is dropped together with
/// a carriage return just before it; a last line without a line feed is kept
/// whole; nothing follows a final line feed.
pub open spec fn lines_from(b: Seq<u8>, start: int, i: int) -> Seq<Seq<u8>>
    decreases b.len() - i,
{
    if i >= b.len() {
        if start < b.len() {
            seq![b.subrange(start, b.len() as int)]
        } else {
            seq![]
        }
    } else if b[i] == LF {
        seq![trim_cr(b.subrange(start, i))] + lines_from(b, i + 1, i + 1)
    } else {
        lines_from(b, start, i + 1)
    }
}

/// The lines of the bytes `b`.
pub open spec fn lines_of(b: Seq<u8>) -> Seq<Seq<u8>> {
    lines_from(b, 0, 0)
}

/// The lines of the text `s`, in UTF-8 bytes.
pub open spec fn text_lines(s: &str) -> Seq<Seq<u8>> {
    lines_of(s.spec_bytes())
}

proof fn lemma_boundary_after_lf(b: Seq<u8>)
    requires
        valid_utf8(b),
        b.len() > 0,
        b[0] == LF,
    ensures
        is_char_boundary(b, 1),
{
    assert(length_of_first_scalar(b) == 1);
    assert(is_char_boundary(pop_first_scalar(b), 0));
}

/// Splits `contents` into its lines, each a slice of `contents`, in order.
/// A line ends at `\n`, which is dropped with a `\r` just before it; no
/// empty line follows a final `\n`, and empty text has no lines.
pub fn split_lines<'a>(contents: &'a str) -> (r: Vec<&'a str>)
    ensures
        r@.len() == text_lines(contents).len(),
        forall|k: int| 0 <= k < r@.len() ==> #[trigger] r@[k].spec_bytes() == text_lines(contents)[k],
{
    let bytes = contents.as_bytes();
    let ghost b = contents.spec_bytes();
    let n = bytes.len();
    let mut r: Vec<&'a str> = Vec::new();
    let mut rest: &'a str = contents;
    let mut start: usize = 0;
    let mut i: usize = 0;
    while i < n
        invariant
            b == contents.spec_bytes(),
            bytes@ == b,
            n == b.len(),
            start <= i <= n,
            rest.spec_bytes() == b.subrange(start as int, n as int),
            lines_of(b) == r@.map_values(|l: &str| l.spec_bytes()) + lines_from(b, start as int, i as int),
        decreases n - i,
    {
        if bytes[i] == LF {
            let ghost rb = rest.spec_bytes();
            assert(rb[i - start] == LF);
            proof {
                encode_utf8_valid_utf8(rest@);
                is_char_boundary_iff_not_is_continuation_byte(rb, (i - start) as int);
            }
            let (raw, tail) = rest.split_at(i - start);
            let mut line = raw;
            if i > start && bytes[i - 1] == CR {
                assert(rb[i - start - 1] == CR);
                assert(raw.spec_bytes() == rb.subrange(0, (i - start) as int));
                proof {
                    encode_utf8_valid_utf8(raw@);
                    is_char_boundary_iff_not_is_continuation_byte(raw.spec_bytes(), (i - start - 1) as int);
                }
                let (trimmed, _) = raw.split_at(i - start - 1);
                line = trimmed;
            }
            let ghost tb = tail.spec_bytes();
            assert(tb[0] == LF);
            proof {
                encode_utf8_valid_utf8(tail@);
                lemma_boundary_after_lf(tb);
            }
            let (_, after) = tail.split_at(1);
            assert(line.spec_bytes() == trim_cr(b.subrange(start as int, i as int)));
            r.push(line);
            rest = after;
            start = i + 1;
            assert(rest.spec_bytes() =~= b.subrange(start as int, n as int));
        }
        i = i + 1;
    }
    if start < n {
        r.push(rest);
    }
    assert(lines_of(b) =~= r@.map_values(|l: &str| l.spec_bytes()));
    r
}

} // verus!
