//! The search engine: exact, case-insensitive and inverted scans over the
//! lines of a text.
use vstd::prelude::*;
use vstd::string::*;
use vstd::utf8::*;
use crate::config::{scan_of, Arguments, Scan};
use crate::fold::{ascii_lower_char, lower_of, lowercase};
use crate::laws::{
    lemma_ascii_lowering_keeps_match, lemma_inverted_tally, lemma_lines_low_bytes, lemma_low_bytes_ascii,
    lemma_picked_members,
};
use crate::lines::{lines_of, split_lines, text_lines};
use crate::matching::{capped, contains, contains_text, occurrence_count, occurrences};

verus! {

broadcast use {encode_utf8_decode_utf8};

/// One reported line: its 0-based position among the lines of the text,
/// and a view of its content in the text.
pub struct LineInfo<'a> {
    pub line_number: usize,
    pub line_content: &'a str,
}

/// The outcome of one scan: the reported lines in text order, the total
/// occurrences of the query in them, and how many lines were reported.
pub struct SearchResult<'a> {
    pub line_info: Vec<LineInfo<'a>>,
    pub count: usize,
    pub line_count: usize,
}

/// A line whose key is `key` is reported: it holds `q`, or, inverted, it
/// does not.
pub open spec fn reported(key: Seq<u8>, q: Seq<u8>, invert: bool) -> bool {
    contains(key, q) != invert
}

/// The positions, in order, of the lines among the first `n` whose keys are
/// reported.
pub open spec fn picked(keys: Seq<Seq<u8>>, q: Seq<u8>, invert: bool, n: int) -> Seq<int>
    decreases n,
{
    if n <= 0 {
        seq![]
    } else if reported(keys[n - 1], q, invert) {
        picked(keys, q, invert, n - 1).push(n - 1)
    } else {
        picked(keys, q, invert, n - 1)
    }
}

/// The occurrences of `q` summed over the reported lines among the first
/// `n`; nothing is counted in an inverted scan.
pub open spec fn tally(keys: Seq<Seq<u8>>, q: Seq<u8>, invert: bool, n: int) -> nat
    decreases n,
{
    if n <= 0 {
        0
    } else if !invert && contains(keys[n - 1], q) {
        tally(keys, q, invert, n - 1) + occurrences(keys[n - 1], q)
    } else {
        tally(keys, q, invert, n - 1)
    }
}

/// `r` reports the lines `lines` whose keys `keys` are reported for `q`:
/// positions and contents in order, the capped tally, and the line count.
pub open spec fn reports(
    r: &SearchResult,
    lines: Seq<Seq<u8>>,
    keys: Seq<Seq<u8>>,
    q: Seq<u8>,
    invert: bool,
) -> bool {
    let idx = picked(keys, q, invert, keys.len() as int);
    &&& r.line_info@.len() == idx.len()
    &&& forall|k: int|
        0 <= k < idx.len() ==> {
            &&& #[trigger] r.line_info@[k].line_number == idx[k]
            &&& r.line_info@[k].line_content.spec_bytes() == lines[idx[k]]
        }
    &&& r.count == capped(tally(keys, q, invert, keys.len() as int))
    &&& r.line_count == r.line_info@.len()
}

/// The UTF-8 bytes of each text.
pub open spec fn bytes_of(texts: Seq<&str>) -> Seq<Seq<u8>> {
    texts.map_values(|t: &str| t.spec_bytes())
}

proof fn lemma_picked_bounds(keys: Seq<Seq<u8>>, q: Seq<u8>, invert: bool, n: int)
    requires
        0 <= n,
    ensures
        picked(keys, q, invert, n).len() <= n,
        forall|k: int|
            0 <= k < picked(keys, q, invert, n).len() ==> 0 <= #[trigger] picked(
                keys,
                q,
                invert,
                n,
            )[k] < n,
    decreases n,
{
    if n > 0 {
        lemma_picked_bounds(keys, q, invert, n - 1);
    }
}

/// Scans the lines `records`, testing each by its key, the entry of `keys`
/// at the same position, against `query`: a line is reported when its key
/// holds `query`, or, with `invert`, when it does not. The count sums the
/// occurrences of `query` in the keys of the reported lines (zero when
/// inverted), saturating at `usize::MAX`.
pub fn search_records<'a>(records: &Vec<&'a str>, keys: &Vec<&str>, query: &str, invert: bool) -> (r: SearchResult<'a>)
    requires
        records@.len() == keys@.len(),
    ensures
        reports(&r, bytes_of(records@), bytes_of(keys@), query.spec_bytes(), invert),
{
    let ghost ks = bytes_of(keys@);
    let ghost q = query.spec_bytes();
    let n = keys.len();
    let mut line_info: Vec<LineInfo<'a>> = Vec::new();
    let mut count: usize = 0;
    let mut k: usize = 0;
    while k < n
        invariant
            n == keys@.len(),
            records@.len() == n,
            ks == bytes_of(keys@),
            q == query.spec_bytes(),
            k <= n,
            line_info@.len() == picked(ks, q, invert, k as int).len(),
            line_info@.len() <= k,
            forall|m: int|
                0 <= m < line_info@.len() ==> {
                    &&& #[trigger] line_info@[m].line_number == picked(ks, q, invert, k as int)[m]
                    &&& line_info@[m].line_content.spec_bytes() == records@[picked(ks, q, invert, k as int)[m]].spec_bytes()
                },
            count == capped(tally(ks, q, invert, k as int)),
        decreases n - k,
    {
        let key = keys[k];
        assert(ks[k as int] == key.spec_bytes());
        let holds = contains_text(key, query);
        let ghost before = line_info@;
        if holds != invert {
            assert(picked(ks, q, invert, k + 1) == picked(ks, q, invert, k as int).push(k as int));
            line_info.push(LineInfo { line_number: k, line_content: records[k] });
            assert forall|m: int| 0 <= m < line_info@.len() implies
                line_info@[m].line_number == picked(ks, q, invert, k + 1)[m]
                && line_info@[m].line_content.spec_bytes() == records@[picked(ks, q, invert, k + 1)[m]].spec_bytes() by {
                if m < before.len() {
                    assert(line_info@[m] == before[m]);
                    assert(before[m].line_number == picked(ks, q, invert, k as int)[m]);
                } else {
                    assert(line_info@[m].line_content == records@[k as int]);
                }
            }
            if !invert {
                let c = occurrence_count(key, query);
                count = count.saturating_add(c);
            }
        } else {
            assert(picked(ks, q, invert, k + 1) == picked(ks, q, invert, k as int));
        }
        k = k + 1;
    }
    proof {
        lemma_picked_bounds(ks, q, invert, n as int);
        assert forall|m: int| 0 <= m < line_info@.len() implies
            line_info@[m].line_content.spec_bytes() == bytes_of(records@)[picked(ks, q, invert, n as int)[m]] by {
            assert(line_info@[m].line_number == picked(ks, q, invert, n as int)[m]);
        }
    }
    let line_count = line_info.len();
    SearchResult { line_info, count, line_count }
}

/// The UTF-8 bytes of the lowercase form of the text whose bytes are `b`.
pub open spec fn folded(b: Seq<u8>) -> Seq<u8> {
    encode_utf8(lower_of(decode_utf8(b)))
}

/// The keys of a case-insensitive scan: each line, lowercased.
pub open spec fn folded_lines(lines: Seq<Seq<u8>>) -> Seq<Seq<u8>> {
    lines.map_values(|l: Seq<u8>| folded(l))
}

/// Reports the lines of `contents` that hold `query` as a literal
/// substring, with the non-overlapping occurrences of `query` in them.
pub fn search<'a>(query: &str, contents: &'a str) -> (r: SearchResult<'a>)
    ensures
        reports(&r, text_lines(contents), text_lines(contents), query.spec_bytes(), false),
{
    let lines = split_lines(contents);
    let r = search_records(&lines, &lines, query, false);
    assert(bytes_of(lines@) =~= text_lines(contents));
    r
}

/// Reports the lines of `contents` whose lowercase form holds the
/// lowercase form of `query`, with the occurrences counted in those forms.
/// On ASCII text and query it reports, among others, every line that the
/// exact scan reports.
pub fn search_case_insensitive<'a>(query: &str, contents: &'a str) -> (r: SearchResult<'a>)
    ensures
        reports(
            &r,
            text_lines(contents),
            folded_lines(text_lines(contents)),
            folded(query.spec_bytes()),
            false,
        ),
        is_ascii_chars(contents@) && is_ascii_chars(query@) ==> forall|k: int|
            #[trigger] picked(
                text_lines(contents),
                query.spec_bytes(),
                false,
                text_lines(contents).len() as int,
            ).contains(k) ==> picked(
                folded_lines(text_lines(contents)),
                folded(query.spec_bytes()),
                false,
                text_lines(contents).len() as int,
            ).contains(k),
{
    let lines = split_lines(contents);
    let q = lowercase(query);
    let mut lowered: Vec<String> = Vec::new();
    let mut k: usize = 0;
    while k < lines.len()
        invariant
            k <= lines@.len(),
            lowered@.len() == k,
            forall|m: int| 0 <= m < k ==> #[trigger] lowered@[m]@ == lower_of(lines@[m]@),
            forall|m: int|
                0 <= m < k && is_ascii_chars(lines@[m]@) ==> #[trigger] lowered@[m]@
                    == lines@[m]@.map_values(|c: char| ascii_lower_char(c)),
        decreases lines@.len() - k,
    {
        lowered.push(lowercase(lines[k]));
        k = k + 1;
    }
    let mut keys: Vec<&str> = Vec::new();
    let mut k: usize = 0;
    while k < lowered.len()
        invariant
            k <= lowered@.len(),
            keys@.len() == k,
            forall|m: int| 0 <= m < k ==> #[trigger] keys@[m]@ == lowered@[m]@,
        decreases lowered@.len() - k,
    {
        keys.push(lowered[k].as_str());
        k = k + 1;
    }
    let r = search_records(&lines, &keys, q.as_str(), false);
    assert(bytes_of(lines@) =~= text_lines(contents));
    assert forall|m: int| 0 <= m < keys@.len() implies #[trigger] bytes_of(keys@)[m] == folded_lines(text_lines(contents))[m] by {
        assert(keys@[m]@ == lower_of(lines@[m]@));
    }
    assert(bytes_of(keys@) =~= folded_lines(text_lines(contents)));
    proof {
        if is_ascii_chars(contents@) && is_ascii_chars(query@) {
            let ls = text_lines(contents);
            let n = ls.len() as int;
            let b = contents.spec_bytes();
            let fq = folded(query.spec_bytes());
            is_ascii_chars_encode_utf8(contents@);
            assert forall|j: int| 0 <= j < b.len() implies b[j] < 0x80 by {
                assert(b[j] == contents@[j] as u8);
            }
            lemma_lines_low_bytes(b, 0, 0);
            lemma_picked_members(ls, query.spec_bytes(), false, n);
            lemma_picked_members(folded_lines(ls), fq, false, n);
            assert forall|k: int| #[trigger] picked(ls, query.spec_bytes(), false, n).contains(k) implies picked(
                folded_lines(ls),
                fq,
                false,
                n,
            ).contains(k) by {
                let line = lines@[k]@;
                assert(ls[k] == encode_utf8(line));
                assert forall|j: int| 0 <= j < encode_utf8(line).len() implies encode_utf8(line)[j] < 0x80 by {
                    assert(lines_of(b)[k][j] < 0x80);
                }
                lemma_low_bytes_ascii(line);
                lemma_ascii_lowering_keeps_match(line, query@);
                assert(folded_lines(ls)[k] == encode_utf8(lowered@[k]@));
            }
        }
    }
    r
}

/// Reports the lines of `contents` that do not hold `query` as a literal
/// substring; the occurrence count is zero.
pub fn search_invert_match<'a>(query: &str, contents: &'a str) -> (r: SearchResult<'a>)
    ensures
        reports(&r, text_lines(contents), text_lines(contents), query.spec_bytes(), true),
        r.count == 0,
{
    let lines = split_lines(contents);
    let r = search_records(&lines, &lines, query, true);
    assert(bytes_of(lines@) =~= text_lines(contents));
    proof {
        lemma_inverted_tally(bytes_of(lines@), query.spec_bytes(), lines@.len() as int);
    }
    r
}

/// Runs on `contents` the scan that `arguments` selects, for its query.
pub fn run_search<'a>(arguments: &Arguments, contents: &'a str) -> (r: SearchResult<'a>)
    ensures
        match scan_of(arguments@) {
            Scan::CaseInsensitive => reports(
                &r,
                text_lines(contents),
                folded_lines(text_lines(contents)),
                folded(encode_utf8(arguments.query@)),
                false,
            ),
            Scan::Invert => reports(&r, text_lines(contents), text_lines(contents), encode_utf8(arguments.query@), true),
            Scan::Exact => reports(&r, text_lines(contents), text_lines(contents), encode_utf8(arguments.query@), false),
        },
{
    let query = arguments.query.as_str();
    match arguments.scan() {
        Scan::CaseInsensitive => search_case_insensitive(query, contents),
        Scan::Invert => search_invert_match(query, contents),
        Scan::Exact => search(query, contents),
    }
}

} // verus!
