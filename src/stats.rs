//! Word-frequency statistics of a text.
use vstd::prelude::*;
use crate::fold::{lower_of, lowercase};
use crate::lines::{split_lines, text_lines};

verus! {

/// Whether `c` has Unicode's White_Space property: tab through carriage
/// return, space, next line, no-break space, ogham space mark, the spaces
/// from en quad to hair space, line and paragraph separators, narrow
/// no-break space, medium mathematical space and ideographic space.
pub open spec fn white_space(c: char) -> bool {
    ||| '\u{9}' <= c <= '\u{d}'
    ||| c == ' '
    ||| c == '\u{85}'
    ||| c == '\u{a0}'
    ||| c == '\u{1680}'
    ||| '\u{2000}' <= c <= '\u{200a}'
    ||| c == '\u{2028}'
    ||| c == '\u{2029}'
    ||| c == '\u{202f}'
    ||| c == '\u{205f}'
    ||| c == '\u{3000}'
}

/// Relies on `char::is_whitespace`, which holds exactly of the characters
/// with Unicode's White_Space property.
#[verifier::external_body]
fn is_white_space(c: char) -> (r: bool)
    ensures
        r == white_space(c),
{
    c.is_whitespace()
}

/// Relies on `String::from_iter`: the text of the characters `cs`, in order.
#[verifier::external_body]
fn text_of(cs: &Vec<char>) -> (r: String)
    ensures
        r@ == cs@,
{
    String::from_iter(cs.iter())
}

/// The characters of `s`, in order.
fn chars_of(s: &str) -> (r: Vec<char>)
    ensures
        r@ == s@,
{
    let mut v: Vec<char> = Vec::new();
    for c in it: s.chars()
        invariant
            v@ == it.seq().subrange(0, it.index() as int),
    {
        v.push(c);
    }
    v
}

/// The words of `s[start..]`, scanning from `i`, where `s[start..i]` holds
/// no white space: the maximal runs of characters that are not white space.
pub open spec fn words_from(s: Seq<char>, start: int, i: int) -> Seq<Seq<char>>
    decreases s.len() - i,
{
    if i >= s.len() {
        if start < s.len() {
            seq![s.subrange(start, s.len() as int)]
        } else {
            seq![]
        }
    } else if white_space(s[i]) {
        if start < i {
            seq![s.subrange(start, i)] + words_from(s, i + 1, i + 1)
        } else {
            words_from(s, i + 1, i + 1)
        }
    } else {
        words_from(s, start, i + 1)
    }
}

/// The words of `s`, in order.
pub open spec fn words(s: Seq<char>) -> Seq<Seq<char>> {
    words_from(s, 0, 0)
}

/// How many of the words `ws` are `w`.
pub open spec fn count_in(ws: Seq<Seq<char>>, w: Seq<char>) -> nat
    decreases ws.len(),
{
    if ws.len() == 0 {
        0
    } else {
        count_in(ws.drop_last(), w) + if ws.last() == w {
            1nat
        } else {
            0nat
        }
    }
}

/// The characters of the words `ws`, summed.
pub open spec fn total_len(ws: Seq<Seq<char>>) -> nat
    decreases ws.len(),
{
    if ws.len() == 0 {
        0
    } else {
        total_len(ws.drop_last()) + ws.last().len()
    }
}

/// `freq` maps each distinct word of `ws` to how often it occurs there:
/// its words are distinct, each is a word of `ws` with its count, and
/// every word of `ws` has an entry.
pub open spec fn frequencies_of(freq: Seq<(Seq<char>, nat)>, ws: Seq<Seq<char>>) -> bool {
    &&& forall|i: int, j: int| 0 <= i < j < freq.len() ==> freq[i].0 != freq[j].0
    &&& forall|i: int|
        0 <= i < freq.len() ==> ws.contains(#[trigger] freq[i].0) && freq[i].1 == count_in(ws, freq[i].0)
    &&& forall|k: int| 0 <= k < ws.len() ==> exists|i: int| 0 <= i < freq.len() && #[trigger] freq[i].0 == #[trigger] ws[k]
}

/// Word-frequency statistics: each distinct word with its count (in no
/// particular order), the characters of all words, and the lines.
pub struct WordFrequencyReport {
    pub frequencies: Vec<(String, usize)>,
    pub character_count: usize,
    pub line_count: usize,
}

/// The entries of a frequency table, as words and counts.
pub open spec fn table_view(t: Seq<(String, usize)>) -> Seq<(Seq<char>, nat)> {
    t.map_values(|e: (String, usize)| (e.0@, e.1 as nat))
}

proof fn lemma_count_in_bound(ws: Seq<Seq<char>>, w: Seq<char>)
    ensures
        count_in(ws, w) <= ws.len(),
        ws.contains(w) == (count_in(ws, w) > 0),
    decreases ws.len(),
{
    if ws.len() > 0 {
        lemma_count_in_bound(ws.drop_last(), w);
        if ws.drop_last().contains(w) {
            let k = choose|k: int| 0 <= k < ws.drop_last().len() && ws.drop_last()[k] == w;
            assert(ws[k] == w);
        }
        if ws.contains(w) && ws.last() != w {
            let k = choose|k: int| 0 <= k < ws.len() && ws[k] == w;
            assert(ws.drop_last()[k] == w);
        }
        if ws.last() == w {
            assert(ws[ws.len() - 1] == w);
        }
    }
}

/// Whether `key` equals the characters `cs[from..to]`.
fn same_chars(key: &Vec<char>, cs: &Vec<char>, from: usize, to: usize) -> (r: bool)
    requires
        from <= to <= cs@.len(),
    ensures
        r == (key@ == cs@.subrange(from as int, to as int)),
{
    if key.len() != to - from {
        return false;
    }
    let mut j: usize = 0;
    while j < key.len()
        invariant
            key@.len() == to - from,
            from <= to <= cs@.len(),
            j <= key@.len(),
            forall|m: int| 0 <= m < j ==> key@[m] == cs@[from + m],
        decreases key@.len() - j,
    {
        if key[j] != cs[from + j] {
            assert(cs@.subrange(from as int, to as int)[j as int] != key@[j as int]);
            return false;
        }
        j = j + 1;
    }
    assert(key@ =~= cs@.subrange(from as int, to as int));
    true
}

/// The characters `cs[from..to]`.
fn chars_range(cs: &Vec<char>, from: usize, to: usize) -> (r: Vec<char>)
    requires
        from <= to <= cs@.len(),
    ensures
        r@ == cs@.subrange(from as int, to as int),
{
    let mut r: Vec<char> = Vec::new();
    let mut j: usize = from;
    while j < to
        invariant
            from <= j <= to <= cs@.len(),
            r@ == cs@.subrange(from as int, j as int),
        decreases to - j,
    {
        r.push(cs[j]);
        j = j + 1;
        assert(r@ =~= cs@.subrange(from as int, j as int));
    }
    r
}

/// The entries of a frequency table under construction.
spec fn work_view(t: Seq<(Vec<char>, usize)>) -> Seq<(Seq<char>, nat)> {
    t.map_values(|e: (Vec<char>, usize)| (e.0@, e.1 as nat))
}

/// Counts one more occurrence of the word `cs[from..to]` in `table`.
fn add_word(
    table: &mut Vec<(Vec<char>, usize)>,
    cs: &Vec<char>,
    from: usize,
    to: usize,
    Ghost(ws): Ghost<Seq<Seq<char>>>,
)
    requires
        from <= to <= cs@.len(),
        ws.len() < usize::MAX,
        frequencies_of(work_view(old(table)@), ws),
    ensures
        frequencies_of(work_view(final(table)@), ws.push(cs@.subrange(from as int, to as int))),
{
    let ghost w = cs@.subrange(from as int, to as int);
    let ghost ws2 = ws.push(w);
    let ghost before = work_view(table@);
    assert(ws2.drop_last() =~= ws);
    let n = table.len();
    let mut i: usize = 0;
    while i < n
        invariant
            n == table@.len(),
            from <= to <= cs@.len(),
            w == cs@.subrange(from as int, to as int),
            ws2 == ws.push(w),
            ws2.drop_last() == ws,
            ws.len() < usize::MAX,
            frequencies_of(before, ws),
            table@ == old(table)@,
            before == work_view(table@),
            forall|j: int| 0 <= j < i ==> before[j].0 != w,
        decreases n - i,
    {
        if same_chars(&table[i].0, cs, from, to) {
            assert(before[i as int].0 == w);
            let c = table[i].1;
            proof {
                lemma_count_in_bound(ws, w);
            }
            let key = table[i].0.clone();
            table.set(i, (key, c + 1));
            let ghost after = work_view(table@);
            assert(c == count_in(ws, w)) by {
                assert(ws.contains(before[i as int].0));
            }
            assert forall|j: int| 0 <= j < after.len() implies after[j] == if j == i {
                (w, (c + 1) as nat)
            } else {
                before[j]
            } by {
                assert(table@[j] == if j == i { (table@[j].0, (c + 1) as usize) } else { old(table)@[j] });
            }
            assert forall|j: int| 0 <= j < after.len() implies ws2.contains(#[trigger] after[j].0)
                && after[j].1 == count_in(ws2, after[j].0) by {
                assert(after[j].0 == before[j].0);
                assert(ws.contains(before[j].0));
                let k = choose|k: int| 0 <= k < ws.len() && ws[k] == before[j].0;
                assert(ws2[k] == before[j].0);
            }
            assert forall|k: int| 0 <= k < ws2.len() implies exists|j: int|
                0 <= j < after.len() && #[trigger] after[j].0 == #[trigger] ws2[k] by {
                if k < ws.len() {
                    assert(ws2[k] == ws[k]);
                    let j = choose|j: int| 0 <= j < before.len() && #[trigger] before[j].0 == ws[k];
                    assert(after[j].0 == ws2[k]);
                } else {
                    assert(after[i as int].0 == ws2[k]);
                }
            }
            assert forall|a: int, b: int| 0 <= a < b < after.len() implies after[a].0 != after[b].0 by {
                assert(after[a].0 == before[a].0);
                assert(after[b].0 == before[b].0);
            }
            return;
        }
        i = i + 1;
    }
    proof {
        lemma_count_in_bound(ws, w);
        if ws.contains(w) {
            let k = choose|k: int| 0 <= k < ws.len() && ws[k] == w;
            let j = choose|j: int| 0 <= j < before.len() && #[trigger] before[j].0 == ws[k];
            assert(before[j].0 == w);
        }
    }
    let key = chars_range(cs, from, to);
    table.push((key, 1));
    let ghost after = work_view(table@);
    assert(after =~= before.push((w, 1nat)));
    assert forall|j: int| 0 <= j < after.len() implies ws2.contains(#[trigger] after[j].0)
        && after[j].1 == count_in(ws2, after[j].0) by {
        if j < before.len() {
            assert(after[j] == before[j]);
            assert(ws.contains(before[j].0));
            let k = choose|k: int| 0 <= k < ws.len() && ws[k] == before[j].0;
            assert(ws2[k] == before[j].0);
        } else {
            assert(ws2[ws.len() as int] == w);
        }
    }
    assert forall|k: int| 0 <= k < ws2.len() implies exists|j: int|
        0 <= j < after.len() && #[trigger] after[j].0 == #[trigger] ws2[k] by {
        if k < ws.len() {
            assert(ws2[k] == ws[k]);
            let j = choose|j: int| 0 <= j < before.len() && before[j].0 == ws[k];
            assert(after[j].0 == ws2[k]);
        } else {
            assert(after[n as int].0 == ws2[k]);
        }
    }
    assert forall|a: int, b: int| 0 <= a < b < after.len() implies after[a].0 != after[b].0 by {
        if b == n {
            assert(after[a] == before[a]);
        }
    }
}

/// Statistics of a text whose lowercase form is `folded`: the frequency of
/// each word of `folded`, the characters of its words, and the lines of
/// `contents`.
pub fn word_report(folded: &str, contents: &str) -> (r: WordFrequencyReport)
    ensures
        frequencies_of(table_view(r.frequencies@), words(folded@)),
        r.character_count == total_len(words(folded@)),
        r.line_count == text_lines(contents).len(),
{
    let cs = chars_of(folded);
    let n = cs.len();
    let mut table: Vec<(Vec<char>, usize)> = Vec::new();
    let mut chars: usize = 0;
    let ghost mut ws: Seq<Seq<char>> = seq![];
    let mut start: usize = 0;
    let mut i: usize = 0;
    while i < n
        invariant
            cs@ == folded@,
            n == cs@.len(),
            start <= i <= n,
            words(cs@) == ws + words_from(cs@, start as int, i as int),
            ws.len() <= start,
            total_len(ws) == chars,
            chars <= start,
            frequencies_of(work_view(table@), ws),
        decreases n - i,
    {
        if is_white_space(cs[i]) {
            if start < i {
                add_word(&mut table, &cs, start, i, Ghost(ws));
                proof {
                    let w = cs@.subrange(start as int, i as int);
                    assert(ws.push(w).drop_last() =~= ws);
                    assert(ws + words_from(cs@, start as int, i as int) =~= ws.push(w) + words_from(
                        cs@,
                        i + 1,
                        i + 1,
                    ));
                    ws = ws.push(w);
                }
                chars = chars + (i - start);
            } else {
                assert(words_from(cs@, start as int, i as int) == words_from(cs@, i + 1, i + 1));
            }
            start = i + 1;
        }
        i = i + 1;
    }
    if start < n {
        add_word(&mut table, &cs, start, n, Ghost(ws));
        proof {
            let w = cs@.subrange(start as int, n as int);
            assert(ws.push(w).drop_last() =~= ws);
            assert(ws + words_from(cs@, start as int, n as int) =~= ws.push(w));
            ws = ws.push(w);
        }
        chars = chars + (n - start);
    } else {
        assert(ws + words_from(cs@, start as int, n as int) =~= ws);
    }
    let mut frequencies: Vec<(String, usize)> = Vec::new();
    let mut k: usize = 0;
    while k < table.len()
        invariant
            k <= table@.len(),
            table_view(frequencies@) == work_view(table@).subrange(0, k as int),
        decreases table@.len() - k,
    {
        let key = text_of(&table[k].0);
        let ghost prior = frequencies@;
        frequencies.push((key, table[k].1));
        assert(table_view(frequencies@) =~= table_view(prior).push(work_view(table@)[k as int]));
        k = k + 1;
        assert(table_view(frequencies@) =~= work_view(table@).subrange(0, k as int));
    }
    assert(table_view(frequencies@) =~= work_view(table@));
    let line_count = split_lines(contents).len();
    WordFrequencyReport { frequencies, character_count: chars, line_count }
}

/// Statistics of `contents`: the frequency of each word of its lowercase
/// form, the characters of those words, and the lines of `contents`.
pub fn file_stats(contents: &str) -> (r: WordFrequencyReport)
    ensures
        frequencies_of(table_view(r.frequencies@), words(lower_of(contents@))),
        r.character_count == total_len(words(lower_of(contents@))),
        r.line_count == text_lines(contents).len(),
{
    let folded = lowercase(contents);
    word_report(folded.as_str(), contents)
}

} // verus!
