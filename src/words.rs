use vstd::prelude::*;

use crate::feedback::{is_word, Word};
use crate::solver::all_words;
use vstd::std_specs::iter::IteratorSpec;
use vstd::string::StringSliceAdditionalSpecFns;

verus! {

/// Unicode White_Space, the characters that `char::is_whitespace` accepts.
pub open spec fn is_white_space(c: char) -> bool {
    let u = c as u32;
    ||| 9 <= u <= 13
    ||| u == 0x20 || u == 0x85 || u == 0xa0 || u == 0x1680
    ||| 0x2000 <= u <= 0x200a
    ||| u == 0x2028 || u == 0x2029 || u == 0x202f || u == 0x205f || u == 0x3000
}

pub open spec fn is_ascii_letter(c: char) -> bool {
    (65 <= c as u32 <= 90) || (97 <= c as u32 <= 122)
}

/// The byte of an ASCII letter, in lower case.
pub open spec fn to_lower(c: char) -> u8 {
    if 65 <= c as u32 <= 90 {
        (c as u32 + 32) as u8
    } else {
        (c as u32) as u8
    }
}

/// The index of the first line feed at or after `i`, or the length of `s`.
pub open spec fn line_end(s: Seq<char>, i: int) -> int
    decreases s.len() - i,
{
    if i >= s.len() || s[i] == '\n' {
        i
    } else {
        line_end(s, i + 1)
    }
}

proof fn lemma_line_end(s: Seq<char>, i: int)
    ensures
        i >= s.len() ==> line_end(s, i) == i,
        i < s.len() ==> i <= line_end(s, i) <= s.len(),
    decreases s.len() - i,
{
    if i < s.len() && s[i] != '\n' {
        lemma_line_end(s, i + 1);
    }
}

/// The lines of `s` that start at or after `i`, a line being the characters up to
/// the next line feed; a final line feed opens no further line.
pub open spec fn lines_from(s: Seq<char>, i: int) -> Seq<Seq<char>>
    decreases s.len() - i,
    via lines_from_decreases
{
    if i < 0 || i >= s.len() {
        seq![]
    } else if line_end(s, i) >= s.len() {
        seq![s.subrange(i, s.len() as int)]
    } else {
        seq![s.subrange(i, line_end(s, i))] + lines_from(s, line_end(s, i) + 1)
    }
}

#[via_fn]
proof fn lines_from_decreases(s: Seq<char>, i: int) {
    lemma_line_end(s, i);
}

/// The index of the first character at or after `i` that is not whitespace.
pub open spec fn trim_start(l: Seq<char>, i: int) -> int
    decreases l.len() - i,
{
    if i >= l.len() || !is_white_space(l[i]) {
        i
    } else {
        trim_start(l, i + 1)
    }
}

/// The end of `l` once the whitespace before index `j` is dropped.
pub open spec fn trim_end(l: Seq<char>, j: int) -> int
    decreases j,
{
    if j <= 0 || !is_white_space(l[j - 1]) {
        j
    } else {
        trim_end(l, j - 1)
    }
}

/// The line without leading and trailing whitespace.
pub open spec fn trimmed(l: Seq<char>) -> Seq<char> {
    let a = trim_start(l, 0);
    let b = trim_end(l, l.len() as int);
    if a < b {
        l.subrange(a, b)
    } else {
        seq![]
    }
}

/// The word a line holds: five ASCII letters once trimmed, in lower case.
pub open spec fn word_of_line(l: Seq<char>) -> Option<Seq<u8>> {
    let t = trimmed(l);
    if t.len() == 5 && forall|k: int| 0 <= k < 5 ==> is_ascii_letter(#[trigger] t[k]) {
        Some(t.map_values(|c: char| to_lower(c)))
    } else {
        None
    }
}

/// The words that the lines hold, in order of first appearance, each once.
pub open spec fn dictionary_of(lines: Seq<Seq<char>>) -> Seq<Seq<u8>>
    decreases lines.len(),
{
    if lines.len() == 0 {
        seq![]
    } else {
        let d = dictionary_of(lines.drop_last());
        match word_of_line(lines.last()) {
            Some(w) => if d.contains(w) {
                d
            } else {
                d.push(w)
            },
            None => d,
        }
    }
}

/// The word list that a text with one word per line describes.
pub open spec fn dictionary(text: Seq<char>) -> Seq<Seq<u8>> {
    dictionary_of(lines_from(text, 0))
}

pub open spec fn word_views(ws: Seq<Word>) -> Seq<Seq<u8>> {
    ws.map_values(|w: Word| w@)
}

pub(crate) fn is_white_char(c: char) -> (r: bool)
    ensures
        r == is_white_space(c),
{
    let u = c as u32;
    (9 <= u && u <= 13) || u == 0x20 || u == 0x85 || u == 0xa0 || u == 0x1680 || (0x2000 <= u
        && u <= 0x200a) || u == 0x2028 || u == 0x2029 || u == 0x202f || u == 0x205f || u
        == 0x3000
}

fn is_letter_char(c: char) -> (r: bool)
    ensures
        r == is_ascii_letter(c),
{
    let u = c as u32;
    (65 <= u && u <= 90) || (97 <= u && u <= 122)
}

fn lower_char(c: char) -> (r: u8)
    requires
        is_ascii_letter(c),
    ensures
        r == to_lower(c),
        97 <= r <= 122,
{
    let u = c as u32;
    if 65 <= u && u <= 90 {
        (u + 32) as u8
    } else {
        u as u8
    }
}

/// The characters of `s`, in order.
pub(crate) fn chars_of(s: &str) -> (r: Vec<char>)
    ensures
        r@ == s@,
{
    broadcast use vstd::string::axiom_spec_iter, vstd::string::next_postcondition;

    let mut it = s.chars();
    let mut r: Vec<char> = Vec::new();
    loop
        invariant
            it.obeys_prophetic_iter_laws(),
            r@ + it.remaining() == s@,
        decreases s@.len() - r@.len(),
    {
        match it.next() {
            Some(c) => {
                r.push(c);
                assert(r@ + it.remaining() =~= s@);
            },
            None => {
                assert(r@ =~= s@);
                return r;
            },
        }
    }
}

fn find_line_end(chars: &Vec<char>, i: usize) -> (e: usize)
    requires
        i < chars@.len(),
    ensures
        e == line_end(chars@, i as int),
{
    let mut e = i;
    while e < chars.len() && chars[e] != '\n'
        invariant
            i <= e <= chars@.len(),
            line_end(chars@, i as int) == line_end(chars@, e as int),
        decreases chars@.len() - e,
    {
        e = e + 1;
    }
    e
}

proof fn lemma_trim_end_bound(l: Seq<char>, j: int)
    ensures
        trim_end(l, j) <= j,
    decreases j,
{
    if j > 0 && is_white_space(l[j - 1]) {
        lemma_trim_end_bound(l, j - 1);
    }
}

proof fn lemma_trim_end_above(l: Seq<char>, j: int, a: int)
    requires
        0 <= a < j,
        !is_white_space(l[a]),
    ensures
        a < trim_end(l, j),
    decreases j,
{
    if j - 1 > a && is_white_space(l[j - 1]) {
        lemma_trim_end_above(l, j - 1, a);
    }
}

/// The word that the line `chars[start..end]` holds, if any.
fn word_in_line(chars: &Vec<char>, start: usize, end: usize) -> (r: Option<Word>)
    requires
        start <= end <= chars@.len(),
    ensures
        word_of_line(chars@.subrange(start as int, end as int)) == match r {
            Some(w) => Some(w@),
            None => None::<Seq<u8>>,
        },
        r matches Some(w) ==> is_word(w),
{
    let ghost l = chars@.subrange(start as int, end as int);
    let mut a = start;
    while a < end && is_white_char(chars[a])
        invariant
            start <= a <= end <= chars@.len(),
            l == chars@.subrange(start as int, end as int),
            trim_start(l, 0) == trim_start(l, a - start),
        decreases end - a,
    {
        a = a + 1;
    }
    if a == end {
        proof {
            lemma_trim_end_bound(l, l.len() as int);
        }
        return None;
    }
    let mut b = end;
    while is_white_char(chars[b - 1])
        invariant
            start <= a < b <= end <= chars@.len(),
            !is_white_space(chars@[a as int]),
            l == chars@.subrange(start as int, end as int),
            trim_end(l, l.len() as int) == trim_end(l, b - start),
        decreases b,
    {
        b = b - 1;
    }
    let ghost t = trimmed(l);
    assert(t =~= chars@.subrange(a as int, b as int));
    if b - a != 5 {
        return None;
    }
    let mut k: usize = 0;
    while k < 5
        invariant
            k <= 5,
            a + 5 == b <= chars@.len(),
            t == chars@.subrange(a as int, b as int),
            t == trimmed(l),
            l == chars@.subrange(start as int, end as int),
            forall|m: int| 0 <= m < k ==> is_ascii_letter(#[trigger] t[m]),
        decreases 5 - k,
    {
        assert(t[k as int] == chars@[a + k]);
        if !is_letter_char(chars[a + k]) {
            return None;
        }
        k = k + 1;
    }
    assert forall|m: int| 0 <= m < 5 implies is_ascii_letter(#[trigger] chars@[a + m]) by {
        assert(t[m] == chars@[a + m]);
    }
    assert(is_ascii_letter(chars@[a + 0]));
    let w: Word = [
        lower_char(chars[a]),
        lower_char(chars[a + 1]),
        lower_char(chars[a + 2]),
        lower_char(chars[a + 3]),
        lower_char(chars[a + 4]),
    ];
    assert(w@ =~= t.map_values(|c: char| to_lower(c)));
    assert(forall|m: int| 0 <= m < 5 ==> is_ascii_letter(#[trigger] t[m]));
    assert(forall|m: int| 0 <= m < 5 ==> #[trigger] w@[m] == to_lower(t[m]));
    Some(w)
}

/// Whether `w` is among `ws`.
fn contains_word(ws: &Vec<Word>, w: &Word) -> (r: bool)
    ensures
        r == word_views(ws@).contains(w@),
{
    let mut i: usize = 0;
    while i < ws.len()
        invariant
            i <= ws@.len(),
            forall|k: int| 0 <= k < i ==> (#[trigger] ws@[k])@ != w@,
        decreases ws@.len() - i,
    {
        let v = &ws[i];
        if v[0] == w[0] && v[1] == w[1] && v[2] == w[2] && v[3] == w[3] && v[4] == w[4] {
            assert(v@ =~= w@);
            assert(word_views(ws@)[i as int] == w@);
            return true;
        } else {
            assert(v@[0] != w@[0] || v@[1] != w@[1] || v@[2] != w@[2] || v@[3] != w@[3] || v@[4]
                != w@[4]);
        }
        i = i + 1;
    }
    assert forall|k: int| 0 <= k < word_views(ws@).len() implies word_views(ws@)[k] != w@ by {
        assert(word_views(ws@)[k] == ws@[k]@);
    }
    false
}

/// Reads a word list with one word per line. Surrounding whitespace is
/// ignored, words are brought to lower case, lines that are not five letters
/// are skipped, and a word that comes again is kept once, where it first came.
pub fn get_words(text: &str) -> (r: Vec<Word>)
    ensures
        word_views(r@) == dictionary(text@),
        all_words(r@),
{
    let chars = chars_of(text);
    let ghost s = chars@;
    let mut out: Vec<Word> = Vec::new();
    let ghost mut done: Seq<Seq<char>> = seq![];
    let mut start: usize = 0;
    assert(done + lines_from(s, 0) =~= lines_from(s, 0));
    while start < chars.len()
        invariant
            start <= chars@.len(),
            s == chars@,
            lines_from(s, 0) == done + lines_from(s, start as int),
            word_views(out@) == dictionary_of(done),
            all_words(out@),
        decreases chars@.len() - start,
    {
        let e = find_line_end(&chars, start);
        proof {
            lemma_line_end(s, start as int);
        }
        let w = word_in_line(&chars, start, e);
        let ghost line = s.subrange(start as int, e as int);
        let ghost before = out@;
        match w {
            Some(w) => {
                if !contains_word(&out, &w) {
                    out.push(w);
                    assert(word_views(out@) =~= word_views(before).push(w@));
                }
            },
            None => {},
        }
        proof {
            let next = done.push(line);
            assert(next.drop_last() =~= done);
            assert(next.last() == line);
            if e < s.len() {
                assert(lines_from(s, start as int) == seq![line] + lines_from(s, e + 1));
                assert(done + lines_from(s, start as int) =~= next + lines_from(s, e + 1));
            } else {
                assert(lines_from(s, start as int) == seq![line]);
                assert(lines_from(s, s.len() as int) =~= seq![]);
                assert(done + lines_from(s, start as int) =~= next + lines_from(s, s.len() as int));
            }
            done = next;
        }
        if e < chars.len() {
            start = e + 1;
        } else {
            start = chars.len();
        }
    }
    proof {
        assert(lines_from(s, start as int) =~= seq![]);
        assert(done =~= lines_from(s, 0));
    }
    out
}

/// Whether `s` is exactly five bytes that spell one of `valid_words`.
pub fn is_valid_word(s: &str, valid_words: &Vec<Word>) -> (r: bool)
    ensures
        r == (s.spec_bytes().len() == 5 && word_views(valid_words@).contains(s.spec_bytes())),
{
    let bytes = s.as_bytes();
    if bytes.len() != 5 {
        return false;
    }
    let w: Word = [bytes[0], bytes[1], bytes[2], bytes[3], bytes[4]];
    assert(w@ =~= bytes@);
    contains_word(valid_words, &w)
}

} // verus!
