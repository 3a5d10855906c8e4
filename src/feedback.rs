use vstd::prelude::*;

use crate::words::{chars_of, is_white_char, is_white_space};

verus! {

/// The outcome for one guessed letter.
#[derive(Clone, Copy, Debug, PartialEq, Eq, Hash, Structural)]
pub enum Info {
    /// The letter is at this very position of the answer.
    Green,
    /// The letter occurs elsewhere in the answer, not yet accounted for.
    Yellow,
    /// The letter is not (or no more often) in the answer.
    Grey,
}

/// A word of five lowercase ASCII letters.
pub type Word = [u8; 5];

/// The feedback for one guess, one entry per position of the guess.
pub type Pattern = [Info; 5];

pub open spec fn is_letter(b: u8) -> bool {
    97 <= b <= 122
}

/// Every byte of `w` is a lowercase ASCII letter.
pub open spec fn is_word(w: Word) -> bool {
    forall|i: int| 0 <= i < 5 ==> is_letter(#[trigger] w[i])
}

/// Positions `j < n` where the answer holds `c` and the guess misses that position.
pub open spec fn unmatched_count(guess: Word, answer: Word, c: u8, n: int) -> nat
    decreases n,
{
    if n <= 0 {
        0
    } else {
        unmatched_count(guess, answer, c, n - 1) + if answer[n - 1] == c && guess[n - 1]
            != answer[n - 1] {
            1nat
        } else {
            0nat
        }
    }
}

/// Positions `k < n` where the guess holds `c` and misses the answer there.
pub open spec fn misplaced_count(guess: Word, answer: Word, c: u8, n: int) -> nat
    decreases n,
{
    if n <= 0 {
        0
    } else {
        misplaced_count(guess, answer, c, n - 1) + if guess[n - 1] == c && guess[n - 1]
            != answer[n - 1] {
            1nat
        } else {
            0nat
        }
    }
}

/// The outcome at position `i`: an exact match is green; otherwise the letter is
/// yellow when fewer earlier non-matching occurrences of it in the guess than
/// non-matched occurrences of it in the answer exist, so the copies of a letter
/// go to the guess's occurrences from left to right; else it is grey.
pub open spec fn letter_result(guess: Word, answer: Word, i: int) -> Info {
    if guess[i] == answer[i] {
        Info::Green
    } else if misplaced_count(guess, answer, guess[i], i) < unmatched_count(
        guess,
        answer,
        guess[i],
        5,
    ) {
        Info::Yellow
    } else {
        Info::Grey
    }
}

/// The feedback pattern that `guess` receives when the secret is `answer`.
pub open spec fn pattern_of(guess: Word, answer: Word) -> Seq<Info> {
    Seq::new(5, |i: int| letter_result(guess, answer, i))
}

/// Copies of `c` in the answer still unclaimed once the guess's positions
/// before `i` have been given their outcome.
spec fn copies_left(guess: Word, answer: Word, c: u8, i: int) -> int {
    let u = unmatched_count(guess, answer, c, 5);
    let m = misplaced_count(guess, answer, c, i);
    if m < u {
        u - m
    } else {
        0
    }
}

proof fn lemma_unmatched_bound(guess: Word, answer: Word, c: u8, n: int)
    requires
        0 <= n,
    ensures
        unmatched_count(guess, answer, c, n) <= n,
    decreases n,
{
    if n > 0 {
        lemma_unmatched_bound(guess, answer, c, n - 1);
    }
}

/// Computes the feedback for `guess` against the answer `good`, first marking
/// exact matches, then handing the remaining copies of each letter of the answer
/// to the guess's other occurrences from left to right.
pub fn get_feedback(guess: &Word, good: &Word) -> (r: Pattern)
    requires
        is_word(*guess),
        is_word(*good),
    ensures
        r@ == pattern_of(*guess, *good),
{
    let mut ans = [Info::Grey;5];
    let mut freq = [0u8;26];
    let mut i: usize = 0;
    while i < 5
        invariant
            i <= 5,
            is_word(*good),
            forall|k: int| 0 <= k < i ==> (ans[k] == Info::Green) == (guess[k] == good[k]),
            forall|k: int| 0 <= k < i ==> ans[k] != Info::Yellow,
            forall|k: int| i <= k < 5 ==> ans[k] == Info::Grey,
            forall|c: int|
                0 <= c < 26 ==> #[trigger] freq[c] == unmatched_count(*guess, *good, (c + 97) as u8, i as int),
        decreases 5 - i,
    {
        if guess[i] == good[i] {
            ans[i] = Info::Green;
        } else {
            let letter = (good[i] - 97) as usize;
            proof {
                lemma_unmatched_bound(*guess, *good, good[i as int], i as int);
            }
            freq[letter] = freq[letter] + 1;
        }
        i = i + 1;
    }
    let mut i: usize = 0;
    while i < 5
        invariant
            i <= 5,
            is_word(*guess),
            forall|k: int| 0 <= k < i ==> ans[k] == letter_result(*guess, *good, k),
            forall|k: int|
                i <= k < 5 ==> ans[k] == (if guess[k] == good[k] {
                    Info::Green
                } else {
                    Info::Grey
                }),
            forall|c: int|
                0 <= c < 26 ==> #[trigger] freq[c] == copies_left(*guess, *good, (c + 97) as u8, i as int),
        decreases 5 - i,
    {
        if ans[i] != Info::Green {
            let letter = (guess[i] - 97) as usize;
            if freq[letter] > 0 {
                ans[i] = Info::Yellow;
                freq[letter] = freq[letter] - 1;
            }
        }
        i = i + 1;
    }
    assert(ans@ =~= pattern_of(*guess, *good));
    ans
}

/// `word` could be the answer, given that `guess` received the pattern `p`.
pub open spec fn matches(word: Word, guess: Word, p: Seq<Info>) -> bool {
    pattern_of(guess, word) == p
}

/// Whether `word` could be the answer, given that `guess` received `info`.
pub fn matches_info(word: &Word, guess: &Word, info: &Pattern) -> (r: bool)
    requires
        is_word(*word),
        is_word(*guess),
    ensures
        r == matches(*word, *guess, info@),
{
    let p = get_feedback(guess, word);
    let r = p[0] == info[0] && p[1] == info[1] && p[2] == info[2] && p[3] == info[3] && p[4]
        == info[4];
    if r {
        assert(p@ =~= info@);
    } else {
        assert(p@ != info@) by {
            assert(exists|k: int| 0 <= k < 5 && p@[k] != info@[k]);
        }
    }
    r
}

/// A word checked against itself is green at every position.
pub proof fn lemma_feedback_identity(w: Word)
    ensures
        pattern_of(w, w) == Seq::new(5, |_i: int| Info::Green),
{
    assert(pattern_of(w, w) =~= Seq::new(5, |_i: int| Info::Green));
}

proof fn lemma_unmatched_absent(guess: Word, answer: Word, c: u8, n: int)
    requires
        n <= 5,
        forall|j: int| 0 <= j < 5 ==> answer[j] != c,
    ensures
        unmatched_count(guess, answer, c, n) == 0,
    decreases n,
{
    if n > 0 {
        lemma_unmatched_absent(guess, answer, c, n - 1);
    }
}

/// A guess that shares no letter with the answer is grey at every position.
pub proof fn lemma_disjoint_all_grey(guess: Word, answer: Word)
    requires
        forall|i: int, j: int| 0 <= i < 5 && 0 <= j < 5 ==> guess[i] != answer[j],
    ensures
        pattern_of(guess, answer) == Seq::new(5, |_i: int| Info::Grey),
{
    assert forall|i: int| 0 <= i < 5 implies letter_result(guess, answer, i) == Info::Grey by {
        lemma_unmatched_absent(guess, answer, guess[i], 5);
    }
    assert(pattern_of(guess, answer) =~= Seq::new(5, |_i: int| Info::Grey));
}

/// An answer always agrees with the pattern computed for it, and with no other
/// pattern.
pub proof fn lemma_membership(answer: Word, guess: Word, other: Seq<Info>)
    ensures
        matches(answer, guess, pattern_of(guess, answer)),
        other != pattern_of(guess, answer) ==> !matches(answer, guess, other),
{
}

/// The outcome a feedback character stands for: G, Y or B in either case.
pub open spec fn info_of_code(c: char) -> Option<Info> {
    if c == 'G' || c == 'g' {
        Some(Info::Green)
    } else if c == 'Y' || c == 'y' {
        Some(Info::Yellow)
    } else if c == 'B' || c == 'b' {
        Some(Info::Grey)
    } else {
        None
    }
}

/// The characters of a feedback code once all whitespace is removed.
pub open spec fn code_chars(s: Seq<char>) -> Seq<char> {
    s.filter(|c: char| !is_white_space(c))
}

fn info_of_char(c: char) -> (r: Option<Info>)
    ensures
        r == info_of_code(c),
{
    if c == 'G' || c == 'g' {
        Some(Info::Green)
    } else if c == 'Y' || c == 'y' {
        Some(Info::Yellow)
    } else if c == 'B' || c == 'b' {
        Some(Info::Grey)
    } else {
        None
    }
}

/// Reads a feedback code such as "bbgyg": whitespace anywhere is ignored and
/// exactly five of G, Y and B (either case) must remain.
pub fn parse_feedback(s: &str) -> (r: Option<Pattern>)
    ensures
        r is Some <==> (code_chars(s@).len() == 5 && forall|k: int|
            0 <= k < 5 ==> #[trigger] info_of_code(code_chars(s@)[k]) is Some),
        r matches Some(p) ==> forall|k: int|
            0 <= k < 5 ==> info_of_code(code_chars(s@)[k]) == Some(#[trigger] p[k]),
{
    let all = chars_of(s);
    let ghost pred = |c: char| !is_white_space(c);
    let mut chars: Vec<char> = Vec::new();
    let mut i: usize = 0;
    while i < all.len()
        invariant
            i <= all@.len(),
            pred == (|c: char| !is_white_space(c)),
            chars@ == all@.subrange(0, i as int).filter(pred),
        decreases all@.len() - i,
    {
        proof {
            assert(all@.subrange(0, i + 1).drop_last() =~= all@.subrange(0, i as int));
            reveal(Seq::filter);
        }
        if !is_white_char(all[i]) {
            chars.push(all[i]);
        }
        i = i + 1;
    }
    assert(all@.subrange(0, all@.len() as int) =~= all@);
    assert(chars@ == code_chars(s@));
    if chars.len() != 5 {
        return None;
    }
    let mut arr = [Info::Grey;5];
    let mut k: usize = 0;
    while k < 5
        invariant
            k <= 5,
            chars@.len() == 5,
            chars@ == code_chars(s@),
            forall|m: int| 0 <= m < k ==> info_of_code(chars@[m]) == Some(#[trigger] arr[m]),
        decreases 5 - k,
    {
        match info_of_char(chars[k]) {
            Some(x) => {
                arr[k] = x;
            },
            None => {
                return None;
            },
        }
        k = k + 1;
    }
    assert forall|m: int| 0 <= m < 5 implies #[trigger] info_of_code(code_chars(s@)[m]) is Some by {
        assert(info_of_code(chars@[m]) == Some(arr[m]));
    }
    Some(arr)
}

} // verus!
