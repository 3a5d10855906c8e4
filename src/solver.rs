use vstd::prelude::*;

use crate::feedback::{get_feedback, is_word, matches_info, pattern_of, Info, Pattern, Word};

verus! {

/// Why no guess can be proposed.
#[derive(Clone, Copy, Debug, PartialEq, Eq, Structural)]
pub enum SolveError {
    /// No answer agrees with every recorded (guess, feedback) pair.
    InconsistentHistory,
}

/// The fixed first guess, "roate".
pub open spec fn opener() -> Seq<u8> {
    seq![114u8, 111u8, 97u8, 116u8, 101u8]
}

/// Every word of `ws` is five lowercase letters.
pub open spec fn all_words(ws: Seq<Word>) -> bool {
    forall|i: int| 0 <= i < ws.len() ==> is_word(#[trigger] ws[i])
}

/// `w` would have produced every recorded feedback for its guess. Guesses and
/// feedback are paired by position; a guess without feedback imposes nothing.
pub open spec fn consistent(w: Word, guesses: Seq<Word>, feedback: Seq<Pattern>) -> bool {
    forall|i: int|
        0 <= i < guesses.len() && i < feedback.len() ==> pattern_of(guesses[i], w) == (
        #[trigger] feedback[i])@
}

/// The answers, in their order, that agree with the whole history.
pub open spec fn candidates(answers: Seq<Word>, guesses: Seq<Word>, feedback: Seq<Pattern>) -> Seq<
    Word,
> {
    answers.filter(|w: Word| consistent(w, guesses, feedback))
}

fn is_consistent(w: &Word, guesses: &Vec<Word>, feedback: &Vec<Pattern>) -> (r: bool)
    requires
        is_word(*w),
        all_words(guesses@),
    ensures
        r == consistent(*w, guesses@, feedback@),
{
    let mut i: usize = 0;
    while i < guesses.len() && i < feedback.len()
        invariant
            is_word(*w),
            all_words(guesses@),
            forall|k: int|
                0 <= k < i ==> pattern_of(guesses@[k], *w) == (#[trigger] feedback@[k])@,
        decreases guesses.len() - i,
    {
        if !matches_info(w, &guesses[i], &feedback[i]) {
            return false;
        }
        i = i + 1;
    }
    true
}

/// The answers that are consistent with every (guess, feedback) pair.
pub fn filter_possible_answers(
    answers: &Vec<Word>,
    guesses: &Vec<Word>,
    feedback: &Vec<Pattern>,
) -> (r: Vec<Word>)
    requires
        all_words(answers@),
        all_words(guesses@),
    ensures
        r@ == candidates(answers@, guesses@, feedback@),
{
    let ghost pred = |w: Word| consistent(w, guesses@, feedback@);
    let mut r: Vec<Word> = Vec::new();
    let mut i: usize = 0;
    while i < answers.len()
        invariant
            i <= answers.len(),
            all_words(answers@),
            all_words(guesses@),
            pred == (|w: Word| consistent(w, guesses@, feedback@)),
            r@ == answers@.subrange(0, i as int).filter(pred),
        decreases answers.len() - i,
    {
        let ok = is_consistent(&answers[i], guesses, feedback);
        proof {
            let s = answers@.subrange(0, i + 1);
            assert(s.drop_last() =~= answers@.subrange(0, i as int));
            reveal(Seq::filter);
        }
        if ok {
            r.push(answers[i]);
        }
        i = i + 1;
    }
    assert(answers@.subrange(0, answers@.len() as int) =~= answers@);
    r
}

/// How many of the first `n` pool members give `guess` the pattern `p`.
pub open spec fn pattern_count(guess: Word, pool: Seq<Word>, p: Seq<Info>, n: int) -> nat
    decreases n,
{
    if n <= 0 {
        0
    } else {
        pattern_count(guess, pool, p, n - 1) + if pattern_of(guess, pool[n - 1]) == p {
            1nat
        } else {
            0nat
        }
    }
}

/// Sum, over the first `n` pool members, of how many pool members share the
/// pattern that member gives `guess`.
pub open spec fn score_upto(guess: Word, pool: Seq<Word>, n: int) -> nat
    decreases n,
{
    if n <= 0 {
        0
    } else {
        score_upto(guess, pool, n - 1) + pattern_count(
            guess,
            pool,
            pattern_of(guess, pool[n - 1]),
            pool.len() as int,
        )
    }
}

/// The size of the pool times the expected number of pool members left after
/// guessing `guess`, the answer being drawn uniformly from the pool: that is,
/// the sum over the patterns of the square of each pattern's group size.
pub open spec fn score(guess: Word, pool: Seq<Word>) -> nat {
    score_upto(guess, pool, pool.len() as int)
}

spec fn digit(x: Info) -> nat {
    match x {
        Info::Green => 0,
        Info::Yellow => 1,
        Info::Grey => 2,
    }
}

/// A pattern read as a number in base three, first position lowest.
spec fn code(p: Seq<Info>) -> nat {
    digit(p[0]) + 3 * digit(p[1]) + 9 * digit(p[2]) + 27 * digit(p[3]) + 81 * digit(p[4])
}

proof fn lemma_code_injective(p: Seq<Info>, q: Seq<Info>)
    requires
        p.len() == 5,
        q.len() == 5,
        code(p) == code(q),
    ensures
        p == q,
{
    assert(digit(p[0]) == digit(q[0]));
    assert(digit(p[1]) == digit(q[1]));
    assert(digit(p[2]) == digit(q[2]));
    assert(digit(p[3]) == digit(q[3]));
    assert(p =~= q);
}

fn digit_of(x: Info) -> (r: usize)
    ensures
        r == digit(x),
{
    match x {
        Info::Green => 0,
        Info::Yellow => 1,
        Info::Grey => 2,
    }
}

fn pattern_code(p: &Pattern) -> (r: usize)
    ensures
        r == code(p@),
        r < 243,
{
    digit_of(p[0]) + 3 * digit_of(p[1]) + 9 * digit_of(p[2]) + 27 * digit_of(p[3]) + 81
        * digit_of(p[4])
}

proof fn lemma_pattern_count_bound(guess: Word, pool: Seq<Word>, p: Seq<Info>, n: int)
    requires
        0 <= n,
    ensures
        pattern_count(guess, pool, p, n) <= n,
    decreases n,
{
    if n > 0 {
        lemma_pattern_count_bound(guess, pool, p, n - 1);
    }
}

proof fn lemma_score_bound(guess: Word, pool: Seq<Word>, n: int)
    requires
        0 <= n <= pool.len(),
    ensures
        score_upto(guess, pool, n) <= n * pool.len(),
    decreases n,
{
    if n > 0 {
        lemma_score_bound(guess, pool, n - 1);
        lemma_pattern_count_bound(guess, pool, pattern_of(guess, pool[n - 1]), pool.len() as int);
        assert(n * pool.len() == (n - 1) * pool.len() + pool.len()) by (nonlinear_arith);
    }
}

/// Scores `guess` against the pool: the sum of the squared sizes of the groups
/// into which the pool's feedback patterns for `guess` split it.
pub fn score_guess(guess: &Word, pool: &Vec<Word>) -> (r: u128)
    requires
        is_word(*guess),
        all_words(pool@),
    ensures
        r == score(*guess, pool@),
{
    let n = pool.len();
    let mut counts: Vec<usize> = Vec::new();
    let mut c: usize = 0;
    while c < 243
        invariant
            c <= 243,
            counts@.len() == c,
            forall|k: int| 0 <= k < c ==> #[trigger] counts@[k] == 0,
        decreases 243 - c,
    {
        counts.push(0);
        c = c + 1;
    }
    let mut codes: Vec<usize> = Vec::new();
    let mut j: usize = 0;
    while j < n
        invariant
            j <= n,
            n == pool@.len(),
            is_word(*guess),
            all_words(pool@),
            counts@.len() == 243,
            codes@.len() == j,
            forall|k: int| 0 <= k < j ==> #[trigger] codes@[k] == code(pattern_of(*guess, pool@[k])),
            forall|q: Seq<Info>|
                q.len() == 5 ==> #[trigger] counts@[code(q) as int] == pattern_count(
                    *guess,
                    pool@,
                    q,
                    j as int,
                ),
        decreases n - j,
    {
        let p = get_feedback(guess, &pool[j]);
        let pc = pattern_code(&p);
        proof {
            lemma_pattern_count_bound(*guess, pool@, p@, j as int);
            assert(counts@[code(p@) as int] == pattern_count(*guess, pool@, p@, j as int));
        }
        let old_count = counts[pc];
        counts.set(pc, old_count + 1);
        codes.push(pc);
        proof {
            assert forall|q: Seq<Info>| q.len() == 5 implies #[trigger] counts@[code(q) as int]
                == pattern_count(*guess, pool@, q, j + 1) by {
                if q != p@ {
                    if code(q) == code(p@) {
                        lemma_code_injective(q, p@);
                    }
                }
            }
        }
        j = j + 1;
    }
    let mut total: u128 = 0;
    let mut i: usize = 0;
    while i < n
        invariant
            i <= n,
            n == pool@.len(),
            counts@.len() == 243,
            codes@.len() == n,
            forall|k: int| 0 <= k < n ==> #[trigger] codes@[k] == code(pattern_of(*guess, pool@[k])),
            forall|q: Seq<Info>|
                q.len() == 5 ==> #[trigger] counts@[code(q) as int] == pattern_count(
                    *guess,
                    pool@,
                    q,
                    n as int,
                ),
            total == score_upto(*guess, pool@, i as int),
        decreases n - i,
    {
        let ghost q = pattern_of(*guess, pool@[i as int]);
        proof {
            lemma_score_bound(*guess, pool@, i + 1);
            assert((i + 1) * n <= n * n) by (nonlinear_arith)
                requires
                    i < n,
            ;
            assert(n * n <= 0xffff_ffff_ffff_ffff * 0xffff_ffff_ffff_ffffnat) by (nonlinear_arith)
                requires
                    n <= 0xffff_ffff_ffff_ffffnat,
            ;
            assert(counts@[code(q) as int] == pattern_count(*guess, pool@, q, n as int));
        }
        total = total + counts[codes[i]] as u128;
        i = i + 1;
    }
    total
}

/// Lexicographic order on words, from position `i` on.
pub open spec fn word_lt_from(a: Word, b: Word, i: int) -> bool
    decreases 5 - i,
{
    if i >= 5 {
        false
    } else if a[i] != b[i] {
        a[i] < b[i]
    } else {
        word_lt_from(a, b, i + 1)
    }
}

/// `a` comes strictly before `b` in dictionary order.
pub open spec fn word_lt(a: Word, b: Word) -> bool {
    word_lt_from(a, b, 0)
}

/// `g` is a strictly better guess than `h` for the pool: a lower score, or an
/// equal score and an earlier word.
pub open spec fn better(g: Word, h: Word, pool: Seq<Word>) -> bool {
    score(g, pool) < score(h, pool) || (score(g, pool) == score(h, pool) && word_lt(g, h))
}

/// `w` is an allowed guess and no allowed guess is better for the pool.
pub open spec fn is_best_guess(w: Word, words: Seq<Word>, pool: Seq<Word>) -> bool {
    words.contains(w) && forall|i: int| 0 <= i < words.len() ==> !better(#[trigger] words[i], w, pool)
}

proof fn lemma_word_lt_transitive(a: Word, b: Word, c: Word, i: int)
    requires
        0 <= i,
        word_lt_from(a, b, i),
        word_lt_from(b, c, i),
    ensures
        word_lt_from(a, c, i),
    decreases 5 - i,
{
    if i < 5 && a[i] == b[i] && b[i] == c[i] {
        lemma_word_lt_transitive(a, b, c, i + 1);
    }
}

fn word_lt_exec(a: &Word, b: &Word) -> (r: bool)
    ensures
        r == word_lt(*a, *b),
{
    let mut i: usize = 0;
    while i < 5
        invariant
            i <= 5,
            word_lt(*a, *b) == word_lt_from(*a, *b, i as int),
        decreases 5 - i,
    {
        if a[i] != b[i] {
            return a[i] < b[i];
        }
        i = i + 1;
    }
    false
}

proof fn lemma_better_transitive(f: Word, g: Word, h: Word, pool: Seq<Word>)
    requires
        better(f, g, pool),
        better(g, h, pool),
    ensures
        better(f, h, pool),
{
    if word_lt(f, g) && word_lt(g, h) {
        lemma_word_lt_transitive(f, g, h, 0);
    }
}

/// The allowed guess with the lowest score for the pool, the earliest word
/// among equals.
fn select_guess(words: &Vec<Word>, pool: &Vec<Word>) -> (r: Word)
    requires
        words@.len() > 0,
        all_words(words@),
        all_words(pool@),
    ensures
        is_best_guess(r, words@, pool@),
{
    let mut best = words[0];
    let mut best_score = score_guess(&words[0], pool);
    proof {
        assert(words@.subrange(0, 1)[0] == best);
        lemma_word_lt_irreflexive(best, 0);
    }
    let mut i: usize = 1;
    while i < words.len()
        invariant
            1 <= i <= words.len(),
            all_words(words@),
            all_words(pool@),
            best_score == score(best, pool@),
            words@.subrange(0, i as int).contains(best),
            forall|k: int| 0 <= k < i ==> !better(#[trigger] words@[k], best, pool@),
        decreases words.len() - i,
    {
        let s = score_guess(&words[i], pool);
        if s < best_score || (s == best_score && word_lt_exec(&words[i], &best)) {
            proof {
                assert forall|k: int| 0 <= k < i + 1 implies !better(
                    #[trigger] words@[k],
                    words@[i as int],
                    pool@,
                ) by {
                    if k < i && better(words@[k], words@[i as int], pool@) {
                        lemma_better_transitive(words@[k], words@[i as int], best, pool@);
                    }
                    if k == i {
                        assert(!word_lt_from(words@[k], words@[k], 0)) by {
                            lemma_word_lt_irreflexive(words@[k], 0);
                        }
                    }
                }
                assert(words@.subrange(0, i + 1)[i as int] == words@[i as int]);
            }
            best = words[i];
            best_score = s;
        } else {
            proof {
                let j = choose|j: int| 0 <= j < i && words@.subrange(0, i as int)[j] == best;
                assert(words@.subrange(0, i + 1)[j] == best);
            }
        }
        i = i + 1;
    }
    proof {
        assert(words@.subrange(0, words@.len() as int) =~= words@);
    }
    best
}

proof fn lemma_word_lt_irreflexive(a: Word, i: int)
    ensures
        !word_lt_from(a, a, i),
    decreases 5 - i,
{
    if i < 5 {
        lemma_word_lt_irreflexive(a, i + 1);
    }
}

/// The guess to play next. With no feedback yet it is the fixed opener; when
/// exactly one answer agrees with the history it is that answer; when none
/// does the history is inconsistent; otherwise it is the allowed guess that
/// leaves the fewest answers on average, the earliest word among equals.
pub fn best_guess(
    words: &Vec<Word>,
    answers: &Vec<Word>,
    guesses: &Vec<Word>,
    feedback: &Vec<Pattern>,
) -> (r: Result<Word, SolveError>)
    requires
        feedback@.len() > 0 && candidates(answers@, guesses@, feedback@).len() > 1 ==> words@.len()
            > 0,
        all_words(words@),
        all_words(answers@),
        all_words(guesses@),
    ensures
        feedback@.len() == 0 ==> r is Ok && r->Ok_0@ == opener(),
        feedback@.len() > 0 ==> {
            let pool = candidates(answers@, guesses@, feedback@);
            &&& pool.len() == 0 <==> r == Err::<Word, SolveError>(SolveError::InconsistentHistory)
            &&& pool.len() == 1 ==> r == Ok::<Word, SolveError>(pool[0])
            &&& pool.len() > 1 ==> r is Ok && is_best_guess(r->Ok_0, words@, pool)
        },
{
    if feedback.len() == 0 {
        let w: Word = [114, 111, 97, 116, 101];
        assert(w@ =~= opener());
        return Ok(w);
    }
    let pool = filter_possible_answers(answers, guesses, feedback);
    if pool.len() == 1 {
        return Ok(pool[0]);
    }
    if pool.len() == 0 {
        return Err(SolveError::InconsistentHistory);
    }
    proof {
        let pred = |w: Word| consistent(w, guesses@, feedback@);
        assert forall|i: int| 0 <= i < pool@.len() implies is_word(#[trigger] pool@[i]) by {
            assert(answers@.filter(pred)[i] == pool@[i]);
            answers@.lemma_filter_contains_rev(pred, pool@[i]);
        }
    }
    Ok(select_guess(words, &pool))
}

proof fn lemma_filter_stronger_shorter(
    s: Seq<Word>,
    strong: spec_fn(Word) -> bool,
    weak: spec_fn(Word) -> bool,
)
    requires
        forall|w: Word| #[trigger] strong(w) ==> weak(w),
    ensures
        s.filter(strong).len() <= s.filter(weak).len(),
    decreases s.len(),
{
    reveal(Seq::filter);
    if s.len() > 0 {
        lemma_filter_stronger_shorter(s.drop_last(), strong, weak);
    }
}

/// Recording one more round never enlarges the set of remaining answers.
pub proof fn lemma_filter_monotone(
    answers: Seq<Word>,
    guesses: Seq<Word>,
    feedback: Seq<Pattern>,
    guess: Word,
    pattern: Pattern,
)
    requires
        guesses.len() == feedback.len(),
    ensures
        candidates(answers, guesses.push(guess), feedback.push(pattern)).len() <= candidates(
            answers,
            guesses,
            feedback,
        ).len(),
{
    let strong = |w: Word| consistent(w, guesses.push(guess), feedback.push(pattern));
    let weak = |w: Word| consistent(w, guesses, feedback);
    assert forall|w: Word| #[trigger] strong(w) implies weak(w) by {
        assert forall|i: int| 0 <= i < guesses.len() && i < feedback.len() implies pattern_of(
            guesses[i],
            w,
        ) == (#[trigger] feedback[i])@ by {
            assert(guesses.push(guess)[i] == guesses[i]);
            assert(feedback.push(pattern)[i] == feedback[i]);
        }
    }
    lemma_filter_stronger_shorter(answers, strong, weak);
}

proof fn lemma_word_lt_total(a: Word, b: Word, i: int)
    requires
        0 <= i <= 5,
        !word_lt_from(a, b, i),
        !word_lt_from(b, a, i),
    ensures
        forall|k: int| i <= k < 5 ==> a[k] == b[k],
    decreases 5 - i,
{
    if i < 5 {
        lemma_word_lt_total(a, b, i + 1);
    }
}

/// The best guess for a pool is unique, so the choice never depends on
/// anything but the allowed words and the pool.
pub proof fn lemma_best_guess_unique(w1: Word, w2: Word, words: Seq<Word>, pool: Seq<Word>)
    requires
        is_best_guess(w1, words, pool),
        is_best_guess(w2, words, pool),
    ensures
        w1 == w2,
{
    let i1 = choose|i: int| 0 <= i < words.len() && words[i] == w1;
    let i2 = choose|i: int| 0 <= i < words.len() && words[i] == w2;
    assert(!better(words[i1], w2, pool));
    assert(!better(words[i2], w1, pool));
    lemma_word_lt_total(w1, w2, 0);
    assert(w1@ =~= w2@);
    assert(w1 =~= w2);
}

/// Adding a round to a history that admits no answer leaves it admitting none;
/// adding one to a history that admits a single answer leaves at most that
/// answer.
pub proof fn lemma_extended_history(
    answers: Seq<Word>,
    guesses: Seq<Word>,
    feedback: Seq<Pattern>,
    guess: Word,
    pattern: Pattern,
)
    requires
        guesses.len() == feedback.len(),
    ensures
        candidates(answers, guesses, feedback).len() == 0 ==> candidates(
            answers,
            guesses.push(guess),
            feedback.push(pattern),
        ).len() == 0,
        candidates(answers, guesses, feedback).len() == 1 ==> {
            let ext = candidates(answers, guesses.push(guess), feedback.push(pattern));
            ext.len() == 0 || ext == candidates(answers, guesses, feedback)
        },
{
    lemma_filter_monotone(answers, guesses, feedback, guess, pattern);
    let strong = |w: Word| consistent(w, guesses.push(guess), feedback.push(pattern));
    let weak = |w: Word| consistent(w, guesses, feedback);
    let pool = candidates(answers, guesses, feedback);
    let ext = candidates(answers, guesses.push(guess), feedback.push(pattern));
    if pool.len() == 1 && ext.len() == 1 {
        let x = ext[0];
        assert(ext.contains(x));
        answers.lemma_filter_contains_rev(strong, x);
        answers.lemma_filter_pred(strong, 0);
        let i = choose|i: int| 0 <= i < answers.len() && answers[i] == x;
        assert forall|k: int| 0 <= k < guesses.len() && k < feedback.len() implies pattern_of(
            guesses[k],
            x,
        ) == (#[trigger] feedback[k])@ by {
            assert(guesses.push(guess)[k] == guesses[k]);
            assert(feedback.push(pattern)[k] == feedback[k]);
        }
        answers.lemma_filter_contains(weak, i);
        assert(pool.contains(x));
        assert(ext =~= pool);
    }
}

} // verus!
