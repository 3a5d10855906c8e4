use wordle_solver::feedback::{get_feedback, matches_info, parse_feedback, Info, Pattern, Word};
use wordle_solver::solver::{best_guess, filter_possible_answers, score_guess, SolveError};
use wordle_solver::words::{get_words, is_valid_word};

use Info::{Green, Grey, Yellow};

fn to_word(s: &str) -> Word {
    let b = s.as_bytes();
    [b[0], b[1], b[2], b[3], b[4]]
}

fn pat_str(p: Pattern) -> String {
    p.iter()
        .map(|c| match c {
            Info::Green => 'G',
            Info::Yellow => 'Y',
            Info::Grey => 'B',
        })
        .collect()
}

#[test]
fn all_green_when_same_word() {
    let guess = to_word("crane");
    let answer = to_word("crane");
    let p = get_feedback(&guess, &answer);
    assert_eq!(p, [Green; 5]);
}

#[test]
fn no_matches_all_grey() {
    let guess = to_word("spout");
    let answer = to_word("crane"); // no shared letters
    let p = get_feedback(&guess, &answer);
    assert_eq!(p, [Info::Grey; 5]);
}

#[test]
fn duplicated_letters_example_alee_eagle() {
    // guess "allee", answer "eagle" -> Y Y B Y G
    let guess = to_word("allee");
    let answer = to_word("eagle");
    let p = get_feedback(&guess, &answer);
    let expected = [Info::Yellow, Info::Yellow, Info::Grey, Info::Yellow, Info::Green];
    assert_eq!(p, expected, "got {} expected {}", pat_str(p), pat_str(expected));
}

#[test]
fn allee_vs_eagle_duplicates_in_guess() {
    // guess "allee", answer "eagle" -> Y Y B Y G
    let guess = to_word("allee");
    let answer = to_word("eagle");
    let p = get_feedback(&guess, &answer);
    let expected = [Info::Yellow, Info::Yellow, Info::Grey, Info::Yellow, Info::Green];
    assert_eq!(p, expected, "got {} expected {}", pat_str(p), pat_str(expected));
}

#[test]
fn mixed_example_soare_vs_crane() {
    // guess "soare", answer "crane" -> B B G Y G
    let guess = to_word("soare");
    let answer = to_word("crane");
    let p = get_feedback(&guess, &answer);
    let expected = [Info::Grey, Info::Grey, Info::Green, Info::Yellow, Info::Green];
    assert_eq!(p, expected, "got {} expected {}", pat_str(p), pat_str(expected));
}

#[test]
fn matches_info_should_return_true_for_valid_candidate() {
    let guess = to_word("soare");
    let candidate = to_word("crane");
    let info = get_feedback(&guess, &candidate); // soare -> B B G Y G
    let expected = [Info::Grey, Info::Grey, Info::Green, Info::Yellow, Info::Green];
    assert_eq!(info, expected, "computed feedback must match the expected pattern");
    assert!(
        matches_info(&candidate, &guess, &info),
        "'crane' should be a valid candidate for guess 'soare' with the computed feedback"
    );
}

#[test]
fn matches_info_should_return_false_for_invalid_candidate() {
    let guess = to_word("soare");
    let valid_candidate = to_word("crane");
    let invalid_candidate = to_word("spout");
    let info = get_feedback(&guess, &valid_candidate); // soare -> B B G Y G
    assert!(
        !matches_info(&invalid_candidate, &guess, &info),
        "'spout' should NOT be a valid candidate for guess 'soare' with the computed feedback"
    );
}

#[test]
fn matches_info_with_duplicates_in_guess() {
    let guess = to_word("allee");
    let candidate = to_word("eagle");
    let info = get_feedback(&guess, &candidate); // expect Y Y B Y G
    let expected = [Info::Yellow, Info::Yellow, Info::Grey, Info::Yellow, Info::Green];
    assert_eq!(
        info, expected,
        "computed feedback for duplicated-letters case must match expected"
    );
    assert!(
        matches_info(&candidate, &guess, &info),
        "'eagle' should be a valid candidate for guess 'allee' with the computed feedback"
    );
}

#[test]
fn identity_is_all_green_for_repeated_letters() {
    let w = to_word("mamma");
    assert_eq!(get_feedback(&w, &w), [Green; 5]);
}

#[test]
fn membership_rejects_any_other_pattern() {
    let guess = to_word("allee");
    let answer = to_word("eagle");
    let p = get_feedback(&guess, &answer);
    assert!(matches_info(&answer, &guess, &p));
    let mut other = p;
    other[2] = Yellow;
    assert!(!matches_info(&answer, &guess, &other));
}

#[test]
fn extra_copies_in_guess_go_grey_from_the_left() {
    // "speed" against "abide": one e in the answer, claimed by the first e
    let p = get_feedback(&to_word("speed"), &to_word("abide"));
    assert_eq!(p, [Grey, Grey, Yellow, Grey, Yellow]);
}

fn words(list: &[&str]) -> Vec<Word> {
    list.iter().map(|s| to_word(s)).collect()
}

#[test]
fn empty_history_gives_opener() {
    let allowed = words(&["crane", "slate"]);
    let answers: Vec<Word> = Vec::new();
    let r = best_guess(&allowed, &answers, &Vec::new(), &Vec::new());
    assert_eq!(r, Ok(to_word("roate")));
}

#[test]
fn single_candidate_is_returned() {
    let allowed = words(&["zzzzz", "crane"]);
    let answers = words(&["crane", "slate", "spout"]);
    // "crane" against "crane" is all green: only crane stays
    let r = best_guess(&allowed, &answers, &words(&["crane"]), &vec![[Green; 5]]);
    assert_eq!(r, Ok(to_word("crane")));
}

#[test]
fn contradictory_history_is_inconsistent() {
    let allowed = words(&["crane", "slate"]);
    let answers = words(&["crane", "slate", "spout"]);
    let guesses = words(&["crane", "crane"]);
    let feedback = vec![[Green; 5], [Grey; 5]];
    let r = best_guess(&allowed, &answers, &guesses, &feedback);
    assert_eq!(r, Err(SolveError::InconsistentHistory));
}

#[test]
fn best_guess_minimises_score_with_lexicographic_ties() {
    let allowed = words(&["zzzzz", "bbbbb", "abbbb"]);
    let answers = words(&["abbbb", "bbbbb", "zzzzy"]);
    let guesses = words(&["zzzzz"]);
    let feedback = vec![[Grey; 5]];
    let pool = filter_possible_answers(&answers, &guesses, &feedback);
    assert_eq!(pool, words(&["abbbb", "bbbbb"]));
    assert_eq!(score_guess(&to_word("zzzzz"), &pool), 4);
    assert_eq!(score_guess(&to_word("bbbbb"), &pool), 2);
    assert_eq!(score_guess(&to_word("abbbb"), &pool), 2);
    let r = best_guess(&allowed, &answers, &guesses, &feedback);
    assert_eq!(r, Ok(to_word("abbbb")));
}

#[test]
fn best_guess_is_repeatable() {
    let allowed = words(&["crane", "slate", "trace", "caret", "react"]);
    let answers = words(&["crate", "trace", "caret", "react", "cater"]);
    let guesses = words(&["slate"]);
    let feedback = vec![get_feedback(&to_word("slate"), &to_word("trace"))];
    let first = best_guess(&allowed, &answers, &guesses, &feedback);
    let second = best_guess(&allowed, &answers, &guesses, &feedback);
    assert!(first.is_ok());
    assert_eq!(first, second);
}

#[test]
fn score_counts_squared_group_sizes() {
    let pool = words(&["crane", "crate", "trace", "spout"]);
    // against "crane": crane GGGGG, crate GGGBG, trace YYGYG, spout BBBBB
    assert_eq!(score_guess(&to_word("crane"), &pool), 4);
    // "zzzzz" leaves all four in one group
    assert_eq!(score_guess(&to_word("zzzzz"), &pool), 16);
}

#[test]
fn filter_shrinks_with_more_rounds() {
    let answers = words(&["crane", "crate", "trace", "spout", "slate"]);
    let g1 = to_word("spout");
    let f1 = get_feedback(&g1, &to_word("crate"));
    let one = filter_possible_answers(&answers, &vec![g1], &vec![f1]);
    assert_eq!(one, words(&["crate", "trace"]));
    let g2 = to_word("crane");
    let f2 = get_feedback(&g2, &to_word("crate"));
    let two = filter_possible_answers(&answers, &vec![g1, g2], &vec![f1, f2]);
    assert_eq!(two, words(&["crate"]));
    assert!(two.len() <= one.len());
    let none = filter_possible_answers(&answers, &Vec::new(), &Vec::new());
    assert_eq!(none, answers);
}

#[test]
fn word_list_is_trimmed_lowered_and_deduplicated() {
    let text = " Crane\r\nslate\n\nabc\ncrane\nto ol\nsl4te\nSPOUT";
    assert_eq!(get_words(text), words(&["crane", "slate", "spout"]));
    assert!(get_words("").is_empty());
    assert_eq!(get_words("crane\n"), words(&["crane"]));
}

#[test]
fn valid_word_must_be_listed_and_five_bytes() {
    let list = words(&["crane", "slate"]);
    assert!(is_valid_word("crane", &list));
    assert!(!is_valid_word("spout", &list));
    assert!(!is_valid_word("cran", &list));
    assert!(!is_valid_word("cranes", &list));
}

#[test]
fn feedback_code_parsing() {
    assert_eq!(parse_feedback(" g y B b\tG\n"), Some([Green, Yellow, Grey, Grey, Green]));
    assert_eq!(parse_feedback("bbgyg"), Some([Grey, Grey, Green, Yellow, Green]));
    assert_eq!(parse_feedback("GGGG"), None);
    assert_eq!(parse_feedback("GGGGGG"), None);
    assert_eq!(parse_feedback("GGGGX"), None);
}

#[test]
fn feedback_code_ignores_unicode_whitespace() {
    assert_eq!(parse_feedback("\u{a0}ggggg"), Some([Green; 5]));
    assert_eq!(parse_feedback("G\u{3000}G\u{2009}GGG\u{85}"), Some([Green; 5]));
    assert_eq!(parse_feedback("GGGG\u{e9}"), None);
}

#[test]
fn word_list_trims_unicode_whitespace() {
    let text = "crane\u{a0}\n\u{2003}Slate\r\ncr\u{a0}ne\n";
    assert_eq!(get_words(text), words(&["crane", "slate"]));
}

#[test]
fn opener_and_single_candidate_need_no_allowed_words() {
    let allowed: Vec<Word> = Vec::new();
    let answers = words(&["crane", "slate"]);
    assert_eq!(best_guess(&allowed, &answers, &Vec::new(), &Vec::new()), Ok(to_word("roate")));
    let r = best_guess(&allowed, &answers, &words(&["crane"]), &vec![[Green; 5]]);
    assert_eq!(r, Ok(to_word("crane")));
    let r = best_guess(&allowed, &answers, &words(&["crane"]), &vec![[Yellow; 5]]);
    assert_eq!(r, Err(SolveError::InconsistentHistory));
}
