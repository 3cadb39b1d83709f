use fuzzy_score::score;
use fuzzy_score::Score;

/// The floating-point relevance score that callers rank by.
fn score_value(choice: &str, query: &str) -> f64 {
    match score(choice, query) {
        Score::EmptyQuery => 1.0,
        Score::NoMatch => 0.0,
        Score::Matched { query_len, match_length, choice_len } => {
            (query_len as f64 / match_length as f64) / choice_len as f64
        },
    }
}

#[test]
fn test_scores_zero_when_choice_is_empty() {
    assert!(score_value("", "a") == 0.0);
}

#[test]
fn test_scores_one_when_query_is_empty() {
    assert!(score_value("a", "") == 1.0);
}

#[test]
fn test_scores_zero_when_the_query_longer_than_choice() {
    assert!(score_value("short", "longer") == 0.0);
}

#[test]
fn test_scores_zero_when_query_does_not_match_at_all() {
    assert!(score_value("a", "b") == 0.0);
}

#[test]
fn test_scores_zero_when_only_prefix_of_query_matches() {
    assert!(score_value("ab", "ac") == 0.0);
}

#[test]
fn test_scores_greater_than_zero_when_matches() {
    let given_choices: Vec<&str> = vec!["a", "ab", "ba", "bab"];

    for choice in given_choices.iter() {
        assert!(score_value(*choice, "a") > 0.0);
    }

    assert!(score_value("babababab", "aaaa") > 0.0);
}

#[test]
fn test_scores_1_normalized_to_length_when_the_query_equals_choice() {
    assert!(score_value("a", "a") == 1.0);
    assert!(score_value("ab", "ab") == 0.5);
    assert!(score_value("a long string", "a long string") == 1.0 / "a long string".len() as f64);
    assert!(score_value("spec/search_spec.rb", "sear") == 1.0 / "spec/search_spec.rb".len() as f64);
}

#[test]
fn test_matches_punctuation() {
    assert!(score_value("/! symbols $^", "/!$^") > 0.0);
}

#[test]
fn test_is_case_insensitive() {
    assert!(score_value("a", "A") == 1.0);
    assert!(score_value("A", "a") == 1.0);
}

#[test]
fn test_does_not_match_when_same_letter_is_repeated_in_choice() {
    assert!(score_value("a", "aa") == 0.0);
}

#[test]
fn test_scores_higher_for_better_matches() {
    assert!(score_value("selecta.gemspec", "asp") > score_value("algorithm4_spec.rb", "asp"));
    assert!(score_value("README.md", "em") > score_value("benchmark.rb", "em"));
    assert!(score_value("search.rb", "sear") > score_value("spec/search_spec.rb", "sear"));
}

#[test]
fn test_scores_shorter_matches_higher() {
    assert!(score_value("fbb", "fbb") > score_value("foo bar baz", "fbb"));
    assert!(score_value("foo", "foo") > score_value("longer foo", "foo"));
    assert!(score_value("foo", "foo") > score_value("foo longer", "foo"));
    assert!(score_value("1/2/3/4", "1/2/3") > score_value("1/9/2/3/4", "1/2/3"));
}

#[test]
fn test_sometimes_score_longer_strings_higher_if_better_match() {
    assert!(score_value("long 12 long", "12") > score_value("1 long 2", "12"));
}

#[test]
fn test_scores_higher_of_two_matches_regardless_of_order() {
    let tight = "12";
    let loose = "1padding2";
    let expect1 = tight.to_string() + loose;
    let expect2 = loose.to_string() + tight;

    assert!(score_value(expect1.as_ref(), "12") == 1.0 / expect1.len() as f64);
    assert!(score_value(expect2.as_ref(), "12") == 1.0 / expect2.len() as f64);
}

#[test]
fn test_empty_query_on_empty_choice_scores_one() {
    assert!(score_value("", "") == 1.0);
    assert!(matches!(score("", ""), Score::EmptyQuery));
}

#[test]
fn test_case_insensitivity_mixes_both_ways() {
    assert!(score_value("FooBar", "fb") == score_value("foobar", "fb"));
    assert!(score_value("FooBar", "fb") == score_value("FOOBAR", "FB"));
    assert!(score_value("SeArCh.Rb", "sEaR") == score_value("search.rb", "sear"));
}

#[test]
fn test_case_folding_is_ascii_only() {
    // Non-ASCII characters are not case-folded, by design.
    assert!(score_value("\u{c9}", "\u{e9}") == 0.0);
    assert!(score_value("\u{e9}", "\u{e9}") == 1.0);
}

#[test]
fn test_lengths_are_counted_in_characters() {
    // One two-byte character counts once.
    assert!(score_value("\u{e9}a", "a") == 0.5);
}

#[test]
fn test_matched_components_of_a_tight_match() {
    match score("ab", "ab") {
        Score::Matched { query_len, match_length, choice_len } => {
            assert_eq!(query_len, 2);
            assert_eq!(match_length, 2);
            assert_eq!(choice_len, 2);
        },
        _ => panic!("expected a match"),
    }
}

#[test]
fn test_match_length_is_the_minimum_over_starts() {
    // Starts at index 0 and 2; the tight span starts at 2.
    match score("axab", "ab") {
        Score::Matched { query_len, match_length, choice_len } => {
            assert_eq!(query_len, 2);
            assert_eq!(match_length, 2);
            assert_eq!(choice_len, 4);
        },
        _ => panic!("expected a match"),
    }
}

#[test]
fn test_find_from_offset_returns_first_occurrence_at_or_after() {
    let h: Vec<char> = "abcabc".chars().collect();
    assert_eq!(fuzzy_score::find_from_offset(&h, 'b', 0), Some(1));
    assert_eq!(fuzzy_score::find_from_offset(&h, 'b', 2), Some(4));
    assert_eq!(fuzzy_score::find_from_offset(&h, 'b', 5), None);
    assert_eq!(fuzzy_score::find_from_offset(&h, 'z', 0), None);
}

#[test]
fn test_find_char_in_string_returns_all_indexes_ascending() {
    let h: Vec<char> = "abcabc".chars().collect();
    assert_eq!(fuzzy_score::find_char_in_string(&h, 'a'), vec![0, 3]);
    assert_eq!(fuzzy_score::find_char_in_string(&h, 'c'), vec![2, 5]);
    assert_eq!(fuzzy_score::find_char_in_string(&h, 'z'), Vec::<usize>::new());
}

#[test]
fn test_find_end_of_match_is_greedy_and_strictly_forward() {
    let h: Vec<char> = "abab".chars().collect();
    // After consuming index 0, 'a' must be found strictly later: index 2.
    assert_eq!(fuzzy_score::find_end_of_match(&h, &['a'], 0), Some(2));
    // Leftmost continuation: 'b' at 1, then 'a' at 2.
    assert_eq!(fuzzy_score::find_end_of_match(&h, &['b', 'a'], 0), Some(2));
    // No further 'b' strictly after the last one.
    assert_eq!(fuzzy_score::find_end_of_match(&h, &['b', 'b'], 2), None);
    // An empty needle list ends where it started.
    assert_eq!(fuzzy_score::find_end_of_match(&h, &[], 1), Some(1));
}

#[test]
fn test_compute_match_length_minimises_over_starts() {
    let h: Vec<char> = "axab".chars().collect();
    assert_eq!(fuzzy_score::compute_match_length(&h, &['a', 'b']), Some(2));
    let h2: Vec<char> = "a longer x".chars().collect();
    assert_eq!(fuzzy_score::compute_match_length(&h2, &['a', 'x']), Some(10));
    assert_eq!(fuzzy_score::compute_match_length(&h2, &['x', 'a']), None);
}

#[test]
fn test_lower_chars_folds_ascii_only() {
    let folded = fuzzy_score::lower_chars(&['A', 'z', '!', '\u{c9}']);
    assert_eq!(folded, vec!['a', 'z', '!', '\u{c9}']);
}

#[test]
fn test_padding_never_increases_score() {
    // A non-matching character inserted between matched characters.
    assert!(score_value("fob", "fb") > score_value("fxob", "fb"));
    // A non-matching character appended after the match.
    assert!(score_value("fb", "fb") > score_value("fbx", "fb"));
    // A non-matching character prepended before the match.
    assert!(score_value("fb", "fb") > score_value("xfb", "fb"));
}

#[test]
fn test_repeated_needle_requires_distinct_positions() {
    assert!(score_value("aa", "aa") == 0.5);
    assert!(score_value("aba", "aa") > 0.0);
    assert!(score_value("ab", "aa") == 0.0);
}
