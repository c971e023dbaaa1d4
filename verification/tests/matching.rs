use navidrome_import::matching::{
    artist_of, best_match, keep_ascii, keep_words, key, max_possible_ratio, norm, ratio,
    replace_dashes, token_sort, token_sort_ratio, Score, WHOLE,
};
use navidrome_import::model::norm_isrc;

fn percent(score: Score) -> f64 {
    100.0 * score.matched as f64 / score.total as f64
}

#[test]
fn norm_folds_accents_and_case() {
    assert_eq!(norm("Beyoncé"), "beyonce");
    assert_eq!(norm("Don't Stop"), "don t stop");
}

#[test]
fn norm_strips_feat_and_remaster_noise() {
    assert_eq!(norm("Empire State of Mind (feat. Alicia Keys)"), "empire state of mind");
    assert_eq!(norm("Come Together - 2019 Remaster"), "come together");
}

#[test]
fn norm_keeps_hyphens_that_are_not_suffixes() {
    // No noise keyword after the dash, so the title survives intact.
    assert_eq!(norm("Jack-in-the-Box"), "jack in the box");
}

#[test]
fn token_sort_ratio_ignores_word_order() {
    assert_eq!(percent(token_sort_ratio("simon garfunkel", "garfunkel simon")), 100.0);
}

#[test]
fn length_bound_never_rejects_a_real_match() {
    // The prefilter must be conservative: whenever it prunes, the true score really was below the
    // cutoff.
    let pairs = [("hello world", "hello world!"), ("abc", "abcdefghij")];
    for (a, b) in pairs {
        let bound = max_possible_ratio(a.chars().count(), b.chars().count());
        assert!(percent(ratio(a, b)) <= percent(bound) + 1e-9, "{a} vs {b}");
    }
}

#[test]
fn best_match_respects_cutoff() {
    let cands = vec!["ice cube|it was a good day".to_string()];
    assert!(best_match("ice cube|it was a good day", &cands, 88_000_000_000).is_some());
    assert!(best_match("nirvana|smells like teen spirit", &cands, 88_000_000_000).is_none());
}

#[test]
fn empty_text_is_its_own_normal_form() {
    assert_eq!(norm(""), "");
    assert_eq!(norm("  - ! "), "");
}

#[test]
fn plain_text_keeps_all_its_words() {
    assert_eq!(norm("Radio Edit, feat. Someone!"), "radio edit feat someone");
    assert_eq!(norm("  2019 REMASTER) "), "2019 remaster");
    assert_eq!(norm("?!*"), "");
}

#[test]
fn normal_form_stays_as_it_is() {
    for text in ["Beyoncé – Halo (Live)", "AC/DC", "Ünïcode Tést", "one two", ""] {
        let once = norm(text);
        assert_eq!(norm(&once), once);
    }
}

#[test]
fn en_dash_remaster_is_stripped() {
    assert_eq!(norm("Yellow Submarine \u{2013} 2011 Remaster"), "yellow submarine");
    assert_eq!(replace_dashes("a\u{2010}b\u{2015}c\u{2212}d\u{fe58}e\u{ff0d}f"), "a-b-c-d-e-f");
}

#[test]
fn every_kind_of_bracket_noise_is_stripped() {
    assert_eq!(norm("Song [with Someone]"), "song");
    assert_eq!(norm("Song (Ft. Someone) Two"), "song two");
    assert_eq!(norm("Canción (con Alguien)"), "cancion");
    assert_eq!(norm("Song (Live)"), "song live");
}

#[test]
fn suffix_noise_needs_a_keyword() {
    assert_eq!(norm("Song - Radio Edit"), "song");
    assert_eq!(norm("Song - Mono"), "song");
    assert_eq!(norm("Song - Part Two"), "song part two");
}

#[test]
fn ligatures_and_wide_letters_decompose() {
    assert_eq!(norm("\u{fb01}nal \u{ff21}\u{ff22}"), "final ab");
    assert_eq!(norm("日本"), "");
}

#[test]
fn folding_drops_what_is_not_ascii() {
    assert_eq!(keep_ascii("AbC\u{301}Z"), "abcz");
    assert_eq!(keep_words("  a--b c!"), "a b c");
}

#[test]
fn key_joins_the_normal_forms() {
    assert_eq!(key("Ice Cube", "It Was A Good Day"), "ice cube|it was a good day");
    assert_eq!(key("", "Intro"), "|intro");
    assert_eq!(key("AC/DC", ""), "ac dc|");
}

#[test]
fn artist_half_ends_at_the_first_bar() {
    assert_eq!(artist_of("ice cube|it was a good day"), "ice cube");
    assert_eq!(artist_of("a|b|c"), "a");
    assert_eq!(artist_of("nothing"), "nothing");
    assert_eq!(artist_of(""), "");
}

#[test]
fn words_are_sorted() {
    assert_eq!(token_sort("the  quick\tbrown fox"), "brown fox quick the");
    assert_eq!(token_sort("b a b"), "a b b");
    assert_eq!(token_sort("   "), "");
}

#[test]
fn similarity_counts_the_common_subsequence() {
    let score = ratio("abcd", "acbd");
    assert_eq!((score.matched, score.total), (6, 8));
    let score = ratio("abc", "xyz");
    assert_eq!((score.matched, score.total), (0, 6));
    let score = ratio("", "");
    assert_eq!(score.matched, score.total);
    let score = ratio("é", "e");
    assert_eq!((score.matched, score.total), (0, 2));
}

#[test]
fn length_bound_has_an_exact_value() {
    let bound = max_possible_ratio(3, 10);
    assert_eq!((bound.matched, bound.total), (6, 13));
    let bound = max_possible_ratio(0, 0);
    assert_eq!(bound.matched, bound.total);
}

#[test]
fn scores_compare_as_fractions() {
    let half = Score { matched: 2, total: 4 };
    let third = Score { matched: 1, total: 3 };
    assert!(third.less(half));
    assert!(!half.less(third));
    assert!(!half.less(Score { matched: 1, total: 2 }));
    assert!(half.reaches(50_000_000_000));
    assert!(!half.reaches(50_000_000_001));
    assert!(Score { matched: 7, total: 7 }.reaches(WHOLE));
}

#[test]
fn best_match_is_the_first_of_the_best() {
    let cands: Vec<String> = ["a b|x z", "b a|x y", "a b|x y"].iter().map(|s| s.to_string()).collect();
    let (found, score) = best_match("a b|x y", &cands, 0).unwrap();
    assert_eq!(found, "a b|x y");
    assert_eq!(score.matched, score.total);
    let twice: Vec<String> = ["one two", "two one"].iter().map(|s| s.to_string()).collect();
    let (found, _) = best_match("two one", &twice, WHOLE).unwrap();
    assert_eq!(found, "one two");
    assert!(best_match("anything", &Vec::new(), 0).is_none());
}

#[test]
fn best_match_takes_a_score_equal_to_the_cutoff() {
    // Twice two common characters out of five.
    let cands = vec!["abc".to_string()];
    assert!(best_match("ab", &cands, 80_000_000_000).is_some());
    assert!(best_match("ab", &cands, 80_000_000_001).is_none());
}

#[test]
fn isrc_grouping_and_case_are_ignored() {
    assert_eq!(norm_isrc("US-RC1-23-45678"), "USRC12345678");
    assert_eq!(norm_isrc(" usrc12345678 "), "USRC12345678");
    assert_eq!(norm_isrc("ü--"), "");
}
