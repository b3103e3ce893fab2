use wlh2ipawlh::levenshtein::levenshtein;
use wlh2ipawlh::scoring::{calculate_jaro_like_score, score_substring};
use wlh2ipawlh::utils::{get_best_levenshtein, get_language, has_language_hint};

fn chars(s: &str) -> Vec<char> {
    s.chars().collect()
}

#[test]
fn language_from_filename() {
    assert_eq!(get_language("words_pl.txt"), "zlw/pl");
    assert_eq!(get_language("cs_wordlist"), "zlw/cs");
    assert_eq!(get_language("my_sk_data.txt"), "zlw/sk");
    assert_eq!(get_language("uk.txt"), "zle/uk");
    assert_eq!(get_language("ru-words"), "zle/ru");
    assert_eq!(get_language("wordssh"), "zls/hr");
}

#[test]
fn language_heuristic_lowercases_first() {
    // Fails if lowercasing handed the name back unchanged: an uppercase
    // hint would then not be found.
    assert_eq!(get_language("WORDS_PL.TXT"), "zlw/pl");
    assert_eq!(get_language("UK.TXT"), "zle/uk");
}

#[test]
fn language_defaults_without_a_hint() {
    assert_eq!(get_language("foo.txt"), "zlw/cs");
    assert!(!has_language_hint("foo.txt"));
    assert!(has_language_hint("words_pl.txt"));
}

#[test]
fn levenshtein_exact_values() {
    assert_eq!(levenshtein(&chars("kitten"), &chars("sitting")), 3);
    assert_eq!(levenshtein(&chars(""), &chars("abc")), 3);
    assert_eq!(levenshtein(&chars("abc"), &chars("abc")), 0);
    assert_eq!(levenshtein(&chars("flaw"), &chars("lawn")), 2);
}

#[test]
fn best_levenshtein_keeps_the_closest() {
    let cands = vec!["abc".to_string(), "abd".to_string(), "xyz".to_string()];
    assert_eq!(get_best_levenshtein(&cands, "abc"), vec!["abc".to_string()]);
}

#[test]
fn best_levenshtein_keeps_ties_in_order() {
    let cands = vec!["abd".to_string(), "abx".to_string()];
    assert_eq!(
        get_best_levenshtein(&cands, "abc"),
        vec!["abd".to_string(), "abx".to_string()]
    );
}

#[test]
fn best_levenshtein_of_nothing_is_nothing() {
    let cands: Vec<String> = Vec::new();
    assert!(get_best_levenshtein(&cands, "abc").is_empty());
}

#[test]
fn substring_overlap_counts_membership() {
    assert_eq!(score_substring("abc", "cab"), 3);
    assert_eq!(score_substring("aab", "ab"), 3);
    assert_eq!(score_substring("xyz", "abc"), 0);
    assert_eq!(score_substring("", "abc"), 0);
}

#[test]
fn similarity_score_sums_boundary_overlaps() {
    // One boundary pair, fully matching neighbourhoods on both sides.
    assert_eq!(calculate_jaro_like_score("ab-cd", "ab-cd"), 4);
    // Unmarked words have no boundary pair to score.
    assert_eq!(calculate_jaro_like_score("abcd", "abcd"), 0);
    // Order inside a neighbourhood does not matter.
    assert_eq!(calculate_jaro_like_score("ab-cd", "ba-dc"), 4);
}
