use wlh2ipawlh::candidates::{generate_candidates, insert_hyphens};
use wlh2ipawlh::transform_hyphens::{transfer_candidates, transform, transform_with_resynthesis};

fn chars(s: &str) -> Vec<char> {
    s.chars().collect()
}

#[test]
fn zero_markers_returns_target_unchanged() {
    assert_eq!(transform("nebojsa", "nebojsa"), "nebojsa");
    assert_eq!(transform("graphics", "ɡrˈafiks"), "ɡrˈafiks");
}

#[test]
fn resynthesis_strategy_picks_among_the_survivors() {
    let survivors = transfer_candidates("sek-cja", "sˈɛktsja");
    assert!(survivors.len() >= 2);
    let parts = vec!["sˈɛk".to_string(), "tsjˈa".to_string()];
    let picked = transform_with_resynthesis("sek-cja", "sˈɛktsja", &parts);
    assert!(survivors.contains(&picked));
    assert_eq!(picked.matches('-').count(), 1);
    assert_eq!(picked.replace('-', ""), "sˈɛktsja");
}

#[test]
fn marker_count_is_preserved() {
    let r = transform("ne-boj-sa", "nebojsa");
    assert_eq!(r.matches('-').count(), 2);
    let r = transform("roz-šou-stat", "rˈosʃoʊstat");
    assert_eq!(r.matches('-').count(), 2);
}

#[test]
fn too_many_markers_fall_back_to_the_target() {
    // Two markers cannot stand strictly inside a two-character target: the
    // pipeline generates no candidate and hands the target back unchanged.
    assert_eq!(transform("a-b-c", "xy"), "xy");
}

#[test]
fn no_marker_at_the_edges() {
    let r = transform("roz-šou-stat", "rˈosʃoʊstat");
    assert!(!r.starts_with('-'));
    assert!(!r.ends_with('-'));
}

#[test]
fn restripping_gives_back_the_target() {
    let r = transform("za-chod-nio", "zˌaxɔdɲɔ");
    assert_eq!(r.replace('-', ""), "zˌaxɔdɲɔ");
}

#[test]
fn repeated_calls_agree() {
    let a = transform("roz-šou-stat", "rˈosʃoʊstat");
    let b = transform("roz-šou-stat", "rˈosʃoʊstat");
    assert_eq!(a, b);
}

#[test]
fn worked_example_graphics() {
    assert_eq!(transform("gra-phics", "ɡrˈafiks"), "ɡrˈa-fiks");
}

#[test]
fn refinement_measures_against_the_stripped_source() {
    // Both of the top-scoring placements lie at the same edit distance from
    // the stripped normalized source, so the earlier placement wins the
    // first-seen fallback.  (The alignment variant of the transfer places
    // the markers at the other position for this word; see the alignment
    // tests.)
    assert_eq!(transform("roz-šou-stat", "rˈosʃoʊstat"), "rˈo-sʃoʊ-stat");
}

#[test]
fn worked_example_sekcja_reaches_the_tie_breaker() {
    // Worked example: at least two candidates survive scoring
    // and refinement, so the result is the tie-break's first-seen pick.
    let survivors = transfer_candidates("sek-cja", "sˈɛktsja");
    assert!(survivors.len() >= 2);
    let r = transform("sek-cja", "sˈɛktsja");
    assert_eq!(r, survivors[0]);
    assert_eq!(r.matches('-').count(), 1);
    assert_eq!(r.replace('-', ""), "sˈɛktsja");
}

#[test]
fn candidates_enumerate_interior_positions_in_order() {
    let target = chars("abcd");
    let got = generate_candidates(&target, 1);
    let words: Vec<String> = got.iter().map(|c| c.iter().collect()).collect();
    assert_eq!(words, vec!["a-bcd".to_string(), "ab-cd".to_string()]);
}

#[test]
fn candidates_with_zero_markers_is_the_target() {
    let target = chars("abcd");
    let got = generate_candidates(&target, 0);
    assert_eq!(got.len(), 1);
    let word: String = got[0].iter().collect();
    assert_eq!(word, "abcd");
}

#[test]
fn inserting_markers_lands_them_at_final_positions() {
    let word = chars("abcd");
    let positions: Vec<usize> = vec![1, 3];
    let got: String = insert_hyphens(&word, &positions).iter().collect();
    assert_eq!(got, "a-bc-d");
}
