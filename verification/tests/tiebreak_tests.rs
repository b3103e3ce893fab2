use wlh2ipawlh::tiebreak::{pick_by_resynthesis, resolve_tie, select_candidate};

#[test]
fn resolve_tie_rescored_winner() {
    let cands = vec!["a-bc".to_string(), "ab-c".to_string()];
    // Against "ab-c" the matching placement scores higher than the other.
    assert_eq!(resolve_tie("ab-c", &cands), "ab-c");
}

#[test]
fn resolve_tie_falls_back_to_first_seen() {
    let cands = vec!["x-y".to_string(), "y-x".to_string()];
    // Both candidates score the same; the first one wins by policy.
    assert_eq!(resolve_tie("ab-c", &cands), "x-y");
}

#[test]
fn resynthesis_falls_back_to_first_seen_on_equal_sums() {
    let cands = vec!["ne-bojsa".to_string(), "neboj-sa".to_string()];
    let parts = vec!["nˈe".to_string(), "bˈoj".to_string(), "sˈa".to_string()];
    assert_eq!(pick_by_resynthesis(&cands, &parts), "ne-bojsa");
}

#[test]
fn selection_accepts_a_one_based_index() {
    let cands = vec!["first".to_string(), "second".to_string(), "third".to_string()];
    assert_eq!(select_candidate(&cands, "1"), Some("first".to_string()));
    assert_eq!(select_candidate(&cands, "3"), Some("third".to_string()));
}

#[test]
fn selection_refuses_bad_input() {
    let cands = vec!["first".to_string(), "second".to_string()];
    assert_eq!(select_candidate(&cands, ""), None);
    assert_eq!(select_candidate(&cands, "0"), None);
    assert_eq!(select_candidate(&cands, "3"), None);
    assert_eq!(select_candidate(&cands, "two"), None);
    assert_eq!(select_candidate(&cands, "1x"), None);
    assert_eq!(select_candidate(&cands, "99999999999999999999999999999"), None);
}

#[test]
fn selection_reads_multi_digit_indices() {
    let cands: Vec<String> = (1..=12).map(|i| format!("c{}", i)).collect();
    assert_eq!(select_candidate(&cands, "12"), Some("c12".to_string()));
    assert_eq!(select_candidate(&cands, "13"), None);
}
