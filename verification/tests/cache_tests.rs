use wlh2ipawlh::cache::{cache_file_name, invert_pairs, PhonemeCache};

#[test]
fn cache_file_name_replaces_separators() {
    assert_eq!(cache_file_name("zlw/pl"), "zlw-pl.json");
    assert_eq!(cache_file_name("zls/hr"), "zls-hr.json");
}

#[test]
fn lookup_finds_what_was_inserted() {
    let mut c = PhonemeCache::new();
    assert!(c.lookup(&"nebojsa".to_string()).is_none());
    c.insert("nebojsa".to_string(), "nˈebojsa".to_string());
    assert_eq!(c.lookup(&"nebojsa".to_string()), Some("nˈebojsa".to_string()));
}

#[test]
fn last_insert_wins_on_equal_keys() {
    let mut c = PhonemeCache::new();
    c.insert("word".to_string(), "first".to_string());
    c.insert("word".to_string(), "second".to_string());
    assert_eq!(c.lookup(&"word".to_string()), Some("second".to_string()));
}

#[test]
fn cache_round_trip_preserves_all_lookups() {
    let words = ["nebojsa", "prethodny", "sekcja", "graphics", "rozsoustat"];
    let mut c = PhonemeCache::new();
    for (i, w) in words.iter().enumerate() {
        c.insert(w.to_string(), format!("ipa-{}", i));
    }
    let blob = c.save_blob();
    let reloaded = PhonemeCache::load_blob(&blob).expect("a saved cache parses back");
    for (i, w) in words.iter().enumerate() {
        assert_eq!(reloaded.lookup(&w.to_string()), Some(format!("ipa-{}", i)));
        assert_eq!(reloaded.lookup(&w.to_string()), c.lookup(&w.to_string()));
    }
    assert!(reloaded.lookup(&"absent".to_string()).is_none());
}

#[test]
fn save_blob_is_plain_json() {
    let mut c = PhonemeCache::new();
    c.insert("key".to_string(), "value".to_string());
    let blob = c.save_blob();
    let parsed: std::collections::HashMap<String, String> =
        serde_json::from_str(&blob).expect("the blob is a JSON object");
    assert_eq!(parsed.get("key"), Some(&"value".to_string()));
}

#[test]
fn load_blob_refuses_what_is_not_a_string_map() {
    assert!(PhonemeCache::load_blob("not json at all").is_none());
    assert!(PhonemeCache::load_blob("[1, 2, 3]").is_none());
    let empty = PhonemeCache::load_blob("{}").expect("an empty object parses");
    assert!(empty.lookup(&"anything".to_string()).is_none());
}

#[test]
fn snapshot_enumerates_every_pair() {
    let mut c = PhonemeCache::new();
    c.insert("a".to_string(), "1".to_string());
    c.insert("b".to_string(), "2".to_string());
    let mut pairs = c.snapshot_for_persistence();
    pairs.sort();
    assert_eq!(
        pairs,
        vec![("a".to_string(), "1".to_string()), ("b".to_string(), "2".to_string())]
    );
}

#[test]
fn inverting_pairs_swaps_key_and_value() {
    let pairs = vec![("word".to_string(), "ipa".to_string())];
    let inv = invert_pairs(&pairs);
    assert_eq!(inv, vec![("ipa".to_string(), "word".to_string())]);
}
