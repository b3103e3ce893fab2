use wlh2ipawlh::batch::{
    assess_word, merge_new_transcriptions, parse_phonemizer_output, partition_by_cache,
    process_word, process_words, transliterate_russian, transliterate_ukrainian, WordOutcome,
};
use wlh2ipawlh::cache::PhonemeCache;

#[test]
fn phonemizer_output_is_split_and_cleaned() {
    let got = parse_phonemizer_output("  fˈoo\n\n bar \n");
    assert_eq!(
        got,
        vec!["foo".to_string(), "?".to_string(), "bar".to_string()]
    );
}

#[test]
fn phonemizer_output_empty_input_is_one_placeholder() {
    assert_eq!(parse_phonemizer_output("   "), vec!["?".to_string()]);
}

#[test]
fn phonemizer_line_of_only_stress_marks_becomes_the_placeholder() {
    assert_eq!(
        parse_phonemizer_output("foo
ˈˈ
bar"),
        vec!["foo".to_string(), "?".to_string(), "bar".to_string()]
    );
}

#[test]
fn assessing_a_word_surfaces_ties_and_decides_the_rest() {
    match assess_word("ne-boj-sa", "nebojsa", "zlw/cs") {
        WordOutcome::Done(s) => {
            assert_eq!(s.matches('-').count(), 2);
            assert_eq!(s.replace('-', ""), "nebojsa");
        }
        WordOutcome::Tie(_) => panic!("a lone survivor is not a tie"),
    }
    match assess_word("sek-cja", "sˈɛktsja", "zlw/cs") {
        WordOutcome::Done(_) => panic!("this word ties between candidates"),
        WordOutcome::Tie(cands) => {
            assert!(cands.len() >= 2);
            for c in &cands {
                assert_eq!(c.matches('-').count(), 1);
                assert_eq!(c.replace('-', ""), "sˈɛktsja");
            }
        }
    }
    match assess_word("word", "", "zlw/cs") {
        WordOutcome::Done(s) => assert_eq!(s, "word"),
        WordOutcome::Tie(_) => panic!("an empty transcription is decided at once"),
    }
}

#[test]
fn transliteration_preserves_the_marker_count() {
    assert_eq!(transliterate_ukrainian("укра-ї-на").matches('-').count(), 2);
    assert_eq!(transliterate_russian("мо-ло-ко").matches('-').count(), 2);
    assert_eq!(transliterate_ukrainian("україна").matches('-').count(), 0);
}

#[test]
fn ukrainian_transliteration_keeps_markers() {
    assert_eq!(transliterate_ukrainian("укра-ї-на"), "ukra-yi-na");
}

#[test]
fn russian_transliteration_keeps_markers() {
    assert_eq!(transliterate_russian("мо-ло-ко"), "mo-lo-ko");
}

#[test]
fn process_word_passes_unmarked_words_through() {
    assert_eq!(process_word("nebojsa", "nˈebojsa", "zlw/cs"), "nˈebojsa");
}

#[test]
fn process_word_keeps_the_word_on_an_empty_transcription() {
    assert_eq!(process_word("ne-boj-sa", "", "zlw/cs"), "ne-boj-sa");
}

#[test]
fn process_word_transfers_markers() {
    let r = process_word("ne-boj-sa", "nebojsa", "zlw/cs");
    assert_eq!(r.matches('-').count(), 2);
    assert_eq!(r.replace('-', ""), "nebojsa");
}

#[test]
fn process_word_transliterates_ukrainian_sources() {
    let r = process_word("укра-ї-на", "ukrɑina", "zle/uk");
    assert_eq!(r.matches('-').count(), 2);
    assert_eq!(r.replace('-', ""), "ukrɑina");
}

#[test]
fn partition_and_merge_drive_the_cache() {
    let mut cache = PhonemeCache::new();
    cache.insert("known".to_string(), "nˈoun".to_string());
    let words = vec!["kno-wn".to_string(), "fre-sh".to_string()];
    let (hits, misses) = partition_by_cache(&words, &cache);
    assert_eq!(
        hits,
        vec![("kno-wn".to_string(), "known".to_string(), "nˈoun".to_string())]
    );
    assert_eq!(misses, vec![("fre-sh".to_string(), "fresh".to_string())]);

    let fresh_ipas = vec!["frˈeʃ".to_string()];
    let completed = merge_new_transcriptions(&mut cache, &misses, &fresh_ipas);
    assert_eq!(
        completed,
        vec![("fre-sh".to_string(), "fresh".to_string(), "frˈeʃ".to_string())]
    );
    assert_eq!(cache.lookup(&"fresh".to_string()), Some("frˈeʃ".to_string()));

    let results = process_words(&completed, "zlw/cs");
    assert_eq!(results.len(), 1);
    assert_eq!(results[0].0.matches('-').count(), 1);
    assert_eq!(results[0].1, "fresh");
    assert_eq!(results[0].2, "frˈeʃ");
}
