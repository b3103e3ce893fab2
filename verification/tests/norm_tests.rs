use wlh2ipawlh::norm::{ipa_to_ascii, simplify};
use wlh2ipawlh::textseq::{count_hyphens, get_hyphen_points, remove_hyphens};

#[test]
fn normalization_table_maps_phonetic_characters() {
    assert_eq!(ipa_to_ascii('ɡ'), 'g');
    assert_eq!(ipa_to_ascii('ʃ'), 's');
    assert_eq!(ipa_to_ascii('ʊ'), 'u');
    assert_eq!(ipa_to_ascii('ɔ'), 'o');
    assert_eq!(ipa_to_ascii('ɲ'), 'n');
    assert_eq!(ipa_to_ascii('ŋ'), 'n');
    assert_eq!(ipa_to_ascii('ɨ'), 'i');
    assert_eq!(ipa_to_ascii('ʒ'), 'z');
    assert_eq!(ipa_to_ascii('ɛ'), 'e');
    assert_eq!(ipa_to_ascii('š'), 's');
    assert_eq!(ipa_to_ascii('ɑ'), 'a');
    assert_eq!(ipa_to_ascii('a'), 'a');
    assert_eq!(ipa_to_ascii('-'), '-');
}

#[test]
fn simplify_normalizes_character_by_character() {
    let got: String = simplify("ɡrˈafiks").into_iter().collect();
    assert_eq!(got, "grˈafiks");
    let got: String = simplify("roz-šou").into_iter().collect();
    assert_eq!(got, "roz-sou");
}

#[test]
fn marker_helpers_agree() {
    assert_eq!(count_hyphens("ne-boj-sa"), 2);
    assert_eq!(count_hyphens("nebojsa"), 0);
    assert_eq!(remove_hyphens("ne-boj-sa"), "nebojsa");
    assert_eq!(get_hyphen_points("ab-cd-e"), vec![2, 5]);
    assert_eq!(get_hyphen_points("abc"), Vec::<usize>::new());
}
