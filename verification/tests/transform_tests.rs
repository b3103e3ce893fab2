use wlh2ipawlh::transform::{transfer_hyphens, transform};

#[test]
fn test_transfer_hyphens() {
    assert_eq!(transfer_hyphens("укра-ї-на", "ukrɑina"), "ukrɑ-i-na");
    assert_eq!(transfer_hyphens("укра-ї-ни", "ukrɑini"), "ukrɑ-i-ni");
    assert_eq!(transfer_hyphens("ukra-yin-s`ke", "ukrɑinski"), "ukrɑ-in-ski");
    assert_eq!(transfer_hyphens("ukra-yi-ni", "ukrɑini"), "ukrɑ-i-ni");
    assert_eq!(transfer_hyphens("ukra-yi-nu", "ukrɑinu"), "ukrɑ-i-nu");
}

#[test]
fn alignment_worked_examples() {
    assert_eq!(transfer_hyphens("ne-boj-sa", "nebojsa"), "ne-boj-sa");
    assert_eq!(transfer_hyphens("gra-phics", "ɡrˈafiks"), "ɡrˈa-fiks");
    assert_eq!(transfer_hyphens("roz-šou-stat", "rˈosʃoʊstat"), "rˈos-ʃoʊ-stat");
}

#[test]
fn transfer_hyphens_keeps_target_characters() {
    let r = transfer_hyphens("pret-hod-ny", "predhodny");
    assert_eq!(r.replace('-', ""), "predhodny");
    assert_eq!(r.matches('-').count(), 2);
}

#[test]
fn transform_forward_direction() {
    let r = transform("ne-boj-sa", "nebojsa");
    assert_eq!(r.matches('-').count(), 2);
    assert_eq!(r.replace('-', ""), "nebojsa");
}

#[test]
fn transform_reverse_direction() {
    // The unmarked first word makes the call run with the roles swapped: the
    // second word's markers land on the first word.
    let r = transform("nebojsa", "ne-boj-sa");
    assert_eq!(r.matches('-').count(), 2);
    assert_eq!(r.replace('-', ""), "nebojsa");
}

#[test]
fn transform_without_markers_is_identity() {
    assert_eq!(transform("nebojsa", "nebojsa"), "nebojsa");
}
