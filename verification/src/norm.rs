//! The normalization table: maps phonetic and diacritic characters to plain
//! ASCII-like equivalents so that similarity and distance computations compare
//! like with like.  Every other character, the boundary marker included, is
//! left unchanged.

use vstd::prelude::*;
use crate::textseq::{is_marker, lemma_take_full, lemma_take_succ};

verus! {

/// The canonical equivalent of one character.
pub open spec fn norm_char(c: char) -> char {
    if c == 'ɡ' {
        'g'
    } else if c == 'ʃ' {
        's'
    } else if c == 'ʊ' {
        'u'
    } else if c == 'ɔ' {
        'o'
    } else if c == 'ɲ' {
        'n'
    } else if c == 'ŋ' {
        'n'
    } else if c == 'ɨ' {
        'i'
    } else if c == 'ʒ' {
        'z'
    } else if c == 'ɛ' {
        'e'
    } else if c == 'š' {
        's'
    } else if c == 'ɑ' {
        'a'
    } else {
        c
    }
}

/// A whole word, normalized character by character.
pub open spec fn norm_seq(s: Seq<char>) -> Seq<char> {
    s.map_values(|c: char| norm_char(c))
}

/// Normalization maps nothing onto the marker and keeps the marker itself.
pub proof fn lemma_norm_char_marker(c: char)
    ensures
        is_marker(norm_char(c)) <==> is_marker(c),
{
}

/// The canonical equivalent of one phonetic character.
pub fn ipa_to_ascii(c: char) -> (r: char)
    ensures
        r == norm_char(c),
{
    match c {
        'ɡ' => 'g',
        'ʃ' => 's',
        'ʊ' => 'u',
        'ɔ' => 'o',
        'ɲ' => 'n',
        'ŋ' => 'n',
        'ɨ' => 'i',
        'ʒ' => 'z',
        'ɛ' => 'e',
        'š' => 's',
        'ɑ' => 'a',
        _ => c,
    }
}

/// A word normalized character by character, on `Vec<char>`.
pub fn simplify_vec(v: &Vec<char>) -> (r: Vec<char>)
    ensures
        r@ == norm_seq(v@),
{
    let mut r: Vec<char> = Vec::new();
    let mut i: usize = 0;
    while i < v.len()
        invariant
            i <= v.len(),
            r@ == norm_seq(v@.take(i as int)),
        decreases v.len() - i,
    {
        proof {
            lemma_take_succ(v@, i as int);
        }
        let c = ipa_to_ascii(v[i]);
        r.push(c);
        proof {
            assert(r@ =~= norm_seq(v@.take(i + 1)));
        }
        i = i + 1;
    }
    proof {
        lemma_take_full(v@);
        assert(norm_seq(v@.take(v@.len() as int)) =~= norm_seq(v@));
    }
    r
}

/// A word normalized character by character.
pub fn simplify(s: &str) -> (r: Vec<char>)
    ensures
        r@ == norm_seq(s@),
{
    let v = crate::textseq::chars_of(s);
    simplify_vec(&v)
}

} // verus!
