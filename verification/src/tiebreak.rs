//! The Tie-Breaker: picking one winner among candidates that survived both
//! selection stages with equal rank.
//!
//! Three deterministic mechanisms are offered.  `resolve_tie` re-scores the
//! candidates, as given, against the marked source and takes the first
//! maximum.  `pick_by_resynthesis` scores each candidate part against the
//! phonetic transcription of the corresponding source part — the
//! transcriptions are handed in by the caller, who obtains them from the
//! external phonemizer — and again takes the first maximum.  And
//! `select_candidate` validates an operator's 1-based selection, refusing
//! non-numeric and out-of-range input so the caller can re-prompt.  In every
//! mechanism, equal ranks fall back to first-seen order: an explicit policy,
//! not an accident.

use vstd::prelude::*;
use crate::scoring::{sim_score, similarity_core};
use crate::textseq::{MAX_WORD_LEN, chars_of, lemma_take_full, lemma_take_succ, nat_min, split_char,
    split_on};

verus! {

/// The index of the first candidate achieving the maximal score against the
/// source, scores taken on the candidates exactly as given.
pub open spec fn first_tie_idx(src: Seq<char>, cs: Seq<Seq<char>>) -> int
    decreases cs.len(),
{
    if cs.len() <= 1 {
        0
    } else {
        let pre = first_tie_idx(src, cs.drop_last());
        if sim_score(src, cs.last()) > sim_score(src, cs[pre]) {
            cs.len() - 1
        } else {
            pre
        }
    }
}

pub proof fn lemma_first_tie_idx_in_range(src: Seq<char>, cs: Seq<Seq<char>>)
    requires
        cs.len() > 0,
    ensures
        0 <= first_tie_idx(src, cs) < cs.len(),
    decreases cs.len(),
{
    if cs.len() > 1 {
        lemma_first_tie_idx_in_range(src, cs.drop_last());
    }
}

/// Re-score the candidates against the marked source and return the first
/// one with the maximal score; with all scores equal this is the first
/// candidate, the defined first-seen fallback.
pub fn resolve_tie(hyphenated: &str, candidates: &Vec<String>) -> (r: String)
    requires
        candidates@.len() > 0,
        hyphenated@.len() <= MAX_WORD_LEN,
    ensures
        r@ == candidates@.map_values(|s: String| s@)[first_tie_idx(
            hyphenated@,
            candidates@.map_values(|s: String| s@),
        )],
{
    let ghost cs = candidates@.map_values(|s: String| s@);
    let src = chars_of(hyphenated);
    let c0 = chars_of(candidates[0].as_str());
    let mut best = similarity_core(&src, &c0);
    let mut best_idx: usize = 0;
    proof {
        assert(cs.take(1).len() == 1);
        assert(cs.take(1)[0] == cs[0]);
        assert(first_tie_idx(hyphenated@, cs.take(1)) == 0);
    }
    let mut i: usize = 1;
    while i < candidates.len()
        invariant
            1 <= i <= candidates@.len(),
            best_idx < i,
            best_idx as int == first_tie_idx(hyphenated@, cs.take(i as int)),
            best as nat == sim_score(hyphenated@, cs[best_idx as int]),
        decreases candidates@.len() - i,
    {
        proof {
            lemma_take_succ(cs, i as int);
        }
        let ci = chars_of(candidates[i].as_str());
        let s = similarity_core(&src, &ci);
        proof {
            assert(cs[i as int] == candidates@[i as int]@);
            assert(cs.take(i + 1)[best_idx as int] == cs[best_idx as int]);
        }
        if s > best {
            best = s;
            best_idx = i;
        }
        i = i + 1;
    }
    proof {
        lemma_take_full(cs);
        lemma_first_tie_idx_in_range(hyphenated@, cs);
    }
    candidates[best_idx].clone()
}

/// The summed part-by-part scores of the first `m` corresponding parts.
pub open spec fn resyn_upto(parts_ipa: Seq<Seq<char>>, cparts: Seq<Seq<char>>, m: nat) -> nat
    decreases m,
{
    if m == 0 {
        0
    } else {
        resyn_upto(parts_ipa, cparts, (m - 1) as nat) + sim_score(
            parts_ipa[m - 1],
            cparts[m - 1],
        )
    }
}

/// The resynthesis score of a candidate: its parts, split at its own
/// markers, scored against the transcriptions of the source's parts.
pub open spec fn resyn_score(parts_ipa: Seq<Seq<char>>, cand: Seq<char>) -> nat {
    let cparts = split_on(cand, '-');
    resyn_upto(parts_ipa, cparts, nat_min(parts_ipa.len(), cparts.len()))
}

/// The index of the first candidate achieving the maximal resynthesis score.
pub open spec fn first_resyn_idx(parts_ipa: Seq<Seq<char>>, cs: Seq<Seq<char>>) -> int
    decreases cs.len(),
{
    if cs.len() <= 1 {
        0
    } else {
        let pre = first_resyn_idx(parts_ipa, cs.drop_last());
        if resyn_score(parts_ipa, cs.last()) > resyn_score(parts_ipa, cs[pre]) {
            cs.len() - 1
        } else {
            pre
        }
    }
}

pub proof fn lemma_first_resyn_idx_in_range(parts_ipa: Seq<Seq<char>>, cs: Seq<Seq<char>>)
    requires
        cs.len() > 0,
    ensures
        0 <= first_resyn_idx(parts_ipa, cs) < cs.len(),
    decreases cs.len(),
{
    if cs.len() > 1 {
        lemma_first_resyn_idx_in_range(parts_ipa, cs.drop_last());
    }
}

/// The resynthesis score of one candidate, computed.
fn resyn_score_of(parts_ipa: &Vec<Vec<char>>, cand: &Vec<char>) -> (r: u128)
    requires
        forall|i: int| 0 <= i < parts_ipa@.len() ==> (#[trigger] parts_ipa@[i])@.len()
            <= MAX_WORD_LEN,
    ensures
        r as nat == resyn_score(parts_ipa@.map_values(|p: Vec<char>| p@), cand@),
{
    let ghost ipas = parts_ipa@.map_values(|p: Vec<char>| p@);
    let cparts = split_char(cand, '-');
    let ghost cpv = cparts@.map_values(|p: Vec<char>| p@);
    let m: usize = if parts_ipa.len() <= cparts.len() {
        parts_ipa.len()
    } else {
        cparts.len()
    };
    proof {
        assert(m as nat == nat_min(ipas.len(), cpv.len()));
    }
    let mut acc: u128 = 0;
    let mut idx: usize = 0;
    while idx < m
        invariant
            idx <= m,
            m <= parts_ipa@.len(),
            m <= cparts@.len(),
            acc as nat == resyn_upto(ipas, cpv, idx as nat),
            acc as nat <= idx as nat * 0x1000_0000_0000_0000,
        decreases m - idx,
    {
        let s = similarity_core(&parts_ipa[idx], &cparts[idx]);
        proof {
            assert(ipas[idx as int] == parts_ipa@[idx as int]@);
            assert(cpv[idx as int] == cparts@[idx as int]@);
            crate::scoring::lemma_sim_score_le(ipas[idx as int], cpv[idx as int]);
            assert(ipas[idx as int].len() * ipas[idx as int].len() <= 0x1000_0000_0000_0000)
                by (nonlinear_arith)
                requires ipas[idx as int].len() <= 0x3FFF_FFFF;
            assert((idx as nat) * 0x1000_0000_0000_0000 + 0x1000_0000_0000_0000 == ((idx
                + 1) as nat) * 0x1000_0000_0000_0000) by (nonlinear_arith);
            assert(((idx + 1) as nat) * 0x1000_0000_0000_0000 <= 0xFFFF_FFFF_FFFF_FFFF_FFFF_FFFF_FFFF_FFFFnat)
                by (nonlinear_arith)
                requires (idx + 1) as nat <= 0xFFFF_FFFF_FFFF_FFFFnat;
        }
        acc = acc + (s as u128);
        idx = idx + 1;
    }
    acc
}

/// The phonetic-resynthesis strategy: split each candidate at its own
/// markers, score each part against the transcription of the corresponding
/// source part, and return the first candidate with the maximal sum.
pub fn pick_by_resynthesis(candidates: &Vec<String>, part_transcriptions: &Vec<String>) -> (r:
    String)
    requires
        candidates@.len() > 0,
        forall|i: int| 0 <= i < part_transcriptions@.len() ==> (#[trigger] part_transcriptions@[i])@.len()
            <= MAX_WORD_LEN,
    ensures
        r@ == candidates@.map_values(|s: String| s@)[first_resyn_idx(
            part_transcriptions@.map_values(|s: String| s@),
            candidates@.map_values(|s: String| s@),
        )],
{
    let ghost cs = candidates@.map_values(|s: String| s@);
    let ghost ipas = part_transcriptions@.map_values(|s: String| s@);
    let mut parts_ipa: Vec<Vec<char>> = Vec::new();
    let mut t: usize = 0;
    while t < part_transcriptions.len()
        invariant
            t <= part_transcriptions@.len(),
            parts_ipa@.len() == t,
            forall|u: int| 0 <= u < t ==> (#[trigger] parts_ipa@[u])@ == ipas[u],
            forall|u: int| 0 <= u < t ==> (#[trigger] parts_ipa@[u])@.len() <= MAX_WORD_LEN,
        decreases part_transcriptions@.len() - t,
    {
        let p = chars_of(part_transcriptions[t].as_str());
        proof {
            assert(ipas[t as int] == part_transcriptions@[t as int]@);
        }
        parts_ipa.push(p);
        t = t + 1;
    }
    proof {
        assert(parts_ipa@.map_values(|p: Vec<char>| p@) =~= ipas);
    }
    let c0 = chars_of(candidates[0].as_str());
    let mut best = resyn_score_of(&parts_ipa, &c0);
    let mut best_idx: usize = 0;
    proof {
        assert(cs.take(1).len() == 1);
        assert(cs.take(1)[0] == cs[0]);
        assert(first_resyn_idx(ipas, cs.take(1)) == 0);
    }
    let mut i: usize = 1;
    while i < candidates.len()
        invariant
            1 <= i <= candidates@.len(),
            best_idx < i,
            best_idx as int == first_resyn_idx(ipas, cs.take(i as int)),
            best as nat == resyn_score(ipas, cs[best_idx as int]),
            parts_ipa@.map_values(|p: Vec<char>| p@) == ipas,
            forall|u: int| 0 <= u < parts_ipa@.len() ==> (#[trigger] parts_ipa@[u])@.len()
                <= MAX_WORD_LEN,
        decreases candidates@.len() - i,
    {
        proof {
            lemma_take_succ(cs, i as int);
        }
        let ci = chars_of(candidates[i].as_str());
        let s = resyn_score_of(&parts_ipa, &ci);
        proof {
            assert(cs[i as int] == candidates@[i as int]@);
            assert(cs.take(i + 1)[best_idx as int] == cs[best_idx as int]);
        }
        if s > best {
            best = s;
            best_idx = i;
        }
        i = i + 1;
    }
    proof {
        lemma_take_full(cs);
        lemma_first_resyn_idx_in_range(ipas, cs);
    }
    candidates[best_idx].clone()
}

pub open spec fn is_digit(c: char) -> bool {
    c == '0' || c == '1' || c == '2' || c == '3' || c == '4' || c == '5' || c == '6' || c == '7'
        || c == '8' || c == '9'
}

pub open spec fn digit_of(c: char) -> int {
    if c == '0' {
        0
    } else if c == '1' {
        1
    } else if c == '2' {
        2
    } else if c == '3' {
        3
    } else if c == '4' {
        4
    } else if c == '5' {
        5
    } else if c == '6' {
        6
    } else if c == '7' {
        7
    } else if c == '8' {
        8
    } else {
        9
    }
}

pub open spec fn all_digits(s: Seq<char>) -> bool {
    forall|i: int| 0 <= i < s.len() ==> is_digit(#[trigger] s[i])
}

/// The decimal value of a digit string.
pub open spec fn index_val(s: Seq<char>) -> int
    decreases s.len(),
{
    if s.len() == 0 {
        0
    } else {
        index_val(s.drop_last()) * 10 + digit_of(s.last())
    }
}

/// An operator's input selects a candidate when it is a non-empty digit
/// string whose value is a 1-based index into the list.
pub open spec fn valid_selection(s: Seq<char>, n: int) -> bool {
    s.len() > 0 && all_digits(s) && 1 <= index_val(s) <= n
}

/// Validate an operator's 1-based selection: the chosen candidate, or `None`
/// (re-prompt) on non-numeric or out-of-range input.
pub fn select_candidate(candidates: &Vec<String>, input: &str) -> (r: Option<String>)
    ensures
        match r {
            Some(w) => valid_selection(input@, candidates@.len() as int) && w@ == candidates@[
                index_val(input@) - 1]@,
            None => !valid_selection(input@, candidates@.len() as int),
        },
{
    let s = chars_of(input);
    let n = candidates.len();
    if s.len() == 0 {
        return None;
    }
    let mut acc: u128 = 0;
    let mut over = false;
    let mut i: usize = 0;
    while i < s.len()
        invariant
            i <= s@.len(),
            s@ == input@,
            n == candidates@.len(),
            forall|u: int| 0 <= u < i ==> is_digit(#[trigger] s@[u]),
            !over ==> acc as int == index_val(s@.take(i as int)) && acc as int <= n,
            over ==> index_val(s@.take(i as int)) > n,
        decreases s@.len() - i,
    {
        proof {
            lemma_take_succ(s@, i as int);
        }
        let c = s[i];
        let d: u128 = match c {
            '0' => 0,
            '1' => 1,
            '2' => 2,
            '3' => 3,
            '4' => 4,
            '5' => 5,
            '6' => 6,
            '7' => 7,
            '8' => 8,
            '9' => 9,
            _ => {
                proof {
                    assert(!is_digit(s@[i as int]));
                    assert(!all_digits(input@));
                }
                return None;
            },
        };
        proof {
            assert(is_digit(s@[i as int]));
            assert(d as int == digit_of(s@[i as int]));
        }
        if over {
            proof {
                let v = index_val(s@.take(i as int));
                assert(index_val(s@.take(i + 1)) == v * 10 + d);
                assert(v * 10 + d > n);
            }
        } else {
            let next = acc * 10 + d;
            if next > n as u128 {
                over = true;
            } else {
                acc = next;
            }
        }
        i = i + 1;
    }
    proof {
        lemma_take_full(s@);
    }
    if over {
        return None;
    }
    if acc == 0 {
        return None;
    }
    let idx = (acc as usize) - 1;
    Some(candidates[idx].clone())
}

} // verus!
