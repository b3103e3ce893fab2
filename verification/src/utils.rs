//! Small utilities around the pipeline: the filename-to-language heuristic
//! and the distance-based narrowing of a candidate list.

use vstd::prelude::*;
use crate::levenshtein::{lev, levenshtein};
use crate::textseq::{MAX_WORD_LEN, chars_of, lemma_take_full, lemma_take_succ};

verus! {

/// What `str::to_lowercase` returns; the mapping depends on the characters
/// alone.
pub uninterp spec fn lower_of(s: Seq<char>) -> Seq<char>;

/// Relies on `str::to_lowercase` of the standard library: the result is a
/// function of the input characters alone, and an empty input stays empty.
#[verifier::external_body]
fn to_lower(s: &str) -> (r: String)
    ensures
        r@ == lower_of(s@),
        s@.len() == 0 ==> r@.len() == 0,
{
    s.to_lowercase()
}

/// Whether `p` occurs as a contiguous run inside `s`.
pub open spec fn contains_sub(s: Seq<char>, p: Seq<char>) -> bool {
    exists|i: int| 0 <= i <= s.len() - p.len() && #[trigger] s.subrange(i, i + p.len()) == p
}

/// Substring search.
pub fn contains_seq(hay: &Vec<char>, needle: &Vec<char>) -> (r: bool)
    ensures
        r == contains_sub(hay@, needle@),
{
    let nl = needle.len();
    let hl = hay.len();
    if nl > hl {
        return false;
    }
    let mut i: usize = 0;
    while i <= hl - nl
        invariant
            nl <= hl,
            i <= hl - nl + 1,
            nl == needle@.len(),
            hl == hay@.len(),
            forall|u: int| 0 <= u < i ==> #[trigger] hay@.subrange(u, u + needle@.len()) != needle@,
        decreases hl - nl + 1 - i,
    {
        let mut j: usize = 0;
        let mut matches_here = true;
        while j < nl
            invariant
                j <= nl,
                i <= hl - nl,
                nl == needle@.len(),
                hl == hay@.len(),
                matches_here ==> (forall|t: int| 0 <= t < j ==> hay@[i + t] == needle@[t]),
                !matches_here ==> (exists|t: int| 0 <= t < nl && hay@[i + t] != needle@[t]),
            decreases nl - j,
        {
            if hay[i + j] != needle[j] {
                matches_here = false;
                j = nl;
            } else {
                j = j + 1;
            }
        }
        if matches_here {
            proof {
                assert(hay@.subrange(i as int, i + needle@.len()) =~= needle@);
            }
            return true;
        }
        proof {
            assert(hay@.subrange(i as int, i + needle@.len()) != needle@) by {
                let w = choose|t: int| 0 <= t < nl && hay@[i + t] != needle@[t];
                assert(hay@.subrange(i as int, i + needle@.len())[w] == hay@[i + w]);
            }
        }
        i = i + 1;
    }
    proof {
        assert forall|u: int|
            0 <= u <= hay@.len() - needle@.len() implies #[trigger] hay@.subrange(
            u,
            u + needle@.len(),
        ) != needle@ by {}
    }
    false
}

/// The language heuristic over a lowercased filename.
pub open spec fn lang_spec(low: Seq<char>) -> Seq<char> {
    if contains_sub(low, "pl"@) {
        "zlw/pl"@
    } else if contains_sub(low, "cs"@) {
        "zlw/cs"@
    } else if contains_sub(low, "sk"@) {
        "zlw/sk"@
    } else if contains_sub(low, "uk"@) {
        "zle/uk"@
    } else if contains_sub(low, "ru"@) {
        "zle/ru"@
    } else if contains_sub(low, "sl"@) {
        "zls/sl"@
    } else if contains_sub(low, "sh"@) {
        "zls/hr"@
    } else {
        "zlw/cs"@
    }
}

/// Whether any of the recognized language hints occurs in the lowercased
/// filename; when none does, `get_language` falls back to its default and a
/// caller may emit a diagnostic notice.
pub open spec fn has_hint_spec(low: Seq<char>) -> bool {
    contains_sub(low, "pl"@) || contains_sub(low, "cs"@) || contains_sub(low, "sk"@)
        || contains_sub(low, "uk"@) || contains_sub(low, "ru"@) || contains_sub(low, "sl"@)
        || contains_sub(low, "sh"@)
}

/// The language identifier for an input filename, by substring heuristics
/// over the lowercased name; a fixed default when nothing matches.
pub fn get_language(filename: &str) -> (r: &'static str)
    ensures
        r@ == lang_spec(lower_of(filename@)),
{
    let low = to_lower(filename);
    let lc = chars_of(low.as_str());
    let pl = vec!['p', 'l'];
    let cs = vec!['c', 's'];
    let sk = vec!['s', 'k'];
    let uk = vec!['u', 'k'];
    let ru = vec!['r', 'u'];
    let sl = vec!['s', 'l'];
    let sh = vec!['s', 'h'];
    proof {
        reveal_strlit("pl");
        reveal_strlit("cs");
        reveal_strlit("sk");
        reveal_strlit("uk");
        reveal_strlit("ru");
        reveal_strlit("sl");
        reveal_strlit("sh");
        assert(pl@ =~= "pl"@);
        assert(cs@ =~= "cs"@);
        assert(sk@ =~= "sk"@);
        assert(uk@ =~= "uk"@);
        assert(ru@ =~= "ru"@);
        assert(sl@ =~= "sl"@);
        assert(sh@ =~= "sh"@);
    }
    if contains_seq(&lc, &pl) {
        "zlw/pl"
    } else if contains_seq(&lc, &cs) {
        "zlw/cs"
    } else if contains_seq(&lc, &sk) {
        "zlw/sk"
    } else if contains_seq(&lc, &uk) {
        "zle/uk"
    } else if contains_seq(&lc, &ru) {
        "zle/ru"
    } else if contains_seq(&lc, &sl) {
        "zls/sl"
    } else if contains_seq(&lc, &sh) {
        "zls/hr"
    } else {
        "zlw/cs"
    }
}

/// Whether the filename carries any recognized language hint.
pub fn has_language_hint(filename: &str) -> (r: bool)
    ensures
        r == has_hint_spec(lower_of(filename@)),
{
    let low = to_lower(filename);
    let lc = chars_of(low.as_str());
    let pl = vec!['p', 'l'];
    let cs = vec!['c', 's'];
    let sk = vec!['s', 'k'];
    let uk = vec!['u', 'k'];
    let ru = vec!['r', 'u'];
    let sl = vec!['s', 'l'];
    let sh = vec!['s', 'h'];
    proof {
        reveal_strlit("pl");
        reveal_strlit("cs");
        reveal_strlit("sk");
        reveal_strlit("uk");
        reveal_strlit("ru");
        reveal_strlit("sl");
        reveal_strlit("sh");
        assert(pl@ =~= "pl"@);
        assert(cs@ =~= "cs"@);
        assert(sk@ =~= "sk"@);
        assert(uk@ =~= "uk"@);
        assert(ru@ =~= "ru"@);
        assert(sl@ =~= "sl"@);
        assert(sh@ =~= "sh"@);
    }
    contains_seq(&lc, &pl) || contains_seq(&lc, &cs) || contains_seq(&lc, &sk) || contains_seq(
        &lc,
        &uk,
    ) || contains_seq(&lc, &ru) || contains_seq(&lc, &sl) || contains_seq(&lc, &sh)
}

/// The least raw edit distance from the target among the candidates.
pub open spec fn min_lev_raw(target: Seq<char>, cs: Seq<Seq<char>>) -> nat
    decreases cs.len(),
{
    if cs.len() == 0 {
        0
    } else {
        let d = lev(target, cs.last());
        if cs.len() == 1 {
            d
        } else {
            let rest = min_lev_raw(target, cs.drop_last());
            if d < rest {
                d
            } else {
                rest
            }
        }
    }
}

/// The candidates at the least raw edit distance, in their given order.
pub open spec fn keep_lev_raw(target: Seq<char>, cs: Seq<Seq<char>>, goal: nat) -> Seq<Seq<char>>
    decreases cs.len(),
{
    if cs.len() == 0 {
        Seq::empty()
    } else {
        keep_lev_raw(target, cs.drop_last(), goal) + (if lev(target, cs.last()) == goal {
            seq![cs.last()]
        } else {
            Seq::empty()
        })
    }
}

/// The candidates whose edit distance from the target is minimal, in their
/// given order; empty exactly when the input is empty.
pub fn get_best_levenshtein(candidates: &Vec<String>, target: &str) -> (r: Vec<String>)
    requires
        target@.len() <= MAX_WORD_LEN,
        forall|i: int| 0 <= i < candidates@.len() ==> (#[trigger] candidates@[i])@.len() <= MAX_WORD_LEN,
    ensures
        r@.map_values(|s: String| s@) == keep_lev_raw(
            target@,
            candidates@.map_values(|s: String| s@),
            min_lev_raw(target@, candidates@.map_values(|s: String| s@)),
        ),
{
    let ghost cs = candidates@.map_values(|s: String| s@);
    let tv = chars_of(target);
    let mut dists: Vec<usize> = Vec::new();
    let mut i: usize = 0;
    while i < candidates.len()
        invariant
            i <= candidates@.len(),
            dists@.len() == i,
            forall|u: int| 0 <= u < i ==> #[trigger] dists@[u] as nat == lev(target@, cs[u]),
        decreases candidates@.len() - i,
    {
        let cv = chars_of(candidates[i].as_str());
        proof {
            assert(cs[i as int] == candidates@[i as int]@);
        }
        let d = levenshtein(&tv, &cv);
        dists.push(d);
        i = i + 1;
    }
    let mut out: Vec<String> = Vec::new();
    if candidates.len() > 0 {
        let mut bestd: usize = dists[0];
        proof {
            assert(cs.take(1).drop_last() =~= Seq::<Seq<char>>::empty());
            assert(cs.take(1).last() == cs[0]);
        }
        i = 1;
        while i < candidates.len()
            invariant
                1 <= i <= candidates@.len(),
                dists@.len() == candidates@.len(),
                bestd as nat == min_lev_raw(target@, cs.take(i as int)),
            decreases candidates@.len() - i,
        {
            proof {
                lemma_take_succ(cs, i as int);
            }
            if dists[i] < bestd {
                bestd = dists[i];
            }
            i = i + 1;
        }
        proof {
            lemma_take_full(cs);
        }
        i = 0;
        while i < candidates.len()
            invariant
                i <= candidates@.len(),
                dists@.len() == candidates@.len(),
                bestd as nat == min_lev_raw(target@, cs),
                out@.map_values(|s: String| s@) == keep_lev_raw(target@, cs.take(i as int), bestd as nat),
            decreases candidates@.len() - i,
        {
            proof {
                lemma_take_succ(cs, i as int);
            }
            if dists[i] == bestd {
                let ghost old_map = out@.map_values(|s: String| s@);
                let w = candidates[i].clone();
                out.push(w);
                proof {
                    let m = out@.map_values(|s: String| s@);
                    let rhs = keep_lev_raw(target@, cs.take(i + 1), bestd as nat);
                    assert(rhs =~= keep_lev_raw(target@, cs.take(i as int), bestd as nat)
                        + seq![cs[i as int]]);
                    assert forall|u: int| 0 <= u < m.len() implies m[u] == rhs[u] by {
                        if u < old_map.len() {
                            assert(m[u] == out@[u]@);
                            assert(old_map[u] == rhs[u]);
                        }
                    }
                    assert(m =~= rhs);
                }
            } else {
                proof {
                    assert(keep_lev_raw(target@, cs.take(i + 1), bestd as nat) =~= keep_lev_raw(
                        target@,
                        cs.take(i as int),
                        bestd as nat,
                    ));
                }
            }
            i = i + 1;
        }
        proof {
            lemma_take_full(cs);
        }
    } else {
        proof {
            assert(cs.take(0) =~= cs);
            assert(out@.map_values(|s: String| s@) =~= keep_lev_raw(target@, cs, 0nat));
        }
    }
    out
}

} // verus!
