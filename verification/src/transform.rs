//! Marker transfer by sequence alignment: the dynamic-programming variant of
//! the transfer.  The marked source and the unmarked target are normalized
//! and aligned; each marker of the source is then re-inserted into the target
//! at the point where the alignment places it.  The result always consists of
//! exactly the target's characters, in order, plus one marker per source
//! marker.

use vstd::prelude::*;
use crate::align::{align_path, align_sequences, alignment_first, alignment_second,
    lemma_somes_step, range_seq, somes};
use crate::norm::{lemma_norm_char_marker, norm_char, norm_seq, simplify_vec};
use crate::textseq::{MAX_WORD_LEN, chars_of, count_hyphens, count_marks, is_marker,
    lemma_count_marks_zero, lemma_take_full, lemma_take_succ, remove_marks, string_from_chars};

verus! {

/// The string the alignment walk produces: for every step, a marker of the
/// source becomes a marker of the result, a consumed target position
/// contributes its character, and a source character against a gap
/// contributes nothing.
pub open spec fn consume_path(
    h: Seq<char>,
    t: Seq<char>,
    p: Seq<(Option<usize>, Option<usize>)>,
) -> Seq<char>
    decreases p.len(),
{
    if p.len() == 0 {
        Seq::empty()
    } else {
        let rest = consume_path(h, t, p.drop_last());
        let e = p.last();
        match e.0 {
            Some(i) => if is_marker(h[i as int]) {
                rest.push('-')
            } else {
                match e.1 {
                    Some(j) => rest.push(t[j as int]),
                    None => rest,
                }
            },
            None => match e.1 {
                Some(j) => rest.push(t[j as int]),
                None => rest,
            },
        }
    }
}

/// What the alignment transfer returns: the normalized source and target are
/// aligned, and the source's markers are re-inserted into the target where
/// the alignment walk places them.
pub open spec fn transfer_align_spec(h: Seq<char>, t: Seq<char>) -> Seq<char> {
    consume_path(
        h,
        t,
        align_path(norm_seq(h), norm_seq(t), h.len() as int, t.len() as int),
    )
}

/// What `transform` returns: the alignment transfer, run in whichever
/// direction leaves the marked word first.
pub open spec fn transform_spec(original: Seq<char>, ipa: Seq<char>) -> Seq<char> {
    if count_marks(original) > 0 {
        transfer_align_spec(original, ipa)
    } else {
        transfer_align_spec(ipa, original)
    }
}

/// Carry the source's markers over onto the unmarked target, by alignment.
///
/// The result strips back to the target itself and carries exactly the
/// source's marker count.
pub fn transfer_hyphens(hyphenated: &str, non_hyphenated: &str) -> (r: String)
    requires
        count_marks(non_hyphenated@) == 0,
        hyphenated@.len() <= MAX_WORD_LEN,
        non_hyphenated@.len() <= MAX_WORD_LEN,
    ensures
        r@ == transfer_align_spec(hyphenated@, non_hyphenated@),
        remove_marks(r@) == non_hyphenated@,
        count_marks(r@) == count_marks(hyphenated@),
{
    let s1 = chars_of(hyphenated);
    let s2 = chars_of(non_hyphenated);
    let n1 = simplify_vec(&s1);
    let n2 = simplify_vec(&s2);
    proof {
        assert forall|t: int| 0 <= t < s1@.len() implies is_marker(n1@[t]) == is_marker(
            s1@[t],
        ) by {
            assert(n1@[t] == norm_char(s1@[t]));
            lemma_norm_char_marker(s1@[t]);
        }
        lemma_count_marks_zero(s2@);
    }
    let rails = align_sequences(&n1, &n2);
    let a1 = rails.0;
    let a2 = rails.1;
    let ghost m = s1@.len() as int;
    let ghost n = s2@.len() as int;
    let ghost path = align_path(n1@, n2@, m, n);
    proof {
        assert(a1@ == alignment_first(n1@, n2@));
        assert(a2@ == alignment_second(n1@, n2@));
        assert(a1@.len() == path.len());
        assert forall|u: int| 0 <= u < path.len() implies #[trigger] path[u] == (a1@[u], a2@[u]) by {
            assert(a1@[u] == path[u].0);
            assert(a2@[u] == path[u].1);
        }
    }
    let mut result: Vec<char> = Vec::new();
    let ghost mut b: int = 0;
    let ghost mut c: int = 0;
    let mut k: usize = 0;
    let klen = a1.len();
    proof {
        assert(somes(a1@.take(0)) =~= range_seq(0, 0));
        assert(somes(a2@.take(0)) =~= range_seq(0, 0));
        assert(count_marks(s1@.take(0)) == 0);
        assert(remove_marks(result@) =~= s2@.take(0));
        assert(path.take(0) =~= Seq::<(Option<usize>, Option<usize>)>::empty());
    }
    while k < klen
        invariant
            k <= a1@.len(),
            0 <= b <= m,
            0 <= c <= n,
            somes(a1@.take(k as int)) == range_seq(0, b),
            somes(a2@.take(k as int)) == range_seq(0, c),
            count_marks(result@) == count_marks(s1@.take(b)),
            remove_marks(result@) == s2@.take(c),
            result@ == consume_path(s1@, s2@, path.take(k as int)),
        decreases a1@.len() - k,
    {
        proof {
            lemma_somes_step(a1@, m, k as int, b);
            lemma_somes_step(a2@, n, k as int, c);
            lemma_take_succ(path, k as int);
            assert(path[k as int] == (a1@[k as int], a2@[k as int]));
        }
        let e1 = a1[k];
        let e2 = a2[k];
        let ghost oldr = result@;
        match e1 {
            Some(bi) => {
                proof {
                    assert(bi as int == b && b < m);
                }
                if s1[bi] == '-' {
                    result.push('-');
                    proof {
                        assert(is_marker(n1@[b]));
                        assert(a2@[k as int] is None);
                        assert(result@.drop_last() =~= oldr);
                        lemma_take_succ(s1@, b);
                        b = b + 1;
                    }
                } else {
                    match e2 {
                        Some(ci) => {
                            proof {
                                assert(ci as int == c && c < n);
                            }
                            let ch = s2[ci];
                            result.push(ch);
                            proof {
                                assert(!is_marker(s2@[c]));
                                assert(result@.drop_last() =~= oldr);
                                assert(remove_marks(result@) =~= s2@.take(c) + seq![s2@[c]]);
                                lemma_take_succ(s2@, c);
                                assert(s2@.take(c) + seq![s2@[c]] =~= s2@.take(c + 1));
                                lemma_take_succ(s1@, b);
                                b = b + 1;
                                c = c + 1;
                            }
                        },
                        None => {
                            proof {
                                lemma_take_succ(s1@, b);
                                b = b + 1;
                            }
                        },
                    }
                }
            },
            None => {
                match e2 {
                    Some(ci) => {
                        proof {
                            assert(ci as int == c && c < n);
                        }
                        let ch = s2[ci];
                        result.push(ch);
                        proof {
                            assert(!is_marker(s2@[c]));
                            assert(result@.drop_last() =~= oldr);
                            assert(remove_marks(result@) =~= s2@.take(c) + seq![s2@[c]]);
                            lemma_take_succ(s2@, c);
                            assert(s2@.take(c) + seq![s2@[c]] =~= s2@.take(c + 1));
                            c = c + 1;
                        }
                    },
                    None => {
                    },
                }
            },
        }
        k = k + 1;
    }
    proof {
        lemma_take_full(a1@);
        lemma_take_full(a2@);
        lemma_take_full(path);
        assert(somes(a1@) == range_seq(0, b));
        assert(range_seq(0, b).len() == b);
        assert(range_seq(0, m).len() == m);
        assert(b == m);
        assert(c == n);
        lemma_take_full(s1@);
        lemma_take_full(s2@);
    }
    string_from_chars(&result)
}

/// Transfer markers in whichever direction applies: when the first word
/// carries the markers they are transferred onto the second; when it carries
/// none, the second word's markers are transferred onto the first.  One of
/// the two words must be unmarked.
pub fn transform(original: &str, ipa: &str) -> (r: String)
    requires
        count_marks(original@) == 0 || count_marks(ipa@) == 0,
        original@.len() <= MAX_WORD_LEN,
        ipa@.len() <= MAX_WORD_LEN,
    ensures
        r@ == transform_spec(original@, ipa@),
        count_marks(r@) == count_marks(original@) + count_marks(ipa@),
        count_marks(original@) > 0 ==> remove_marks(r@) == ipa@,
        count_marks(original@) == 0 ==> remove_marks(r@) == original@,
{
    let h = count_hyphens(original);
    if h > 0 {
        transfer_hyphens(original, ipa)
    } else {
        transfer_hyphens(ipa, original)
    }
}

} // verus!
