//! The Boundary Transfer pipeline.
//!
//! Given a marked source word and an unmarked target word, the pipeline
//! counts the source's markers, enumerates every admissible placement of that
//! many markers in the target, ranks the candidates by the Similarity Score
//! of their normalized forms against the normalized source, keeps the
//! top-scoring ones, and narrows those by Levenshtein distance against the
//! normalized marker-stripped source.  `transform` then returns the first
//! survivor in generation order — the first-seen tie-break, the defined
//! fallback when no external judgment is available — while
//! `transform_with_resynthesis` hands a residual tie to the
//! phonetic-resynthesis strategy.  When no candidate can be generated at
//! all, the unmarked target is returned unchanged.

use vstd::prelude::*;
use vstd::string::StringExecFns;
use crate::candidates::{admissible_positions, candidate_list, combos, generate_candidates, iota,
    lemma_candidate_list_props, lemma_combos_contains_iota, lemma_filter_valid_contains,
    valid_positions, with_markers};
use crate::levenshtein::{lev, levenshtein};
use crate::norm::{norm_seq, simplify_vec};
use crate::scoring::{similarity_core, sim_score};
use crate::tiebreak::{first_resyn_idx, lemma_first_resyn_idx_in_range, pick_by_resynthesis};
use crate::textseq::{MAX_WORD_LEN, chars_of, count_marks, count_marks_vec, is_marker,
    lemma_count_marks_le, lemma_count_marks_zero, lemma_remove_marks_unmarked, lemma_take_full,
    lemma_take_succ, remove_marks, remove_marks_vec, string_from_chars};

verus! {

/// The score of one candidate in the first selection stage: its normalized
/// form against the normalized source.
pub open spec fn cand_sim(src_n: Seq<char>, cand: Seq<char>) -> nat {
    sim_score(src_n, norm_seq(cand))
}

/// The best Similarity Score among the candidates.
pub open spec fn max_sim(src_n: Seq<char>, cands: Seq<Seq<char>>) -> nat
    decreases cands.len(),
{
    if cands.len() == 0 {
        0
    } else {
        let rest = max_sim(src_n, cands.drop_last());
        let s = cand_sim(src_n, cands.last());
        if s > rest {
            s
        } else {
            rest
        }
    }
}

/// The candidates whose Similarity Score equals `goal`, in their given order.
pub open spec fn keep_sim(src_n: Seq<char>, cands: Seq<Seq<char>>, goal: nat) -> Seq<Seq<char>>
    decreases cands.len(),
{
    if cands.len() == 0 {
        Seq::empty()
    } else {
        keep_sim(src_n, cands.drop_last(), goal) + (if cand_sim(src_n, cands.last()) == goal {
            seq![cands.last()]
        } else {
            Seq::empty()
        })
    }
}

/// The first selection stage: the candidates of maximal Similarity Score.
pub open spec fn best_by_sim(src_n: Seq<char>, cands: Seq<Seq<char>>) -> Seq<Seq<char>> {
    keep_sim(src_n, cands, max_sim(src_n, cands))
}

/// The distance of one candidate in the refinement stage: the Levenshtein
/// distance of its normalized form from the normalized marker-stripped
/// source.
pub open spec fn cand_dist(stripped_n: Seq<char>, cand: Seq<char>) -> nat {
    lev(stripped_n, norm_seq(cand))
}

/// The least distance among the candidates (of a non-empty candidate set).
pub open spec fn min_dist(src_n: Seq<char>, cands: Seq<Seq<char>>) -> nat
    decreases cands.len(),
{
    if cands.len() == 0 {
        0
    } else {
        let d = cand_dist(src_n, cands.last());
        if cands.len() == 1 {
            d
        } else {
            let rest = min_dist(src_n, cands.drop_last());
            if d < rest {
                d
            } else {
                rest
            }
        }
    }
}

/// The candidates whose distance equals `goal`, in their given order.
pub open spec fn keep_dist(src_n: Seq<char>, cands: Seq<Seq<char>>, goal: nat) -> Seq<
    Seq<char>,
>
    decreases cands.len(),
{
    if cands.len() == 0 {
        Seq::empty()
    } else {
        keep_dist(src_n, cands.drop_last(), goal) + (if cand_dist(src_n, cands.last())
            == goal {
            seq![cands.last()]
        } else {
            Seq::empty()
        })
    }
}

/// The refinement stage: the candidates of minimal distance.
pub open spec fn best_by_dist(src_n: Seq<char>, cands: Seq<Seq<char>>) -> Seq<Seq<char>> {
    keep_dist(src_n, cands, min_dist(src_n, cands))
}

/// The candidates that survive both selection stages, in generation order.
pub open spec fn refined_candidates(h: Seq<char>, t: Seq<char>) -> Seq<Seq<char>> {
    best_by_dist(
        norm_seq(remove_marks(h)),
        best_by_sim(norm_seq(h), candidate_list(t, count_marks(h))),
    )
}

/// What the transfer returns: the first surviving candidate, or the unmarked
/// target unchanged when no candidate could be generated.
pub open spec fn transfer_spec(h: Seq<char>, t: Seq<char>) -> Seq<char> {
    let r = refined_candidates(h, t);
    if r.len() == 0 {
        t
    } else {
        r[0]
    }
}

/// A fresh copy of a character vector.
fn clone_chars(v: &Vec<char>) -> (r: Vec<char>)
    ensures
        r@ == v@,
{
    let mut r: Vec<char> = Vec::new();
    let mut i: usize = 0;
    while i < v.len()
        invariant
            i <= v@.len(),
            r@ == v@.take(i as int),
        decreases v@.len() - i,
    {
        let c = v[i];
        r.push(c);
        proof {
            lemma_take_succ(v@, i as int);
        }
        i = i + 1;
    }
    proof {
        lemma_take_full(v@);
    }
    r
}

/// The candidates that survive scoring and distance refinement, in generation
/// order.  More than one element means the caller faces a genuine tie.
pub fn transfer_candidates(hyphenated: &str, target: &str) -> (r: Vec<String>)
    requires
        hyphenated@.len() <= MAX_WORD_LEN,
        target@.len() <= MAX_WORD_LEN,
    ensures
        r@.map_values(|s: String| s@) == refined_candidates(hyphenated@, target@),
{
    let h = chars_of(hyphenated);
    let t = chars_of(target);
    let k = count_marks_vec(&h);
    proof {
        lemma_count_marks_le(h@);
    }
    let cands = generate_candidates(&t, k);
    let ghost clist = cands@.map_values(|v: Vec<char>| v@);
    proof {
        lemma_candidate_list_props(t@, k as nat);
    }
    let hn = simplify_vec(&h);
    let stripped = remove_marks_vec(&h);
    let refn = simplify_vec(&stripped);
    let ghost src_n = norm_seq(h@);
    let ghost refs = norm_seq(remove_marks(h@));

    // Similarity Score of every candidate.
    let mut scores: Vec<u64> = Vec::new();
    let mut i: usize = 0;
    while i < cands.len()
        invariant
            i <= cands@.len(),
            scores@.len() == i,
            forall|u: int| 0 <= u < i ==> #[trigger] scores@[u] as nat == cand_sim(src_n, clist[u]),
        decreases cands@.len() - i,
    {
        let cn = simplify_vec(&cands[i]);
        let s = similarity_core(&hn, &cn);
        proof {
            assert(clist[i as int] == cands@[i as int]@);
        }
        scores.push(s);
        i = i + 1;
    }

    // The maximal score.
    let mut best: u64 = 0;
    i = 0;
    while i < scores.len()
        invariant
            i <= scores@.len(),
            best as nat == max_sim(src_n, clist.take(i as int)),
        decreases scores@.len() - i,
    {
        proof {
            lemma_take_succ(clist, i as int);
        }
        if scores[i] > best {
            best = scores[i];
        }
        i = i + 1;
    }
    proof {
        lemma_take_full(clist);
    }

    // Keep the top-scoring candidates.
    let mut kept: Vec<Vec<char>> = Vec::new();
    i = 0;
    while i < cands.len()
        invariant
            i <= cands@.len(),
            kept@.map_values(|v: Vec<char>| v@) == keep_sim(src_n, clist.take(i as int), best as nat),
        decreases cands@.len() - i,
    {
        proof {
            lemma_take_succ(clist, i as int);
        }
        if scores[i] == best {
            let ghost old_map = kept@.map_values(|v: Vec<char>| v@);
            let c = clone_chars(&cands[i]);
            kept.push(c);
            proof {
                let m = kept@.map_values(|v: Vec<char>| v@);
                let rhs = keep_sim(src_n, clist.take(i + 1), best as nat);
                assert(rhs =~= keep_sim(src_n, clist.take(i as int), best as nat) + seq![clist[i as int]]);
                assert forall|u: int| 0 <= u < m.len() implies m[u] == rhs[u] by {
                    if u < old_map.len() {
                        assert(m[u] == kept@[u]@);
                        assert(old_map[u] == rhs[u]);
                    }
                }
                assert(m =~= rhs);
            }
        } else {
            proof {
                assert(keep_sim(src_n, clist.take(i + 1), best as nat) =~= keep_sim(
                    src_n,
                    clist.take(i as int),
                    best as nat,
                ));
            }
        }
        i = i + 1;
    }
    let ghost keptlist = kept@.map_values(|v: Vec<char>| v@);
    proof {
        assert(keptlist == best_by_sim(src_n, clist));
    }

    // Distance of every surviving candidate from the stripped source.
    proof {
        lemma_keep_sim_elems(src_n, clist, best as nat);
        crate::textseq::lemma_remove_marks_le(h@);
    }
    let mut dists: Vec<usize> = Vec::new();
    i = 0;
    while i < kept.len()
        invariant
            i <= kept@.len(),
            dists@.len() == i,
            forall|u: int| 0 <= u < i ==> #[trigger] dists@[u] as nat == cand_dist(refs, keptlist[u]),
        decreases kept@.len() - i,
    {
        let cn = simplify_vec(&kept[i]);
        proof {
            assert(keptlist[i as int] == kept@[i as int]@);
            assert(clist.contains(keptlist[i as int]));
            let u = choose|u: int| 0 <= u < clist.len() && clist[u] == keptlist[i as int];
            assert(clist[u].len() == t@.len() + k);
            assert(refn@.len() + cn@.len() < usize::MAX);
        }
        let d = levenshtein(&refn, &cn);
        dists.push(d);
        i = i + 1;
    }

    // The least distance, and the survivors that reach it.
    let mut out: Vec<String> = Vec::new();
    if kept.len() > 0 {
        let mut bestd: usize = dists[0];
        proof {
            assert(keptlist.take(1).drop_last() =~= Seq::<Seq<char>>::empty());
            assert(keptlist.take(1).last() == keptlist[0]);
            assert(bestd as nat == min_dist(refs, keptlist.take(1)));
        }
        i = 1;
        while i < dists.len()
            invariant
                1 <= i <= dists@.len(),
                dists@.len() == keptlist.len(),
                bestd as nat == min_dist(refs, keptlist.take(i as int)),
            decreases dists@.len() - i,
        {
            proof {
                lemma_take_succ(keptlist, i as int);
            }
            if dists[i] < bestd {
                bestd = dists[i];
            }
            i = i + 1;
        }
        proof {
            lemma_take_full(keptlist);
        }
        i = 0;
        while i < kept.len()
            invariant
                i <= kept@.len(),
                out@.map_values(|s: String| s@) == keep_dist(refs, keptlist.take(i as int), bestd as nat),
            decreases kept@.len() - i,
        {
            proof {
                lemma_take_succ(keptlist, i as int);
            }
            if dists[i] == bestd {
                let ghost old_map = out@.map_values(|s: String| s@);
                let w = string_from_chars(&kept[i]);
                out.push(w);
                proof {
                    let m = out@.map_values(|s: String| s@);
                    let rhs = keep_dist(refs, keptlist.take(i + 1), bestd as nat);
                    assert(rhs =~= keep_dist(refs, keptlist.take(i as int), bestd as nat)
                        + seq![keptlist[i as int]]);
                    assert forall|u: int| 0 <= u < m.len() implies m[u] == rhs[u] by {
                        if u < old_map.len() {
                            assert(m[u] == out@[u]@);
                            assert(old_map[u] == rhs[u]);
                        }
                    }
                    assert(m =~= rhs);
                }
            } else {
                proof {
                    assert(keep_dist(refs, keptlist.take(i + 1), bestd as nat) =~= keep_dist(
                        refs,
                        keptlist.take(i as int),
                        bestd as nat,
                    ));
                }
            }
            i = i + 1;
        }
        proof {
            lemma_take_full(keptlist);
        }
    } else {
        proof {
            assert(keptlist.take(0) =~= keptlist);
            assert(out@.map_values(|s: String| s@) =~= keep_dist(refs, keptlist, 0nat));
        }
    }
    out
}

/// Transfer the source's boundary markers onto the unmarked target: the
/// public operation of the pipeline.
///
/// The result is the first surviving candidate of `refined_candidates`, or
/// the target unchanged when no candidate exists.  The result is a pure
/// function of the two inputs: repeated calls agree.  A source without
/// markers hands the target back unchanged, and every result over an
/// unmarked target strips back to that target.
pub fn transform(hyphenated: &str, target: &str) -> (r: String)
    requires
        hyphenated@.len() <= MAX_WORD_LEN,
        target@.len() <= MAX_WORD_LEN,
    ensures
        r@ == transfer_spec(hyphenated@, target@),
        count_marks(hyphenated@) == 0 ==> r@ == target@,
        count_marks(target@) == 0 ==> remove_marks(r@) == target@,
{
    proof {
        if count_marks(hyphenated@) == 0 {
            lemma_transfer_no_marks(hyphenated@, target@);
        }
        if count_marks(target@) == 0 {
            lemma_transfer_restrip(hyphenated@, target@);
        }
    }
    let cands = transfer_candidates(hyphenated, target);
    if cands.len() == 0 {
        String::from_str(target)
    } else {
        let ghost m = cands@.map_values(|s: String| s@);
        proof {
            assert(m[0] == cands@[0]@);
        }
        cands[0].clone()
    }
}

/// What the transfer returns when residual ties go to the
/// phonetic-resynthesis strategy: the strategy's pick among the survivors,
/// the lone survivor when there is no tie, and the unmarked target when no
/// candidate could be generated.
pub open spec fn transfer_resyn_spec(h: Seq<char>, t: Seq<char>, parts_ipa: Seq<Seq<char>>) -> Seq<
    char,
> {
    let r = refined_candidates(h, t);
    if r.len() == 0 {
        t
    } else if r.len() == 1 {
        r[0]
    } else {
        r[first_resyn_idx(parts_ipa, r)]
    }
}

/// Transfer with the phonetic-resynthesis tie-break: when more than one
/// candidate survives both selection stages, the winner is the one whose
/// marker-separated parts best match the given transcriptions of the
/// source's parts, first-seen on equal sums.  The caller obtains the part
/// transcriptions from the external phonemizer.
pub fn transform_with_resynthesis(
    hyphenated: &str,
    target: &str,
    part_transcriptions: &Vec<String>,
) -> (r: String)
    requires
        hyphenated@.len() <= MAX_WORD_LEN,
        target@.len() <= MAX_WORD_LEN,
        forall|i: int|
            0 <= i < part_transcriptions@.len() ==> (#[trigger] part_transcriptions@[i])@.len()
                <= MAX_WORD_LEN,
    ensures
        r@ == transfer_resyn_spec(
            hyphenated@,
            target@,
            part_transcriptions@.map_values(|s: String| s@),
        ),
{
    let cands = transfer_candidates(hyphenated, target);
    let ghost cviews = cands@.map_values(|s: String| s@);
    let ghost ipas = part_transcriptions@.map_values(|s: String| s@);
    if cands.len() == 0 {
        String::from_str(target)
    } else if cands.len() == 1 {
        proof {
            assert(cviews[0] == cands@[0]@);
        }
        cands[0].clone()
    } else {
        let picked = pick_by_resynthesis(&cands, part_transcriptions);
        proof {
            lemma_first_resyn_idx_in_range(ipas, cviews);
        }
        picked
    }
}

/// Everything the similarity filter keeps is one of the candidates.
pub proof fn lemma_keep_sim_elems(src_n: Seq<char>, cands: Seq<Seq<char>>, goal: nat)
    ensures
        forall|t: int|
            0 <= t < keep_sim(src_n, cands, goal).len() ==> cands.contains(
                #[trigger] keep_sim(src_n, cands, goal)[t],
            ) && cand_sim(src_n, keep_sim(src_n, cands, goal)[t]) == goal,
    decreases cands.len(),
{
    if cands.len() > 0 {
        lemma_keep_sim_elems(src_n, cands.drop_last(), goal);
        assert forall|t: int| 0 <= t < keep_sim(src_n, cands, goal).len() implies cands.contains(
            #[trigger] keep_sim(src_n, cands, goal)[t],
        ) && cand_sim(src_n, keep_sim(src_n, cands, goal)[t]) == goal by {
            let prefix = keep_sim(src_n, cands.drop_last(), goal);
            if t < prefix.len() {
                assert(keep_sim(src_n, cands, goal)[t] == prefix[t]);
                let u = choose|u: int|
                    0 <= u < cands.drop_last().len() && cands.drop_last()[u] == prefix[t];
                assert(cands[u] == prefix[t]);
            } else {
                assert(keep_sim(src_n, cands, goal)[t] == cands.last());
                assert(cands[cands.len() - 1] == cands.last());
            }
        }
    }
}

/// Everything the distance filter keeps is one of its input candidates.
pub proof fn lemma_keep_dist_elems(src_n: Seq<char>, cands: Seq<Seq<char>>, goal: nat)
    ensures
        forall|t: int|
            0 <= t < keep_dist(src_n, cands, goal).len() ==> cands.contains(
                #[trigger] keep_dist(src_n, cands, goal)[t],
            ) && cand_dist(src_n, keep_dist(src_n, cands, goal)[t]) == goal,
    decreases cands.len(),
{
    if cands.len() > 0 {
        lemma_keep_dist_elems(src_n, cands.drop_last(), goal);
        assert forall|t: int|
            0 <= t < keep_dist(src_n, cands, goal).len() implies cands.contains(
            #[trigger] keep_dist(src_n, cands, goal)[t],
        ) && cand_dist(src_n, keep_dist(src_n, cands, goal)[t]) == goal by {
            let prefix = keep_dist(src_n, cands.drop_last(), goal);
            if t < prefix.len() {
                assert(keep_dist(src_n, cands, goal)[t] == prefix[t]);
                let u = choose|u: int|
                    0 <= u < cands.drop_last().len() && cands.drop_last()[u] == prefix[t];
                assert(cands[u] == prefix[t]);
            } else {
                assert(keep_dist(src_n, cands, goal)[t] == cands.last());
                assert(cands[cands.len() - 1] == cands.last());
            }
        }
    }
}

/// The maximal score is reached: filtering a non-empty candidate set by its
/// own maximum keeps at least one candidate.
pub proof fn lemma_best_by_sim_nonempty(src_n: Seq<char>, cands: Seq<Seq<char>>)
    requires
        cands.len() > 0,
    ensures
        best_by_sim(src_n, cands).len() > 0,
    decreases cands.len(),
{
    let goal = max_sim(src_n, cands);
    if cand_sim(src_n, cands.last()) == goal {
    } else {
        assert(max_sim(src_n, cands.drop_last()) == goal);
        lemma_best_by_sim_nonempty(src_n, cands.drop_last());
    }
}

/// The minimal distance is reached as well.
pub proof fn lemma_best_by_dist_nonempty(src_n: Seq<char>, cands: Seq<Seq<char>>)
    requires
        cands.len() > 0,
    ensures
        best_by_dist(src_n, cands).len() > 0,
    decreases cands.len(),
{
    let goal = min_dist(src_n, cands);
    if cand_dist(src_n, cands.last()) == goal {
    } else {
        assert(cands.len() > 1);
        assert(min_dist(src_n, cands.drop_last()) == goal);
        lemma_best_by_dist_nonempty(src_n, cands.drop_last());
    }
}

/// Every surviving candidate is one of the generated candidates.
pub proof fn lemma_refined_subset(h: Seq<char>, t: Seq<char>)
    ensures
        forall|i: int|
            0 <= i < refined_candidates(h, t).len() ==> candidate_list(
                t,
                count_marks(h),
            ).contains(#[trigger] refined_candidates(h, t)[i]),
{
    let src_n = norm_seq(h);
    let refs = norm_seq(remove_marks(h));
    let cl = candidate_list(t, count_marks(h));
    let bs = best_by_sim(src_n, cl);
    lemma_keep_dist_elems(refs, bs, min_dist(refs, bs));
    lemma_keep_sim_elems(src_n, cl, max_sim(src_n, cl));
    assert forall|i: int| 0 <= i < refined_candidates(h, t).len() implies cl.contains(
        #[trigger] refined_candidates(h, t)[i],
    ) by {
        let x = refined_candidates(h, t)[i];
        assert(bs.contains(x));
        let u = choose|u: int| 0 <= u < bs.len() && bs[u] == x;
        assert(cl.contains(bs[u]));
    }
}

/// Law: a source with zero boundary markers transfers to the unmarked target
/// unchanged.
pub proof fn lemma_transfer_no_marks(h: Seq<char>, t: Seq<char>)
    requires
        count_marks(h) == 0,
    ensures
        transfer_spec(h, t) == t,
{
    let n = t.len() as int;
    let all = combos(1, n, 0);
    assert(all =~= seq![Seq::<int>::empty()]);
    let adm = admissible_positions(n, 0);
    assert(all.drop_last() =~= Seq::<Seq<int>>::empty());
    assert(all.last() == Seq::<int>::empty());
    assert(valid_positions(Seq::<int>::empty(), n));
    assert(crate::candidates::filter_valid(Seq::<Seq<int>>::empty(), n)
        =~= Seq::<Seq<int>>::empty());
    assert(adm =~= seq![Seq::<int>::empty()]);
    assert(with_markers(t, Seq::<int>::empty()) == t);
    let cl = candidate_list(t, 0);
    assert(cl =~= seq![t]);
    let src_n = norm_seq(h);
    let refs = norm_seq(remove_marks(h));
    assert(cl.drop_last() =~= Seq::<Seq<char>>::empty());
    assert(cl.last() == t);
    assert(max_sim(src_n, Seq::<Seq<char>>::empty()) == 0);
    assert(max_sim(src_n, cl) == cand_sim(src_n, t));
    let bs = best_by_sim(src_n, cl);
    assert(keep_sim(src_n, Seq::<Seq<char>>::empty(), cand_sim(src_n, t))
        =~= Seq::<Seq<char>>::empty());
    assert(bs =~= seq![t]);
    assert(bs.drop_last() =~= Seq::<Seq<char>>::empty());
    assert(bs.last() == t);
    assert(min_dist(refs, bs) == cand_dist(refs, t));
    assert(keep_dist(refs, Seq::<Seq<char>>::empty(), cand_dist(refs, t))
        =~= Seq::<Seq<char>>::empty());
    assert(best_by_dist(refs, bs) =~= seq![t]);
    assert(refined_candidates(h, t) == seq![t]);
}

/// When the source's marker count fits the target (zero markers, or at most
/// the target's interior positions), at least one candidate survives both
/// selection stages.
pub proof fn lemma_refined_nonempty(h: Seq<char>, t: Seq<char>)
    requires
        count_marks(h) == 0 || count_marks(h) + 2 <= t.len(),
    ensures
        refined_candidates(h, t).len() > 0,
{
    let k = count_marks(h);
    let n = t.len() as int;
    let cl = candidate_list(t, k);
    if k == 0 {
        lemma_transfer_no_marks(h, t);
        assert(cl.len() > 0) by {
            let all = combos(1, n, 0);
            assert(all =~= seq![Seq::<int>::empty()]);
            assert(all.drop_last() =~= Seq::<Seq<int>>::empty());
            assert(all.last() == Seq::<int>::empty());
            assert(valid_positions(Seq::<int>::empty(), n));
            assert(crate::candidates::filter_valid(Seq::<Seq<int>>::empty(), n)
                =~= Seq::<Seq<int>>::empty());
            assert(admissible_positions(n, 0) =~= seq![Seq::<int>::empty()]);
        }
    } else {
        lemma_combos_contains_iota(1, n, k);
        let ps = iota(1, k);
        assert(ps[0] == 1);
        assert(ps.last() == k as int);
        assert(valid_positions(ps, n));
        lemma_filter_valid_contains(combos(1, n, k), n, ps);
        let adm = admissible_positions(n, k);
        let u = choose|u: int| 0 <= u < adm.len() && adm[u] == ps;
        assert(cl.len() == adm.len());
        assert(cl.len() > 0);
    }
    lemma_best_by_sim_nonempty(norm_seq(h), cl);
    lemma_best_by_dist_nonempty(norm_seq(remove_marks(h)), best_by_sim(norm_seq(h), cl));
}

/// Law: the boundary count is preserved.  With an unmarked target and a
/// marker count that fits the target, the transfer result carries exactly as
/// many markers as the marked source.  (A count that cannot fit — more
/// markers than interior positions — generates no candidate, and the pipeline
/// falls back to the unmarked target.)
pub proof fn lemma_transfer_count(h: Seq<char>, t: Seq<char>)
    requires
        count_marks(t) == 0,
        count_marks(h) == 0 || count_marks(h) + 2 <= t.len(),
    ensures
        count_marks(transfer_spec(h, t)) == count_marks(h),
{
    let k = count_marks(h);
    lemma_refined_nonempty(h, t);
    lemma_refined_subset(h, t);
    let r = refined_candidates(h, t);
    let cl = candidate_list(t, k);
    assert(cl.contains(r[0]));
    let v = choose|v: int| 0 <= v < cl.len() && cl[v] == r[0];
    lemma_candidate_list_props(t, k);
    assert(count_marks(cl[v]) == count_marks(t) + k);
}

/// Law: no marker ever stands at the first or at the final position of a
/// transfer result.
pub proof fn lemma_transfer_edges(h: Seq<char>, t: Seq<char>)
    requires
        count_marks(t) == 0,
    ensures
        ({
            let r = transfer_spec(h, t);
            r.len() > 0 ==> !is_marker(r[0]) && !is_marker(r.last())
        }),
{
    let k = count_marks(h);
    let rl = refined_candidates(h, t);
    lemma_count_marks_zero(t);
    if rl.len() == 0 {
    } else {
        lemma_refined_subset(h, t);
        let cl = candidate_list(t, k);
        assert(cl.contains(rl[0]));
        let v = choose|v: int| 0 <= v < cl.len() && cl[v] == rl[0];
        lemma_candidate_list_props(t, k);
        if t.len() > 0 {
            assert(cl[v][0] == t[0] && cl[v].last() == t.last());
        } else {
            assert(cl[v].len() == k as int);
            if k > 0 {
                assert(combos(1, 0, k) =~= Seq::<Seq<int>>::empty());
                assert(admissible_positions(0, k) =~= Seq::<Seq<int>>::empty());
                assert(cl.len() == 0);
            }
        }
    }
}

/// Law: re-stripping is stable.  The transfer result strips back to the
/// unmarked target itself, so stripping and normalizing the result gives the
/// same normalized form as stripping and normalizing the target.
pub proof fn lemma_transfer_restrip(h: Seq<char>, t: Seq<char>)
    requires
        count_marks(t) == 0,
    ensures
        remove_marks(transfer_spec(h, t)) == t,
        norm_seq(remove_marks(transfer_spec(h, t))) == norm_seq(remove_marks(t)),
{
    let k = count_marks(h);
    let rl = refined_candidates(h, t);
    lemma_remove_marks_unmarked(t);
    if rl.len() > 0 {
        lemma_refined_subset(h, t);
        let cl = candidate_list(t, k);
        assert(cl.contains(rl[0]));
        let v = choose|v: int| 0 <= v < cl.len() && cl[v] == rl[0];
        lemma_candidate_list_props(t, k);
        assert(remove_marks(cl[v]) == remove_marks(t));
    }
}

} // verus!
