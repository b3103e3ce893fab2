//! The Similarity Scorer: a local character-overlap metric computed around
//! each boundary.  For every pair of corresponding boundaries (by ordinal
//! index) in the source and in a candidate, the score counts the source
//! characters to the left of the source boundary that also occur anywhere to
//! the left of the candidate boundary, plus the same count on the right.  The
//! metric is insensitive to character order and to absolute position, by
//! design: corresponding graphemes of two alphabets are rarely aligned.

use vstd::prelude::*;
use crate::textseq::{chars_of, lemma_mark_positions_in_range, lemma_mark_positions_len,
    lemma_take_full, lemma_take_succ, mark_positions, marks_of_vec, nat_min};

verus! {

/// How many characters of `a` (counted with multiplicity) occur in `b`.
pub open spec fn overlap(a: Seq<char>, b: Seq<char>) -> nat
    decreases a.len(),
{
    if a.len() == 0 {
        0
    } else {
        overlap(a.drop_last(), b) + (if b.contains(a.last()) {
            1nat
        } else {
            0nat
        })
    }
}

pub proof fn lemma_overlap_le(a: Seq<char>, b: Seq<char>)
    ensures
        overlap(a, b) <= a.len(),
    decreases a.len(),
{
    if a.len() > 0 {
        lemma_overlap_le(a.drop_last(), b);
    }
}

/// The contribution of one boundary pair: the overlap of the substrings to
/// the left of the two boundaries plus the overlap of the substrings to
/// their right.
pub open spec fn pair_score(src: Seq<char>, cand: Seq<char>, h: int, c: int) -> nat {
    overlap(src.take(h), cand.take(c)) + overlap(src.skip(h + 1), cand.skip(c + 1))
}

/// The summed contributions of the first `m` boundary pairs.
pub open spec fn sim_upto(src: Seq<char>, cand: Seq<char>, m: nat) -> nat
    decreases m,
{
    if m == 0 {
        0
    } else {
        sim_upto(src, cand, (m - 1) as nat) + pair_score(
            src,
            cand,
            mark_positions(src)[m - 1],
            mark_positions(cand)[m - 1],
        )
    }
}

/// The Similarity Score of a candidate against the source: the sum over all
/// corresponding boundary pairs.
pub open spec fn sim_score(src: Seq<char>, cand: Seq<char>) -> nat {
    sim_upto(src, cand, nat_min(mark_positions(src).len(), mark_positions(cand).len()))
}

pub proof fn lemma_pair_score_le(src: Seq<char>, cand: Seq<char>, h: int, c: int)
    requires
        0 <= h < src.len(),
    ensures
        pair_score(src, cand, h, c) <= src.len(),
{
    lemma_overlap_le(src.take(h), cand.take(c));
    lemma_overlap_le(src.skip(h + 1), cand.skip(c + 1));
}

pub proof fn lemma_sim_upto_le(src: Seq<char>, cand: Seq<char>, m: nat)
    requires
        m <= mark_positions(src).len(),
    ensures
        sim_upto(src, cand, m) <= m * src.len(),
    decreases m,
{
    if m > 0 {
        lemma_sim_upto_le(src, cand, (m - 1) as nat);
        lemma_mark_positions_in_range(src);
        lemma_pair_score_le(src, cand, mark_positions(src)[m - 1], mark_positions(cand)[m - 1]);
        assert((m - 1) * src.len() + src.len() == m * src.len()) by (nonlinear_arith);
    }
}

pub proof fn lemma_sim_score_le(src: Seq<char>, cand: Seq<char>)
    ensures
        sim_score(src, cand) <= src.len() * src.len(),
{
    let m = nat_min(mark_positions(src).len(), mark_positions(cand).len());
    lemma_sim_upto_le(src, cand, m);
    lemma_mark_positions_len(src);
    crate::textseq::lemma_count_marks_le(src);
    assert(m * src.len() <= src.len() * src.len()) by (nonlinear_arith)
        requires m <= src.len();
}

/// Whether `c` occurs in `b[from..to]`.
fn contains_char_range(b: &Vec<char>, from: usize, to: usize, c: char) -> (r: bool)
    requires
        from <= to <= b@.len(),
    ensures
        r == b@.subrange(from as int, to as int).contains(c),
{
    let ghost sub = b@.subrange(from as int, to as int);
    let mut i: usize = from;
    while i < to
        invariant
            from <= i <= to,
            forall|t: int| from <= t < i ==> b@[t] != c,
        decreases to - i,
    {
        if b[i] == c {
            proof {
                assert(sub[i - from] == c);
            }
            return true;
        }
        i = i + 1;
    }
    proof {
        assert forall|t: int| 0 <= t < sub.len() implies sub[t] != c by {
            assert(sub[t] == b@[from + t]);
        }
    }
    false
}

/// The overlap of `a[a_from..a_to]` with `b[b_from..b_to]`.
fn overlap_range(a: &Vec<char>, a_from: usize, a_to: usize, b: &Vec<char>, b_from: usize, b_to: usize) -> (r: usize)
    requires
        a_from <= a_to <= a@.len(),
        b_from <= b_to <= b@.len(),
    ensures
        r as nat == overlap(
            a@.subrange(a_from as int, a_to as int),
            b@.subrange(b_from as int, b_to as int),
        ),
        r <= a_to - a_from,
{
    let ghost bsub = b@.subrange(b_from as int, b_to as int);
    let mut r: usize = 0;
    let mut i: usize = a_from;
    while i < a_to
        invariant
            a_from <= i <= a_to,
            r <= i - a_from,
            r as nat == overlap(a@.subrange(a_from as int, i as int), bsub),
        decreases a_to - i,
    {
        proof {
            assert(a@.subrange(a_from as int, i + 1).drop_last() =~= a@.subrange(
                a_from as int,
                i as int,
            ));
            assert(a@.subrange(a_from as int, i + 1).last() == a@[i as int]);
        }
        let hit = contains_char_range(b, b_from, b_to, a[i]);
        if hit {
            r = r + 1;
        }
        i = i + 1;
    }
    r
}

/// The Similarity Score of a candidate against the source, both given as
/// character vectors.
pub fn similarity_core(src: &Vec<char>, cand: &Vec<char>) -> (r: u64)
    requires
        src@.len() <= 0xFFFF_FFFF,
    ensures
        r as nat == sim_score(src@, cand@),
{
    let hp = marks_of_vec(src);
    let cp = marks_of_vec(cand);
    proof {
        lemma_mark_positions_in_range(src@);
        lemma_mark_positions_in_range(cand@);
        lemma_mark_positions_len(src@);
        crate::textseq::lemma_count_marks_le(src@);
    }
    let m: usize = if hp.len() <= cp.len() {
        hp.len()
    } else {
        cp.len()
    };
    proof {
        assert(m as nat == nat_min(mark_positions(src@).len(), mark_positions(cand@).len()));
    }
    let mut r: u64 = 0;
    let mut idx: usize = 0;
    while idx < m
        invariant
            idx <= m,
            r as nat == sim_upto(src@, cand@, idx as nat),
        decreases m - idx,
    {
        let h = hp[idx];
        let c = cp[idx];
        proof {
            assert(hp@.map_values(|x: usize| x as int)[idx as int] == mark_positions(src@)[idx as int]);
            assert(cp@.map_values(|x: usize| x as int)[idx as int] == mark_positions(cand@)[idx as int]);
            assert((h as int) < src@.len());
            assert((c as int) < cand@.len());
        }
        let clen = cand.len();
        let left = overlap_range(src, 0, h, cand, 0, c);
        let right = overlap_range(src, h + 1, src.len(), cand, c + 1, clen);
        proof {
            assert(src@.subrange(0, h as int) =~= src@.take(h as int));
            assert(cand@.subrange(0, c as int) =~= cand@.take(c as int));
            assert(src@.subrange(h + 1, src@.len() as int) =~= src@.skip(h + 1));
            assert(cand@.subrange(c + 1, cand@.len() as int) =~= cand@.skip(c + 1));
            assert(left + right == pair_score(src@, cand@, h as int, c as int));
            lemma_sim_upto_le(src@, cand@, idx as nat);
            assert(idx as nat * src@.len() <= 0xFFFF_FFFFnat * 0xFFFF_FFFFnat) by (nonlinear_arith)
                requires idx as nat <= 0xFFFF_FFFFnat && src@.len() <= 0xFFFF_FFFFnat;
        }
        r = r + ((left + right) as u64);
        idx = idx + 1;
    }
    r
}

/// The count of characters of the source part that occur anywhere in the
/// candidate part.
pub fn score_substring(hyphenated_part: &str, candidate_part: &str) -> (r: usize)
    ensures
        r as nat == overlap(hyphenated_part@, candidate_part@),
{
    let a = chars_of(hyphenated_part);
    let b = chars_of(candidate_part);
    let r = overlap_range(&a, 0, a.len(), &b, 0, b.len());
    proof {
        assert(a@.subrange(0, a@.len() as int) =~= a@);
        assert(b@.subrange(0, b@.len() as int) =~= b@);
    }
    r
}

/// The Similarity Score of a candidate string against a marked source string.
/// Both are compared exactly as given; normalize them first when comparing
/// across alphabets.
pub fn calculate_jaro_like_score(hyphenated: &str, candidate: &str) -> (r: u64)
    requires
        hyphenated@.len() <= 0xFFFF_FFFF,
    ensures
        r as nat == sim_score(hyphenated@, candidate@),
{
    let src = chars_of(hyphenated);
    let cand = chars_of(candidate);
    similarity_core(&src, &cand)
}

} // verus!
