//! Global sequence alignment by dynamic programming, with a traceback.
//!
//! `align_sequences` aligns two character sequences with unit match,
//! mismatch and gap scores, except that a boundary marker in the first
//! sequence may never be matched against a character of the second: a marker
//! row is forced to align against a gap (at no cost), so that the marker can
//! later be re-inserted between the characters that surround it.
//!
//! The contract pins the result completely: the returned alignment equals
//! `align_path`, the spec-level walk of the same scoring table with the same
//! tie policy (diagonal before up before left).  On top of that it states
//! the structural facts the marker-transfer step uses directly: the two
//! rails are equally long, each enumerates the positions of its own sequence
//! exactly once and in order, no step of the walk is a gap on both sides,
//! and a marker of the first sequence is always aligned against a gap.
//! Optimality of the attained score over all alignments is not separately
//! proven; the scoring itself is the heuristic.

use vstd::prelude::*;
use crate::textseq::{MAX_WORD_LEN, is_marker, lemma_take_full, lemma_take_succ};

verus! {

/// The values carried by the `Some` entries of an alignment rail, in order.
pub open spec fn somes(v: Seq<Option<usize>>) -> Seq<int>
    decreases v.len(),
{
    if v.len() == 0 {
        Seq::empty()
    } else {
        somes(v.drop_last()) + (match v.last() {
            Some(i) => seq![i as int],
            None => Seq::empty(),
        })
    }
}

/// The ascending run `a, a+1, ..., b-1`.
pub open spec fn range_seq(a: int, b: int) -> Seq<int> {
    Seq::new(if b >= a {
        (b - a) as nat
    } else {
        0
    }, |t: int| a + t)
}

/// The descending run `b-1, b-2, ..., a`.
pub open spec fn rev_range(a: int, b: int) -> Seq<int> {
    Seq::new(if b >= a {
        (b - a) as nat
    } else {
        0
    }, |t: int| b - 1 - t)
}

pub proof fn lemma_somes_concat(a: Seq<Option<usize>>, b: Seq<Option<usize>>)
    ensures
        somes(a + b) == somes(a) + somes(b),
    decreases b.len(),
{
    if b.len() == 0 {
        assert(a + b =~= a);
        assert(somes(a) + somes(b) =~= somes(a));
    } else {
        lemma_somes_concat(a, b.drop_last());
        assert((a + b).drop_last() =~= a + b.drop_last());
        assert((a + b).last() == b.last());
        match b.last() {
            Some(i) => {
                assert((somes(a) + somes(b.drop_last())) + seq![i as int] =~= somes(a) + somes(b));
            },
            None => {
                assert(somes(a) + somes(b.drop_last()) =~= somes(a) + somes(b));
            },
        }
    }
}

/// Unfolding `somes` from the front.
pub proof fn lemma_somes_first(v: Seq<Option<usize>>)
    requires
        v.len() > 0,
    ensures
        somes(v) == (match v[0] {
            Some(i) => seq![i as int],
            None => Seq::empty(),
        }) + somes(v.drop_first()),
{
    assert(v =~= v.take(1) + v.skip(1));
    lemma_somes_concat(v.take(1), v.skip(1));
    assert(v.take(1).drop_last() =~= Seq::<Option<usize>>::empty());
    assert(v.take(1).last() == v[0]);
    assert(somes(Seq::<Option<usize>>::empty()) =~= Seq::<int>::empty());
    assert(v.skip(1) =~= v.drop_first());
    match v[0] {
        Some(i) => {
            assert(somes(v.take(1)) =~= seq![i as int]);
        },
        None => {
            assert(somes(v.take(1)) =~= Seq::<int>::empty());
        },
    }
}

/// Reversing a rail whose `Some` values descend from `b-1` to `a` gives a
/// rail whose `Some` values ascend from `a` to `b-1`.
pub proof fn lemma_somes_reversed(v: Seq<Option<usize>>, w: Seq<Option<usize>>, a: int, b: int)
    requires
        w.len() == v.len(),
        forall|t: int| 0 <= t < v.len() ==> w[t] == v[v.len() - 1 - t],
        somes(v) == rev_range(a, b),
    ensures
        somes(w) == range_seq(a, b),
    decreases v.len(),
{
    if v.len() == 0 {
        assert(somes(w) =~= range_seq(a, b));
    } else {
        assert(w[0] == v[v.len() - 1]);
        assert(v[v.len() - 1] == v.last());
        lemma_somes_first(w);
        let v1 = v.drop_last();
        let w1 = w.drop_first();
        assert(w1.len() == v1.len());
        assert forall|t: int| 0 <= t < v1.len() implies w1[t] == v1[v1.len() - 1 - t] by {
            assert(w1[t] == w[t + 1]);
            assert(w[t + 1] == v[v.len() - 2 - t]);
            assert(v1[v1.len() - 1 - t] == v[v.len() - 2 - t]);
        }
        match v.last() {
            Some(x) => {
                assert(somes(v) == somes(v1) + seq![x as int]);
                assert(rev_range(a, b).len() >= 1);
                assert(b > a);
                assert(rev_range(a, b).last() == a);
                assert(x as int == a);
                assert(somes(v1).len() == b - a - 1);
                assert forall|t: int| 0 <= t < somes(v1).len() implies somes(v1)[t] == b - 1
                    - t by {
                    assert(somes(v)[t] == somes(v1)[t]);
                    assert(rev_range(a, b)[t] == b - 1 - t);
                }
                assert(somes(v1) =~= rev_range(a + 1, b));
                lemma_somes_reversed(v1, w1, a + 1, b);
                assert(somes(w) == seq![a] + range_seq(a + 1, b));
                assert(seq![a] + range_seq(a + 1, b) =~= range_seq(a, b));
            },
            None => {
                assert(somes(v) == somes(v1) + Seq::<int>::empty());
                assert(somes(v1) =~= somes(v));
                assert(somes(v1) =~= rev_range(a, b));
                lemma_somes_reversed(v1, w1, a, b);
                assert(somes(w) =~= somes(w1));
            },
        }
    }
}

/// Walking one entry further along a rail whose `Some` values enumerate
/// `0..mm`: a `Some` entry must carry exactly the next position.
pub proof fn lemma_somes_step(v: Seq<Option<usize>>, mm: int, k: int, b: int)
    requires
        somes(v) == range_seq(0, mm),
        0 <= k < v.len(),
        somes(v.take(k)) == range_seq(0, b),
        0 <= b,
    ensures
        match v[k] {
            Some(x) => x as int == b && b < mm && somes(v.take(k + 1)) == range_seq(0, b + 1),
            None => somes(v.take(k + 1)) == range_seq(0, b),
        },
{
    lemma_take_succ(v, k);
    assert(somes(v.take(k + 1)) == somes(v.take(k)) + (match v[k] {
        Some(i) => seq![i as int],
        None => Seq::<int>::empty(),
    }));
    assert(v =~= v.take(k + 1) + v.skip(k + 1));
    lemma_somes_concat(v.take(k + 1), v.skip(k + 1));
    match v[k] {
        Some(x) => {
            let lhs = range_seq(0, b) + seq![x as int] + somes(v.skip(k + 1));
            assert(lhs =~= range_seq(0, mm));
            assert(lhs.len() == mm);
            assert(b < mm);
            assert(lhs[b] == x as int);
            assert(range_seq(0, mm)[b] == b);
            assert(somes(v.take(k + 1)) =~= range_seq(0, b + 1));
        },
        None => {
            assert(somes(v.take(k + 1)) =~= range_seq(0, b));
        },
    }
}

/// A traceback score low enough that no accumulated gap or mismatch cost can
/// reach it: it blocks a marker from ever being matched against a character.
pub const MATCH_BLOCK: i64 = -0x4000_0000_0000_0000;

/// The score of the cell `(i, j)` of the alignment table: match `+1`,
/// mismatch `-1`, gap `-1` on either side, except that a gap opposite a
/// marker of `s1` is free and matching a marker against any character is
/// blocked outright.
pub open spec fn dp_score(s1: Seq<char>, s2: Seq<char>, i: int, j: int) -> int
    decreases (if i > 0 {
        i
    } else {
        0
    }) + (if j > 0 {
        j
    } else {
        0
    }),
{
    if i <= 0 && j <= 0 {
        0
    } else if i <= 0 {
        dp_score(s1, s2, 0, j - 1) - 1
    } else if j <= 0 {
        dp_score(s1, s2, i - 1, 0) - 1
    } else {
        let diag = dp_score(s1, s2, i - 1, j - 1);
        let up = dp_score(s1, s2, i - 1, j);
        let left = dp_score(s1, s2, i, j - 1);
        let mm = if is_marker(s1[i - 1]) {
            MATCH_BLOCK as int
        } else if s1[i - 1] == s2[j - 1] {
            diag + 1
        } else {
            diag - 1
        };
        let del = if is_marker(s1[i - 1]) {
            up
        } else {
            up - 1
        };
        let ins = left - 1;
        let mx0 = if del > mm {
            del
        } else {
            mm
        };
        if ins > mx0 {
            ins
        } else {
            mx0
        }
    }
}

/// The traceback pointer of cell `(i, j)`: the diagonal move when it attains
/// the cell's score, else up, else left; the first row and column walk
/// straight back to the origin.
pub open spec fn dp_prev(s1: Seq<char>, s2: Seq<char>, i: int, j: int) -> (int, int) {
    if i <= 0 && j <= 0 {
        (0, 0)
    } else if i <= 0 {
        (0, j - 1)
    } else if j <= 0 {
        (i - 1, 0)
    } else {
        let mm = if is_marker(s1[i - 1]) {
            MATCH_BLOCK as int
        } else if s1[i - 1] == s2[j - 1] {
            dp_score(s1, s2, i - 1, j - 1) + 1
        } else {
            dp_score(s1, s2, i - 1, j - 1) - 1
        };
        let del = if is_marker(s1[i - 1]) {
            dp_score(s1, s2, i - 1, j)
        } else {
            dp_score(s1, s2, i - 1, j) - 1
        };
        let mx = dp_score(s1, s2, i, j);
        if mx == mm {
            (i - 1, j - 1)
        } else if mx == del {
            (i - 1, j)
        } else {
            (i, j - 1)
        }
    }
}

/// The alignment the traceback walk produces for cell `(i, j)`, in forward
/// order: one step per entry, a diagonal step consuming a position on both
/// sides, an up or left step consuming one side against a gap.
pub open spec fn align_path(s1: Seq<char>, s2: Seq<char>, i: int, j: int) -> Seq<
    (Option<usize>, Option<usize>),
>
    decreases (if i > 0 {
        i
    } else {
        0
    }) + (if j > 0 {
        j
    } else {
        0
    }),
{
    if i <= 0 && j <= 0 {
        Seq::empty()
    } else {
        let p = dp_prev(s1, s2, i, j);
        let rest = align_path(s1, s2, p.0, p.1);
        if p.0 < i && p.1 < j {
            rest.push((Some((i - 1) as usize), Some((j - 1) as usize)))
        } else if p.0 < i {
            rest.push((Some((i - 1) as usize), None))
        } else {
            rest.push((None, Some((j - 1) as usize)))
        }
    }
}

/// The full alignment of the two sequences: the rail of the first sequence.
pub open spec fn alignment_first(s1: Seq<char>, s2: Seq<char>) -> Seq<Option<usize>> {
    align_path(s1, s2, s1.len() as int, s2.len() as int).map_values(
        |e: (Option<usize>, Option<usize>)| e.0,
    )
}

/// The full alignment of the two sequences: the rail of the second sequence.
pub open spec fn alignment_second(s1: Seq<char>, s2: Seq<char>) -> Seq<Option<usize>> {
    align_path(s1, s2, s1.len() as int, s2.len() as int).map_values(
        |e: (Option<usize>, Option<usize>)| e.1,
    )
}

/// The pushed-backwards rails, read as the forward walk they came from.
pub open spec fn rev_zip(a1: Seq<Option<usize>>, a2: Seq<Option<usize>>) -> Seq<
    (Option<usize>, Option<usize>),
> {
    Seq::new(a1.len(), |t: int| (a1[a1.len() - 1 - t], a2[a2.len() - 1 - t]))
}

pub proof fn lemma_dp_score_row0(s1: Seq<char>, s2: Seq<char>, j: int)
    requires
        j >= 0,
    ensures
        dp_score(s1, s2, 0, j) == -j,
    decreases j,
{
    if j > 0 {
        lemma_dp_score_row0(s1, s2, j - 1);
    }
}

pub proof fn lemma_dp_score_col0(s1: Seq<char>, s2: Seq<char>, i: int)
    requires
        i >= 0,
    ensures
        dp_score(s1, s2, i, 0) == -i,
    decreases i,
{
    if i > 0 {
        lemma_dp_score_col0(s1, s2, i - 1);
    }
}

pub proof fn lemma_dp_score_bounds(s1: Seq<char>, s2: Seq<char>, i: int, j: int)
    requires
        0 <= i,
        0 <= j,
    ensures
        -(i + j) <= dp_score(s1, s2, i, j) <= i + j,
    decreases i + j,
{
    if i == 0 {
        lemma_dp_score_row0(s1, s2, j);
    } else if j == 0 {
        lemma_dp_score_col0(s1, s2, i);
    } else {
        lemma_dp_score_bounds(s1, s2, i - 1, j - 1);
        lemma_dp_score_bounds(s1, s2, i - 1, j);
        lemma_dp_score_bounds(s1, s2, i, j - 1);
    }
}

/// A legal traceback pointer for cell `(i, j)`: the first row and column walk
/// straight back, an interior cell steps diagonally (never from a marker
/// row), up, or left.
pub open spec fn tb_ok(s1: Seq<char>, i: int, j: int, prev: (usize, usize)) -> bool {
    if i == 0 && j == 0 {
        prev.0 == 0 && prev.1 == 0
    } else if i == 0 {
        prev.0 == 0 && prev.1 == j - 1
    } else if j == 0 {
        prev.0 == i - 1 && prev.1 == 0
    } else {
        (prev.0 == i - 1 && prev.1 == j - 1 && !is_marker(s1[i - 1])) || (prev.0 == i - 1
            && prev.1 == j) || (prev.0 == i && prev.1 == j - 1)
    }
}

/// A rail in reverse order.
fn reverse_rail(v: &Vec<Option<usize>>) -> (r: Vec<Option<usize>>)
    ensures
        r@.len() == v@.len(),
        forall|t: int| 0 <= t < v@.len() ==> r@[t] == v@[v@.len() - 1 - t],
{
    let mut r: Vec<Option<usize>> = Vec::new();
    let mut t: usize = 0;
    let n = v.len();
    while t < n
        invariant
            t <= n,
            n == v@.len(),
            r@.len() == t,
            forall|u: int| 0 <= u < t ==> r@[u] == v@[v@.len() - 1 - u],
        decreases n - t,
    {
        let x = v[n - 1 - t];
        r.push(x);
        t = t + 1;
    }
    r
}

/// Align two sequences, markers of the first forced onto gaps.  The two
/// returned rails pair off the positions of the two sequences step by step:
/// each rail lists its own sequence's positions exactly once, in order, with
/// `None` where the other sequence contributes a gap.
pub fn align_sequences(seq1: &Vec<char>, seq2: &Vec<char>) -> (r: (
    Vec<Option<usize>>,
    Vec<Option<usize>>,
))
    requires
        seq1@.len() <= MAX_WORD_LEN,
        seq2@.len() <= MAX_WORD_LEN,
    ensures
        r.0@ == alignment_first(seq1@, seq2@),
        r.1@ == alignment_second(seq1@, seq2@),
        r.0@.len() == r.1@.len(),
        somes(r.0@) == range_seq(0, seq1@.len() as int),
        somes(r.1@) == range_seq(0, seq2@.len() as int),
        forall|k: int| 0 <= k < r.0@.len() ==> r.0@[k] is Some || r.1@[k] is Some,
        forall|k: int|
            0 <= k < r.0@.len() ==> ((r.0@[k] is Some && is_marker(seq1@[(r.0@[k]->0) as int]))
                ==> r.1@[k] is None),
{
    let m = seq1.len();
    let n = seq2.len();

    // The scoring and traceback matrices, built row by row.
    let mut score: Vec<Vec<i64>> = Vec::new();
    let mut tb: Vec<Vec<(usize, usize)>> = Vec::new();

    let mut row0: Vec<i64> = Vec::new();
    let mut trow0: Vec<(usize, usize)> = Vec::new();
    row0.push(0);
    trow0.push((0, 0));
    let mut j: usize = 1;
    while j <= n
        invariant
            1 <= j <= n + 1,
            row0@.len() == j,
            trow0@.len() == j,
            forall|c: int| 0 <= c < j ==> #[trigger] row0@[c] as int == dp_score(seq1@, seq2@, 0, c),
            forall|c: int|
                0 <= c < j ==> ((#[trigger] trow0@[c]).0 as int, trow0@[c].1 as int) == dp_prev(
                    seq1@,
                    seq2@,
                    0,
                    c,
                ),
            forall|c: int| 0 <= c < j ==> tb_ok(seq1@, 0, c, #[trigger] trow0@[c]),
        decreases n + 1 - j,
    {
        proof {
            lemma_dp_score_row0(seq1@, seq2@, j as int);
        }
        row0.push(-(j as i64));
        trow0.push((0, j - 1));
        j = j + 1;
    }
    score.push(row0);
    tb.push(trow0);

    let mut i: usize = 1;
    while i <= m
        invariant
            1 <= i <= m + 1,
            score@.len() == i,
            tb@.len() == i,
            forall|r: int| 0 <= r < i ==> #[trigger] score@[r]@.len() == n + 1,
            forall|r: int| 0 <= r < i ==> #[trigger] tb@[r]@.len() == n + 1,
            forall|r: int, c: int|
                0 <= r < i && 0 <= c <= n ==> #[trigger] score@[r]@[c] as int == dp_score(
                    seq1@,
                    seq2@,
                    r,
                    c,
                ),
            forall|r: int, c: int|
                0 <= r < i && 0 <= c <= n ==> ((#[trigger] tb@[r]@[c]).0 as int, tb@[r]@[c].1 as int)
                    == dp_prev(seq1@, seq2@, r, c),
            forall|r: int, c: int| 0 <= r < i && 0 <= c <= n ==> tb_ok(seq1@, r, c, #[trigger] tb@[r]@[c]),
        decreases m + 1 - i,
    {
        let is_hyph = seq1[i - 1] == '-';
        let mut cur: Vec<i64> = Vec::new();
        let mut tcur: Vec<(usize, usize)> = Vec::new();
        cur.push(-(i as i64));
        tcur.push((i - 1, 0));
        proof {
            lemma_dp_score_col0(seq1@, seq2@, i as int);
        }
        let mut j2: usize = 1;
        while j2 <= n
            invariant
                1 <= i <= m,
                1 <= j2 <= n + 1,
                is_hyph == is_marker(seq1@[i - 1]),
                cur@.len() == j2,
                tcur@.len() == j2,
                forall|c: int|
                    0 <= c < j2 ==> #[trigger] cur@[c] as int == dp_score(seq1@, seq2@, i as int, c),
                forall|c: int|
                    0 <= c < j2 ==> ((#[trigger] tcur@[c]).0 as int, tcur@[c].1 as int) == dp_prev(
                        seq1@,
                        seq2@,
                        i as int,
                        c,
                    ),
                forall|c: int| 0 <= c < j2 ==> tb_ok(seq1@, i as int, c, #[trigger] tcur@[c]),
            decreases n + 1 - j2,
        {
            let prow: &Vec<i64> = &score[i - 1];
            proof {
                lemma_dp_score_bounds(seq1@, seq2@, i - 1, j2 - 1);
                lemma_dp_score_bounds(seq1@, seq2@, i - 1, j2 as int);
                lemma_dp_score_bounds(seq1@, seq2@, i as int, j2 - 1);
            }
            let mm: i64 = if is_hyph {
                MATCH_BLOCK
            } else if seq1[i - 1] == seq2[j2 - 1] {
                prow[j2 - 1] + 1
            } else {
                prow[j2 - 1] - 1
            };
            let dele: i64 = if is_hyph {
                prow[j2]
            } else {
                prow[j2] - 1
            };
            let ins: i64 = cur[j2 - 1] - 1;
            let mut mx = mm;
            if dele > mx {
                mx = dele;
            }
            if ins > mx {
                mx = ins;
            }
            let ptr: (usize, usize) = if mx == mm {
                proof {
                    if is_hyph {
                        assert(dele as int >= -(i + j2 - 1));
                        assert(mx != MATCH_BLOCK);
                    }
                }
                (i - 1, j2 - 1)
            } else if mx == dele {
                (i - 1, j2)
            } else {
                (i, j2 - 1)
            };
            proof {
                assert(prow@ == score@[i - 1]@);
                assert(mx as int == dp_score(seq1@, seq2@, i as int, j2 as int));
                assert((ptr.0 as int, ptr.1 as int) == dp_prev(seq1@, seq2@, i as int, j2 as int));
            }
            cur.push(mx);
            tcur.push(ptr);
            j2 = j2 + 1;
        }
        score.push(cur);
        tb.push(tcur);
        i = i + 1;
    }

    // Walk the traceback from the far corner to the origin, collecting the
    // two rails back to front.
    let mut a1: Vec<Option<usize>> = Vec::new();
    let mut a2: Vec<Option<usize>> = Vec::new();
    let mut wi: usize = m;
    let mut wj: usize = n;
    proof {
        assert(somes(a1@) =~= rev_range(m as int, m as int));
        assert(somes(a2@) =~= rev_range(n as int, n as int));
        assert(rev_zip(a1@, a2@) =~= Seq::<(Option<usize>, Option<usize>)>::empty());
        assert(align_path(seq1@, seq2@, m as int, n as int) =~= align_path(
            seq1@,
            seq2@,
            m as int,
            n as int,
        ) + rev_zip(a1@, a2@));
    }
    while wi > 0 || wj > 0
        invariant
            wi <= m,
            wj <= n,
            a1@.len() == a2@.len(),
            somes(a1@) == rev_range(wi as int, m as int),
            somes(a2@) == rev_range(wj as int, n as int),
            align_path(seq1@, seq2@, m as int, n as int) == align_path(
                seq1@,
                seq2@,
                wi as int,
                wj as int,
            ) + rev_zip(a1@, a2@),
            forall|k: int| 0 <= k < a1@.len() ==> a1@[k] is Some || a2@[k] is Some,
            forall|k: int|
                0 <= k < a1@.len() ==> ((a1@[k] is Some && is_marker(seq1@[(a1@[k]->0) as int]))
                    ==> a2@[k] is None),
        decreases wi + wj,
    {
        let trow: &Vec<(usize, usize)> = &tb[wi];
        let ptr = trow[wj];
        proof {
            assert(tb_ok(seq1@, wi as int, wj as int, tb@[wi as int]@[wj as int]));
            assert((ptr.0 as int, ptr.1 as int) == dp_prev(seq1@, seq2@, wi as int, wj as int));
        }
        let ghost olda1 = a1@;
        let ghost olda2 = a2@;
        if ptr.0 < wi && ptr.1 < wj {
            a1.push(Some(wi - 1));
            a2.push(Some(wj - 1));
            proof {
                assert(ptr.0 == wi - 1 && ptr.1 == wj - 1 && !is_marker(seq1@[wi - 1]));
                assert(a1@.drop_last() =~= olda1);
                assert(a2@.drop_last() =~= olda2);
                assert(somes(a1@) =~= rev_range(wi - 1, m as int));
                assert(somes(a2@) =~= rev_range(wj - 1, n as int));
                let entry = (Some((wi - 1) as usize), Some((wj - 1) as usize));
                assert(align_path(seq1@, seq2@, wi as int, wj as int) == align_path(
                    seq1@,
                    seq2@,
                    ptr.0 as int,
                    ptr.1 as int,
                ).push(entry));
                assert(rev_zip(a1@, a2@) =~= seq![entry] + rev_zip(olda1, olda2));
                assert(align_path(seq1@, seq2@, m as int, n as int) =~= align_path(
                    seq1@,
                    seq2@,
                    ptr.0 as int,
                    ptr.1 as int,
                ) + rev_zip(a1@, a2@));
            }
        } else if ptr.0 < wi {
            a1.push(Some(wi - 1));
            a2.push(None);
            proof {
                assert(ptr.0 == wi - 1 && ptr.1 == wj);
                assert(a1@.drop_last() =~= olda1);
                assert(a2@.drop_last() =~= olda2);
                assert(somes(a1@) =~= rev_range(wi - 1, m as int));
                assert(somes(a2@) =~= somes(olda2));
                let entry = (Some((wi - 1) as usize), None);
                assert(align_path(seq1@, seq2@, wi as int, wj as int) == align_path(
                    seq1@,
                    seq2@,
                    ptr.0 as int,
                    ptr.1 as int,
                ).push(entry));
                assert(rev_zip(a1@, a2@) =~= seq![entry] + rev_zip(olda1, olda2));
                assert(align_path(seq1@, seq2@, m as int, n as int) =~= align_path(
                    seq1@,
                    seq2@,
                    ptr.0 as int,
                    ptr.1 as int,
                ) + rev_zip(a1@, a2@));
            }
        } else {
            proof {
                assert(ptr.0 == wi && ptr.1 == wj - 1);
            }
            a1.push(None);
            a2.push(Some(wj - 1));
            proof {
                assert(a1@.drop_last() =~= olda1);
                assert(a2@.drop_last() =~= olda2);
                assert(somes(a1@) =~= somes(olda1));
                assert(somes(a2@) =~= rev_range(wj - 1, n as int));
                let entry = (None, Some((wj - 1) as usize));
                assert(align_path(seq1@, seq2@, wi as int, wj as int) == align_path(
                    seq1@,
                    seq2@,
                    ptr.0 as int,
                    ptr.1 as int,
                ).push(entry));
                assert(rev_zip(a1@, a2@) =~= seq![entry] + rev_zip(olda1, olda2));
                assert(align_path(seq1@, seq2@, m as int, n as int) =~= align_path(
                    seq1@,
                    seq2@,
                    ptr.0 as int,
                    ptr.1 as int,
                ) + rev_zip(a1@, a2@));
            }
        }
        wi = ptr.0;
        wj = ptr.1;
    }

    let ra1 = reverse_rail(&a1);
    let ra2 = reverse_rail(&a2);
    proof {
        lemma_somes_reversed(a1@, ra1@, 0, m as int);
        lemma_somes_reversed(a2@, ra2@, 0, n as int);
        let path = align_path(seq1@, seq2@, m as int, n as int);
        assert(align_path(seq1@, seq2@, 0, 0) =~= Seq::<(Option<usize>, Option<usize>)>::empty());
        assert(path =~= rev_zip(a1@, a2@));
        assert(path.len() == ra1@.len());
        assert forall|t: int| 0 <= t < path.len() implies #[trigger] path[t] == (ra1@[t], ra2@[t]) by {
            assert(rev_zip(a1@, a2@)[t] == (a1@[a1@.len() - 1 - t], a2@[a2@.len() - 1 - t]));
            assert(ra1@[t] == a1@[a1@.len() - 1 - t]);
            assert(ra2@[t] == a2@[a2@.len() - 1 - t]);
        }
        assert(ra1@ =~= alignment_first(seq1@, seq2@));
        assert(ra2@ =~= alignment_second(seq1@, seq2@));
        assert forall|k: int| 0 <= k < ra1@.len() implies ra1@[k] is Some || ra2@[k] is Some by {
            assert(ra1@[k] == a1@[a1@.len() - 1 - k]);
            assert(ra2@[k] == a2@[a2@.len() - 1 - k]);
        }
        assert forall|k: int|
            0 <= k < ra1@.len() && ra1@[k] is Some && is_marker(
            seq1@[(ra1@[k]->0) as int],
        ) implies ra2@[k] is None by {
            assert(ra1@[k] == a1@[a1@.len() - 1 - k]);
            assert(ra2@[k] == a2@[a2@.len() - 1 - k]);
        }
    }
    (ra1, ra2)
}

} // verus!
