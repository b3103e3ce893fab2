//! The Boundary Candidate Generator: all ways of inserting `k` boundary
//! markers into a target word of length `n`, drawn from the positions
//! `{1, ..., n-1}` and excluding a final marker position `n-1`, since a
//! boundary adjacent to either edge of the word is never meaningful.
//!
//! A position sequence `ps` names indices of the *unmarked* target; the
//! candidate is the target with a marker inserted before each named index.

use vstd::prelude::*;
use itertools::Itertools;
use crate::textseq::{count_marks, lemma_count_marks_append, lemma_remove_marks_append,
    lemma_take_succ, remove_marks};

verus! {

pub open spec fn strictly_increasing(s: Seq<int>) -> bool {
    forall|i: int, j: int| 0 <= i < j < s.len() ==> s[i] < s[j]
}

pub open spec fn in_range(s: Seq<int>, lo: int, hi: int) -> bool {
    forall|i: int| 0 <= i < s.len() ==> lo <= #[trigger] s[i] < hi
}

/// All strictly increasing `k`-element sequences drawn from `[lo, hi)`,
/// in lexicographic order.
pub open spec fn combos(lo: int, hi: int, k: nat) -> Seq<Seq<int>>
    decreases hi - lo, k,
{
    if k == 0 {
        seq![Seq::<int>::empty()]
    } else if lo >= hi {
        Seq::empty()
    } else {
        combos(lo + 1, hi, (k - 1) as nat).map_values(|s: Seq<int>| seq![lo] + s) + combos(
            lo + 1,
            hi,
            k,
        )
    }
}

/// Every enumerated sequence has length `k`, is strictly increasing, and
/// stays inside `[lo, hi)`.
pub proof fn lemma_combos_elems(lo: int, hi: int, k: nat)
    ensures
        forall|t: int|
            0 <= t < combos(lo, hi, k).len() ==> (#[trigger] combos(lo, hi, k)[t]).len() == k
                && strictly_increasing(combos(lo, hi, k)[t]) && in_range(combos(lo, hi, k)[t], lo, hi),
    decreases hi - lo, k,
{
    if k == 0 {
    } else if lo >= hi {
    } else {
        lemma_combos_elems(lo + 1, hi, (k - 1) as nat);
        lemma_combos_elems(lo + 1, hi, k);
        let first = combos(lo + 1, hi, (k - 1) as nat).map_values(|s: Seq<int>| seq![lo] + s);
        let rest = combos(lo + 1, hi, k);
        assert forall|t: int|
            0 <= t < combos(lo, hi, k).len() implies (#[trigger] combos(lo, hi, k)[t]).len() == k
            && strictly_increasing(combos(lo, hi, k)[t]) && in_range(combos(lo, hi, k)[t], lo, hi) by {
            if t < first.len() {
                let s0 = combos(lo + 1, hi, (k - 1) as nat)[t];
                let s = seq![lo] + s0;
                assert(combos(lo, hi, k)[t] == s);
                assert(s.len() == k);
                assert forall|i: int, j: int| 0 <= i < j < s.len() implies s[i] < s[j] by {
                    if i == 0 {
                        assert(s[j] == s0[j - 1]);
                    } else {
                        assert(s[i] == s0[i - 1] && s[j] == s0[j - 1]);
                    }
                }
                assert forall|i: int| 0 <= i < s.len() implies lo <= #[trigger] s[i] < hi by {
                    if i > 0 {
                        assert(s[i] == s0[i - 1]);
                    }
                }
            } else {
                assert(combos(lo, hi, k)[t] == rest[t - first.len()]);
            }
        }
    }
}

/// The increasing run `lo, lo+1, ..., lo+k-1`.
pub open spec fn iota(lo: int, k: nat) -> Seq<int> {
    Seq::new(k, |i: int| lo + i)
}

/// When `k` positions fit below `hi`, the enumeration is not empty: it
/// contains the run starting at `lo`.
pub proof fn lemma_combos_contains_iota(lo: int, hi: int, k: nat)
    requires
        lo + k <= hi,
    ensures
        combos(lo, hi, k).contains(iota(lo, k)),
    decreases k,
{
    if k == 0 {
        assert(iota(lo, 0) =~= Seq::<int>::empty());
        assert(combos(lo, hi, 0)[0] == Seq::<int>::empty());
    } else {
        lemma_combos_contains_iota(lo + 1, hi, (k - 1) as nat);
        let inner = combos(lo + 1, hi, (k - 1) as nat);
        let t = choose|t: int| 0 <= t < inner.len() && inner[t] == iota(lo + 1, (k - 1) as nat);
        let first = inner.map_values(|s: Seq<int>| seq![lo] + s);
        assert(first[t] == seq![lo] + iota(lo + 1, (k - 1) as nat));
        assert(seq![lo] + iota(lo + 1, (k - 1) as nat) =~= iota(lo, k));
        assert(combos(lo, hi, k)[t] == iota(lo, k));
    }
}

/// A position sequence is admissible when it touches neither edge of the
/// target: no marker before the first character, none after the last.
pub open spec fn valid_positions(ps: Seq<int>, n: int) -> bool {
    ps.len() == 0 || (ps[0] != 0 && ps.last() != n - 1)
}

pub open spec fn filter_valid(cs: Seq<Seq<int>>, n: int) -> Seq<Seq<int>>
    decreases cs.len(),
{
    if cs.len() == 0 {
        Seq::empty()
    } else {
        filter_valid(cs.drop_last(), n) + (if valid_positions(cs.last(), n) {
            seq![cs.last()]
        } else {
            Seq::empty()
        })
    }
}

/// The admissible marker-position sequences for a target of length `n` and
/// a required marker count `k`, in lexicographic order.
pub open spec fn admissible_positions(n: int, k: nat) -> Seq<Seq<int>> {
    filter_valid(combos(1, n, k), n)
}

/// Everything the filter keeps comes from the enumeration and is admissible.
pub proof fn lemma_filter_valid_elems(cs: Seq<Seq<int>>, n: int)
    ensures
        forall|t: int|
            0 <= t < filter_valid(cs, n).len() ==> cs.contains(#[trigger] filter_valid(cs, n)[t])
                && valid_positions(filter_valid(cs, n)[t], n),
    decreases cs.len(),
{
    if cs.len() > 0 {
        lemma_filter_valid_elems(cs.drop_last(), n);
        assert forall|t: int|
            0 <= t < filter_valid(cs, n).len() implies cs.contains(
            #[trigger] filter_valid(cs, n)[t],
        ) && valid_positions(filter_valid(cs, n)[t], n) by {
            let prefix = filter_valid(cs.drop_last(), n);
            if t < prefix.len() {
                assert(filter_valid(cs, n)[t] == prefix[t]);
                let u = choose|u: int| 0 <= u < cs.drop_last().len() && cs.drop_last()[u] == prefix[t];
                assert(cs[u] == prefix[t]);
            } else {
                assert(filter_valid(cs, n)[t] == cs.last());
                assert(cs[cs.len() - 1] == cs.last());
            }
        }
    }
}

/// The filter keeps every admissible member.
pub proof fn lemma_filter_valid_contains(cs: Seq<Seq<int>>, n: int, x: Seq<int>)
    requires
        cs.contains(x),
        valid_positions(x, n),
    ensures
        filter_valid(cs, n).contains(x),
    decreases cs.len(),
{
    let t = choose|t: int| 0 <= t < cs.len() && cs[t] == x;
    if t == cs.len() - 1 {
        let r = filter_valid(cs, n);
        assert(r[r.len() - 1] == x);
    } else {
        assert(cs.drop_last()[t] == x);
        lemma_filter_valid_contains(cs.drop_last(), n, x);
        let prefix = filter_valid(cs.drop_last(), n);
        let u = choose|u: int| 0 <= u < prefix.len() && prefix[u] == x;
        assert(filter_valid(cs, n)[u] == x);
    }
}

/// The target with a marker inserted before each named index.
pub open spec fn with_markers(s: Seq<char>, ps: Seq<int>) -> Seq<char>
    decreases ps.len(),
{
    if ps.len() == 0 {
        s
    } else {
        with_markers(s.take(ps.last()), ps.drop_last()) + seq!['-'] + s.skip(ps.last())
    }
}

/// Positions that fit a target of length `n`: ascending, each naming a point
/// strictly inside or at the end of the word.
pub open spec fn wf_positions(ps: Seq<int>, n: int) -> bool {
    strictly_increasing(ps) && in_range(ps, 0, n + 1)
}

pub proof fn lemma_wf_positions_drop_last(ps: Seq<int>, n: int)
    requires
        wf_positions(ps, n),
        ps.len() > 0,
    ensures
        wf_positions(ps.drop_last(), ps.last()),
        0 <= ps.last() <= n,
{
    assert forall|i: int| 0 <= i < ps.drop_last().len() implies 0 <= #[trigger] ps.drop_last()[i]
        < ps.last() by {
        assert(ps.drop_last()[i] == ps[i]);
        assert(ps[i] < ps[ps.len() - 1]);
    }
    assert forall|i: int, j: int| 0 <= i < j < ps.drop_last().len() implies ps.drop_last()[i]
        < ps.drop_last()[j] by {
        assert(ps.drop_last()[i] == ps[i] && ps.drop_last()[j] == ps[j]);
    }
}

/// Inserting markers adds exactly one character per position.
pub proof fn lemma_with_markers_len(s: Seq<char>, ps: Seq<int>)
    requires
        wf_positions(ps, s.len() as int),
    ensures
        with_markers(s, ps).len() == s.len() + ps.len(),
    decreases ps.len(),
{
    if ps.len() > 0 {
        let p = ps.last();
        lemma_wf_positions_drop_last(ps, s.len() as int);
        assert(s.take(p).len() == p);
        lemma_with_markers_len(s.take(p), ps.drop_last());
    }
}

/// Splitting off an untouched suffix: when every position lies at or before
/// `p`, the markers land entirely inside the prefix.
pub proof fn lemma_with_markers_split(s: Seq<char>, ps: Seq<int>, p: int)
    requires
        wf_positions(ps, s.len() as int),
        0 <= p <= s.len(),
        forall|i: int| 0 <= i < ps.len() ==> #[trigger] ps[i] <= p,
    ensures
        with_markers(s, ps) == with_markers(s.take(p), ps) + s.skip(p),
{
    if ps.len() == 0 {
        assert(with_markers(s.take(p), ps) + s.skip(p) =~= s);
    } else {
        let q = ps.last();
        assert(0 <= q <= p);
        assert(s.take(p).take(q) =~= s.take(q));
        assert(s.take(p).skip(q) + s.skip(p) =~= s.skip(q));
        assert(with_markers(s.take(p), ps) == with_markers(s.take(p).take(q), ps.drop_last())
            + seq!['-'] + s.take(p).skip(q));
        assert(with_markers(s, ps) =~= (with_markers(s.take(q), ps.drop_last()) + seq!['-']
            + s.take(p).skip(q)) + s.skip(p));
    }
}

/// Appending one more (largest) position inserts one more marker, at the
/// index it will occupy in the final string.
pub proof fn lemma_with_markers_snoc(s: Seq<char>, ps: Seq<int>, p: int)
    requires
        wf_positions(ps, s.len() as int),
        0 <= p <= s.len(),
        forall|i: int| 0 <= i < ps.len() ==> #[trigger] ps[i] < p,
    ensures
        wf_positions(ps.push(p), s.len() as int),
        with_markers(s, ps.push(p)) == with_markers(s, ps).insert(p + ps.len(), '-'),
{
    assert forall|i: int, j: int| 0 <= i < j < ps.push(p).len() implies ps.push(p)[i] < ps.push(
        p,
    )[j] by {
        if j < ps.len() {
        } else {
            assert(ps.push(p)[j] == p);
        }
    }
    assert(ps.push(p).drop_last() =~= ps);
    assert(with_markers(s, ps.push(p)) == with_markers(s.take(p), ps) + seq!['-'] + s.skip(p));
    lemma_with_markers_split(s, ps, p);
    lemma_with_markers_len(s.take(p), ps);
    assert(with_markers(s, ps).insert(p + ps.len(), '-') =~= with_markers(s.take(p), ps)
        + seq!['-'] + s.skip(p));
}

/// A candidate carries the target's markers plus one per inserted position.
pub proof fn lemma_with_markers_count(s: Seq<char>, ps: Seq<int>)
    requires
        wf_positions(ps, s.len() as int),
    ensures
        count_marks(with_markers(s, ps)) == count_marks(s) + ps.len(),
    decreases ps.len(),
{
    if ps.len() > 0 {
        let p = ps.last();
        lemma_wf_positions_drop_last(ps, s.len() as int);
        assert(s.take(p).len() == p);
        lemma_with_markers_count(s.take(p), ps.drop_last());
        lemma_count_marks_append(with_markers(s.take(p), ps.drop_last()), seq!['-']);
        lemma_count_marks_append(
            with_markers(s.take(p), ps.drop_last()) + seq!['-'],
            s.skip(p),
        );
        lemma_count_marks_append(s.take(p), s.skip(p));
        assert(s.take(p) + s.skip(p) =~= s);
        assert(count_marks(seq!['-']) == 1) by {
            assert(seq!['-'].drop_last() =~= Seq::<char>::empty());
            assert(count_marks(Seq::<char>::empty()) == 0);
            assert(seq!['-'].last() == '-');
        }
    }
}

/// Stripping a candidate of its markers gives back the stripped target.
pub proof fn lemma_with_markers_remove(s: Seq<char>, ps: Seq<int>)
    requires
        wf_positions(ps, s.len() as int),
    ensures
        remove_marks(with_markers(s, ps)) == remove_marks(s),
    decreases ps.len(),
{
    if ps.len() > 0 {
        let p = ps.last();
        lemma_wf_positions_drop_last(ps, s.len() as int);
        assert(s.take(p).len() == p);
        lemma_with_markers_remove(s.take(p), ps.drop_last());
        lemma_remove_marks_append(with_markers(s.take(p), ps.drop_last()), seq!['-']);
        lemma_remove_marks_append(
            with_markers(s.take(p), ps.drop_last()) + seq!['-'],
            s.skip(p),
        );
        lemma_remove_marks_append(s.take(p), s.skip(p));
        assert(s.take(p) + s.skip(p) =~= s);
        assert(remove_marks(seq!['-']) =~= Seq::<char>::empty()) by {
            assert(seq!['-'].drop_last() =~= Seq::<char>::empty());
            assert(remove_marks(Seq::<char>::empty()) == Seq::<char>::empty());
            assert(seq!['-'].last() == '-');
        }
        assert(remove_marks(with_markers(s, ps)) =~= remove_marks(s));
    }
}

/// No marker at the first or at the final position of a candidate, provided
/// every inserted position lies strictly inside the word.
pub proof fn lemma_with_markers_edges(s: Seq<char>, ps: Seq<int>)
    requires
        s.len() > 0,
        wf_positions(ps, s.len() as int),
        in_range(ps, 1, s.len() as int),
    ensures
        with_markers(s, ps).len() > 0,
        with_markers(s, ps)[0] == s[0],
        with_markers(s, ps).last() == s.last(),
    decreases ps.len(),
{
    if ps.len() == 0 {
    } else {
        let p = ps.last();
        assert(1 <= p < s.len());
        lemma_wf_positions_drop_last(ps, s.len() as int);
        assert(s.take(p).len() == p);
        assert forall|i: int| 0 <= i < ps.drop_last().len() implies 1 <= #[trigger] ps.drop_last()[i]
            < p by {
            assert(ps.drop_last()[i] == ps[i]);
            assert(ps[i] < ps[ps.len() - 1]);
        }
        lemma_with_markers_edges(s.take(p), ps.drop_last());
        let head = with_markers(s.take(p), ps.drop_last());
        let whole = head + seq!['-'] + s.skip(p);
        assert(whole[0] == head[0]);
        assert(s.take(p)[0] == s[0]);
        assert(s.skip(p).len() == s.len() - p >= 1);
        assert(whole.last() == s.skip(p).last());
        assert(s.skip(p).last() == s.last());
    }
}

/// Relies on itertools' `combinations` over the range `1..n`: it yields every
/// `k`-element combination of the range as an increasing vector, in
/// lexicographic order, and a single empty combination when `k` is zero.
#[verifier::external_body]
fn position_combinations(n: usize, k: usize) -> (r: Vec<Vec<usize>>)
    ensures
        r@.map_values(|v: Vec<usize>| v@.map_values(|x: usize| x as int)) == combos(
            1,
            n as int,
            k as nat,
        ),
{
    (1..n).combinations(k).collect()
}

/// The target with markers inserted at the given ascending positions, applied
/// left to right with a running offset so that each marker lands at the place
/// the earlier insertions have shifted it to.
pub fn insert_hyphens(word: &Vec<char>, positions: &Vec<usize>) -> (r: Vec<char>)
    requires
        wf_positions(positions@.map_values(|x: usize| x as int), word@.len() as int),
        word@.len() + positions@.len() < usize::MAX,
    ensures
        r@ == with_markers(word@, positions@.map_values(|x: usize| x as int)),
{
    let ghost ps = positions@.map_values(|x: usize| x as int);
    let mut r: Vec<char> = word.clone();
    let mut j: usize = 0;
    while j < positions.len()
        invariant
            j <= positions@.len(),
            r@ == with_markers(word@, ps.take(j as int)),
            wf_positions(ps.take(j as int), word@.len() as int),
        decreases positions@.len() - j,
    {
        proof {
            lemma_take_succ(ps, j as int);
            assert forall|i: int| 0 <= i < ps.take(j as int).len() implies #[trigger] ps.take(
                j as int,
            )[i] < ps[j as int] by {
                assert(ps.take(j as int)[i] == ps[i]);
            }
            lemma_with_markers_snoc(word@, ps.take(j as int), ps[j as int]);
            assert(ps.take(j as int).push(ps[j as int]) =~= ps.take(j + 1));
            lemma_with_markers_len(word@, ps.take(j as int));
        }
        let pos = positions[j];
        r.insert(pos + j, '-');
        j = j + 1;
    }
    proof {
        crate::textseq::lemma_take_full(ps);
    }
    r
}

/// The candidate strings named by a list of position sequences.
pub open spec fn cands_of(t: Seq<char>, pss: Seq<Seq<int>>) -> Seq<Seq<char>> {
    pss.map_values(|ps: Seq<int>| with_markers(t, ps))
}

/// The full candidate list for a target and a marker count: one candidate per
/// admissible position sequence, in lexicographic position order.  Empty
/// exactly when no admissible placement exists.
pub open spec fn candidate_list(t: Seq<char>, k: nat) -> Seq<Seq<char>> {
    cands_of(t, admissible_positions(t.len() as int, k))
}

/// What every generated candidate looks like: the target plus `k` markers,
/// stripping back to the stripped target, with the target's own first and
/// last characters still at the edges.
pub proof fn lemma_candidate_list_props(t: Seq<char>, k: nat)
    ensures
        forall|i: int|
            0 <= i < candidate_list(t, k).len() ==> {
                let c = #[trigger] candidate_list(t, k)[i];
                &&& c.len() == t.len() + k
                &&& count_marks(c) == count_marks(t) + k
                &&& remove_marks(c) == remove_marks(t)
                &&& (t.len() > 0 ==> c.len() > 0 && c[0] == t[0] && c.last() == t.last())
            },
{
    let n = t.len() as int;
    let all = combos(1, n, k);
    let adm = admissible_positions(n, k);
    lemma_filter_valid_elems(all, n);
    lemma_combos_elems(1, n, k);
    assert forall|i: int| 0 <= i < candidate_list(t, k).len() implies {
        let c = #[trigger] candidate_list(t, k)[i];
        &&& c.len() == t.len() + k
        &&& count_marks(c) == count_marks(t) + k
        &&& remove_marks(c) == remove_marks(t)
        &&& (t.len() > 0 ==> c.len() > 0 && c[0] == t[0] && c.last() == t.last())
    } by {
        let ps = adm[i];
        assert(candidate_list(t, k)[i] == with_markers(t, ps));
        assert(all.contains(ps));
        let u = choose|u: int| 0 <= u < all.len() && all[u] == ps;
        assert(ps.len() == k && strictly_increasing(ps) && in_range(ps, 1, n));
        assert(in_range(ps, 0, n + 1)) by {
            assert forall|j: int| 0 <= j < ps.len() implies 0 <= #[trigger] ps[j] < n + 1 by {
                assert(1 <= ps[j] < n);
            }
        }
        lemma_with_markers_len(t, ps);
        lemma_with_markers_count(t, ps);
        lemma_with_markers_remove(t, ps);
        if t.len() > 0 {
            lemma_with_markers_edges(t, ps);
        }
    }
}

/// All candidates for inserting `k` markers into the target.
pub fn generate_candidates(target: &Vec<char>, k: usize) -> (r: Vec<Vec<char>>)
    requires
        target@.len() + k < usize::MAX,
    ensures
        r@.map_values(|v: Vec<char>| v@) == candidate_list(target@, k as nat),
{
    let n = target.len();
    let all = position_combinations(n, k);
    let ghost call = all@.map_values(|v: Vec<usize>| v@.map_values(|x: usize| x as int));
    proof {
        lemma_combos_elems(1, n as int, k as nat);
    }
    let mut r: Vec<Vec<char>> = Vec::new();
    let mut i: usize = 0;
    while i < all.len()
        invariant
            i <= all@.len(),
            call == all@.map_values(|v: Vec<usize>| v@.map_values(|x: usize| x as int)),
            call == combos(1, n as int, k as nat),
            n == target@.len(),
            target@.len() + k < usize::MAX,
            r@.map_values(|v: Vec<char>| v@) == cands_of(target@, filter_valid(call.take(i as int), n as int)),
        decreases all@.len() - i,
    {
        let ghost psi = call[i as int];
        proof {
            lemma_take_succ(call, i as int);
            assert(psi == all@[i as int]@.map_values(|x: usize| x as int));
            assert(psi.len() == k && strictly_increasing(psi) && in_range(psi, 1, n as int));
        }
        let ps: &Vec<usize> = &all[i];
        let plen = ps.len();
        let keep: bool = if plen == 0 {
            true
        } else {
            let first = ps[0];
            let last = ps[plen - 1];
            proof {
                assert(psi[0] == first as int);
                assert(psi[plen - 1] == last as int);
                assert(psi.last() == psi[plen - 1]);
            }
            first != 0 && !(last + 1 == n)
        };
        proof {
            assert(keep == valid_positions(psi, n as int));
        }
        if keep {
            proof {
                assert forall|t: int| 0 <= t < psi.len() implies 0 <= #[trigger] psi[t]
                    <= n as int by {}
                assert(in_range(psi, 0, n as int + 1));
            }
            let cand = insert_hyphens(target, ps);
            let ghost old_map = r@.map_values(|v: Vec<char>| v@);
            let ghost prev = filter_valid(call.take(i as int), n as int);
            r.push(cand);
            proof {
                assert(filter_valid(call.take(i + 1), n as int) =~= prev + seq![psi]);
                let m = r@.map_values(|v: Vec<char>| v@);
                let rhs = cands_of(target@, prev + seq![psi]);
                assert(old_map.len() == prev.len());
                assert(m.len() == rhs.len());
                assert forall|t: int| 0 <= t < m.len() implies m[t] == rhs[t] by {
                    assert(rhs[t] == with_markers(target@, (prev + seq![psi])[t]));
                    if t < prev.len() {
                        assert(m[t] == r@[t]@);
                        assert(r@[t] == r@.drop_last()[t]);
                        assert(old_map[t] == cands_of(target@, prev)[t]);
                        assert((prev + seq![psi])[t] == prev[t]);
                    } else {
                        assert(m[t] == cand@);
                        assert((prev + seq![psi])[t] == psi);
                    }
                }
                assert(m =~= cands_of(target@, filter_valid(call.take(i + 1), n as int)));
            }
        } else {
            proof {
                assert(filter_valid(call.take(i + 1), n as int) =~= filter_valid(
                    call.take(i as int),
                    n as int,
                ));
            }
        }
        i = i + 1;
    }
    proof {
        crate::textseq::lemma_take_full(call);
    }
    r
}

} // verus!
