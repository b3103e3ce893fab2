//! Classic Levenshtein edit distance (unit-cost insert, delete, substitute),
//! defined as a recursive spec function and computed by a verified
//! dynamic-programming routine.

use vstd::prelude::*;
use crate::textseq::{lemma_take_full, lemma_take_succ, nat_min};

verus! {

/// The minimum number of single-character insertions, deletions and
/// substitutions that turn `a` into `b`.
pub open spec fn lev(a: Seq<char>, b: Seq<char>) -> nat
    decreases a.len() + b.len(),
{
    if a.len() == 0 {
        b.len()
    } else if b.len() == 0 {
        a.len()
    } else {
        let cost: nat = if a.last() == b.last() {
            0
        } else {
            1
        };
        nat_min(
            lev(a.drop_last(), b.drop_last()) + cost,
            nat_min(lev(a.drop_last(), b) + 1, lev(a, b.drop_last()) + 1),
        )
    }
}

pub proof fn lemma_lev_le(a: Seq<char>, b: Seq<char>)
    ensures
        lev(a, b) <= a.len() + b.len(),
    decreases a.len() + b.len(),
{
    if a.len() == 0 || b.len() == 0 {
    } else {
        lemma_lev_le(a.drop_last(), b.drop_last());
        lemma_lev_le(a.drop_last(), b);
        lemma_lev_le(a, b.drop_last());
    }
}

/// The edit distance between two character sequences.
pub fn levenshtein(a: &Vec<char>, b: &Vec<char>) -> (r: usize)
    requires
        a@.len() + b@.len() < usize::MAX,
    ensures
        r as nat == lev(a@, b@),
{
    let m = a.len();
    let n = b.len();
    let mut prev: Vec<usize> = Vec::new();
    let mut j: usize = 0;
    while j <= n
        invariant
            j <= n + 1,
            prev@.len() == j,
            forall|t: int| 0 <= t < j ==> prev@[t] as nat == lev(a@.take(0), b@.take(t)),
        decreases n + 1 - j,
    {
        prev.push(j);
        proof {
            assert(a@.take(0).len() == 0);
            assert(b@.take(j as int).len() == j);
        }
        j = j + 1;
    }
    let mut i: usize = 1;
    while i <= m
        invariant
            1 <= i <= m + 1,
            prev@.len() == n + 1,
            forall|t: int| 0 <= t <= n ==> prev@[t] as nat == lev(a@.take(i - 1), b@.take(t)),
        decreases m + 1 - i,
    {
        let mut cur: Vec<usize> = Vec::new();
        cur.push(i);
        proof {
            assert(b@.take(0).len() == 0);
            assert(a@.take(i as int).len() == i);
        }
        let mut t: usize = 1;
        while t <= n
            invariant
                1 <= i <= m,
                1 <= t <= n + 1,
                prev@.len() == n + 1,
                forall|u: int| 0 <= u <= n ==> prev@[u] as nat == lev(a@.take(i - 1), b@.take(u)),
                cur@.len() == t,
                forall|u: int| 0 <= u < t ==> cur@[u] as nat == lev(a@.take(i as int), b@.take(u)),
            decreases n + 1 - t,
        {
            proof {
                lemma_take_succ(a@, i - 1);
                lemma_take_succ(b@, t - 1);
                lemma_lev_le(a@.take(i - 1), b@.take(t - 1));
                lemma_lev_le(a@.take(i - 1), b@.take(t as int));
                lemma_lev_le(a@.take(i as int), b@.take(t - 1));
            }
            let cost: usize = if a[i - 1] == b[t - 1] {
                0
            } else {
                1
            };
            let diag = prev[t - 1] + cost;
            let dele = prev[t] + 1;
            let ins = cur[t - 1] + 1;
            let mut best = diag;
            if dele < best {
                best = dele;
            }
            if ins < best {
                best = ins;
            }
            cur.push(best);
            proof {
                let aa = a@.take(i as int);
                let bb = b@.take(t as int);
                assert(aa.drop_last() == a@.take(i - 1));
                assert(bb.drop_last() == b@.take(t - 1));
                assert(aa.last() == a@[i - 1]);
                assert(bb.last() == b@[t - 1]);
                assert(lev(aa, bb) == nat_min(
                    lev(aa.drop_last(), bb.drop_last()) + (if aa.last() == bb.last() {
                        0nat
                    } else {
                        1nat
                    }),
                    nat_min(lev(aa.drop_last(), bb) + 1, lev(aa, bb.drop_last()) + 1),
                ));
            }
            t = t + 1;
        }
        prev = cur;
        i = i + 1;
    }
    proof {
        lemma_take_full(a@);
        lemma_take_full(b@);
    }
    prev[n]
}

} // verus!
