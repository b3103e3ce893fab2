//! Sequence-level model of marked words, and the basic executable helpers
//! that move between `&str`, `Vec<char>` and `String`.
//!
//! A word is modelled as a `Seq<char>`; the boundary marker is the hyphen
//! character.  The spec functions here (`count_marks`, `remove_marks`,
//! `mark_positions`) are the vocabulary in which every contract of the crate
//! speaks about markers.

use vstd::prelude::*;
use vstd::string::StrSliceExecFns;

verus! {

/// The boundary marker used throughout: a plain hyphen.
pub open spec fn is_marker(c: char) -> bool {
    c == '-'
}

/// The largest word length the transfer pipeline accepts.  The cap keeps
/// every intermediate quantity of the pipeline inside the machine's integer
/// types: similarity scores stay below `u64::MAX` and index sums below
/// `usize::MAX`, on 32-bit machines included.
pub const MAX_WORD_LEN: usize = 0x3FFF_FFFF;

pub open spec fn nat_min(a: nat, b: nat) -> nat {
    if a <= b {
        a
    } else {
        b
    }
}

/// How many boundary markers a word carries.
pub open spec fn count_marks(s: Seq<char>) -> nat
    decreases s.len(),
{
    if s.len() == 0 {
        0
    } else {
        count_marks(s.drop_last()) + (if is_marker(s.last()) {
            1nat
        } else {
            0nat
        })
    }
}

/// The word with every boundary marker removed (the "stripped" word).
pub open spec fn remove_marks(s: Seq<char>) -> Seq<char>
    decreases s.len(),
{
    if s.len() == 0 {
        Seq::empty()
    } else {
        remove_marks(s.drop_last()) + (if is_marker(s.last()) {
            Seq::empty()
        } else {
            seq![s.last()]
        })
    }
}

/// The positions (character indices, ascending) of the boundary markers.
pub open spec fn mark_positions(s: Seq<char>) -> Seq<int>
    decreases s.len(),
{
    if s.len() == 0 {
        Seq::empty()
    } else {
        mark_positions(s.drop_last()) + (if is_marker(s.last()) {
            seq![s.len() - 1]
        } else {
            Seq::empty()
        })
    }
}

/// Peeling one element off a prefix: the bridge between the recursive spec
/// functions above (which recurse on the last element) and forward loops.
pub proof fn lemma_take_succ<A>(s: Seq<A>, i: int)
    requires
        0 <= i < s.len(),
    ensures
        s.take(i + 1).drop_last() == s.take(i),
        s.take(i + 1).last() == s[i],
{
    assert(s.take(i + 1).drop_last() =~= s.take(i));
}

pub proof fn lemma_take_full<A>(s: Seq<A>)
    ensures
        s.take(s.len() as int) == s,
{
    assert(s.take(s.len() as int) =~= s);
}

pub proof fn lemma_count_marks_le(s: Seq<char>)
    ensures
        count_marks(s) <= s.len(),
    decreases s.len(),
{
    if s.len() > 0 {
        lemma_count_marks_le(s.drop_last());
    }
}

pub proof fn lemma_count_marks_append(a: Seq<char>, b: Seq<char>)
    ensures
        count_marks(a + b) == count_marks(a) + count_marks(b),
    decreases b.len(),
{
    if b.len() == 0 {
        assert(a + b =~= a);
    } else {
        lemma_count_marks_append(a, b.drop_last());
        assert((a + b).drop_last() =~= a + b.drop_last());
        assert((a + b).last() == b.last());
    }
}

pub proof fn lemma_remove_marks_append(a: Seq<char>, b: Seq<char>)
    ensures
        remove_marks(a + b) == remove_marks(a) + remove_marks(b),
    decreases b.len(),
{
    if b.len() == 0 {
        assert(a + b =~= a);
        assert(remove_marks(a) + remove_marks(b) =~= remove_marks(a));
    } else {
        lemma_remove_marks_append(a, b.drop_last());
        assert((a + b).drop_last() =~= a + b.drop_last());
        assert((a + b).last() == b.last());
        if is_marker(b.last()) {
            assert(remove_marks(a) + remove_marks(b.drop_last())
                =~= remove_marks(a) + remove_marks(b));
        } else {
            assert((remove_marks(a) + remove_marks(b.drop_last())) + seq![b.last()]
                =~= remove_marks(a) + remove_marks(b));
        }
    }
}

pub proof fn lemma_remove_marks_le(s: Seq<char>)
    ensures
        remove_marks(s).len() <= s.len(),
    decreases s.len(),
{
    if s.len() > 0 {
        lemma_remove_marks_le(s.drop_last());
    }
}

/// A word carries no markers exactly when no position holds one.
pub proof fn lemma_count_marks_zero(s: Seq<char>)
    ensures
        count_marks(s) == 0 <==> (forall|i: int| 0 <= i < s.len() ==> !is_marker(s[i])),
    decreases s.len(),
{
    if s.len() > 0 {
        lemma_count_marks_zero(s.drop_last());
        if count_marks(s) == 0 {
            assert forall|i: int| 0 <= i < s.len() implies !is_marker(s[i]) by {
                if i < s.len() - 1 {
                    assert(s.drop_last()[i] == s[i]);
                }
            }
        } else {
            if count_marks(s.drop_last()) == 0 {
                assert(is_marker(s[s.len() - 1]));
            } else {
                let i = choose|i: int|
                    0 <= i < s.drop_last().len() && is_marker(s.drop_last()[i]);
                assert(is_marker(s[i]));
            }
        }
    }
}

/// A word with no markers strips to itself.
pub proof fn lemma_remove_marks_unmarked(s: Seq<char>)
    requires
        count_marks(s) == 0,
    ensures
        remove_marks(s) == s,
    decreases s.len(),
{
    if s.len() == 0 {
        assert(remove_marks(s) =~= s);
    } else {
        lemma_remove_marks_unmarked(s.drop_last());
        assert(remove_marks(s) =~= s);
    }
}

pub proof fn lemma_mark_positions_in_range(s: Seq<char>)
    ensures
        forall|j: int|
            0 <= j < mark_positions(s).len() ==> 0 <= #[trigger] mark_positions(s)[j] < s.len(),
    decreases s.len(),
{
    if s.len() > 0 {
        lemma_mark_positions_in_range(s.drop_last());
        let p = mark_positions(s.drop_last());
        assert forall|j: int| 0 <= j < mark_positions(s).len() implies 0 <= #[trigger] mark_positions(
            s,
        )[j] < s.len() by {
            if j < p.len() {
                assert(mark_positions(s)[j] == p[j]);
            }
        }
    }
}

pub proof fn lemma_mark_positions_len(s: Seq<char>)
    ensures
        mark_positions(s).len() == count_marks(s),
    decreases s.len(),
{
    if s.len() > 0 {
        lemma_mark_positions_len(s.drop_last());
    }
}

/// The parts of a word between occurrences of a separator: one part more
/// than there are separators, empty parts included.
pub open spec fn split_on(s: Seq<char>, sep: char) -> Seq<Seq<char>>
    decreases s.len(),
{
    if s.len() == 0 {
        seq![Seq::<char>::empty()]
    } else {
        let rest = split_on(s.drop_last(), sep);
        if s.last() == sep {
            rest.push(Seq::empty())
        } else {
            rest.update(rest.len() - 1, rest.last().push(s.last()))
        }
    }
}

/// Splitting at the marker yields one part per marker plus one, and no part
/// carries a marker of its own.
pub proof fn lemma_split_marks(s: Seq<char>)
    ensures
        split_on(s, '-').len() == count_marks(s) + 1,
        forall|i: int|
            0 <= i < split_on(s, '-').len() ==> count_marks(#[trigger] split_on(s, '-')[i]) == 0,
    decreases s.len(),
{
    if s.len() == 0 {
        assert(count_marks(split_on(s, '-')[0]) == 0);
    } else {
        lemma_split_marks(s.drop_last());
        let rest = split_on(s.drop_last(), '-');
        let whole = split_on(s, '-');
        if s.last() == '-' {
            assert forall|i: int| 0 <= i < whole.len() implies count_marks(
                #[trigger] whole[i],
            ) == 0 by {
                if i < rest.len() {
                    assert(whole[i] == rest[i]);
                } else {
                    assert(whole[i] =~= Seq::<char>::empty());
                    assert(count_marks(Seq::<char>::empty()) == 0);
                }
            }
        } else {
            assert forall|i: int| 0 <= i < whole.len() implies count_marks(
                #[trigger] whole[i],
            ) == 0 by {
                if i < rest.len() - 1 {
                    assert(whole[i] == rest[i]);
                } else {
                    let grown = rest.last().push(s.last());
                    assert(whole[i] == grown);
                    assert(grown.drop_last() =~= rest.last());
                    assert(grown.last() == s.last());
                }
            }
        }
    }
}

/// Joining marker-free parts with the marker puts exactly one marker at each
/// junction.
pub proof fn lemma_join_on_marks(parts: Seq<Seq<char>>)
    requires
        parts.len() >= 1,
        forall|i: int| 0 <= i < parts.len() ==> count_marks(#[trigger] parts[i]) == 0,
    ensures
        count_marks(join_on(parts, '-')) == parts.len() - 1,
    decreases parts.len(),
{
    if parts.len() == 1 {
    } else {
        assert forall|i: int| 0 <= i < parts.drop_last().len() implies count_marks(
            #[trigger] parts.drop_last()[i],
        ) == 0 by {
            assert(parts.drop_last()[i] == parts[i]);
        }
        lemma_join_on_marks(parts.drop_last());
        let head = join_on(parts.drop_last(), '-');
        lemma_count_marks_append(head, seq!['-']);
        lemma_count_marks_append(head + seq!['-'], parts.last());
        assert(count_marks(seq!['-']) == 1) by {
            assert(seq!['-'].drop_last() =~= Seq::<char>::empty());
            assert(count_marks(Seq::<char>::empty()) == 0);
            assert(seq!['-'].last() == '-');
        }
        assert(count_marks(parts[parts.len() - 1]) == 0);
        assert((head + seq!['-']) + parts.last() =~= join_on(parts, '-'));
    }
}

/// The parts joined back together with the separator between them.
pub open spec fn join_on(parts: Seq<Seq<char>>, sep: char) -> Seq<char>
    decreases parts.len(),
{
    if parts.len() == 0 {
        Seq::empty()
    } else if parts.len() == 1 {
        parts[0]
    } else {
        join_on(parts.drop_last(), sep) + seq![sep] + parts.last()
    }
}

/// The characters of a string slice, in order.
pub fn chars_of(s: &str) -> (r: Vec<char>)
    ensures
        r@ == s@,
{
    let n = s.unicode_len();
    let mut r: Vec<char> = Vec::new();
    let mut i: usize = 0;
    while i < n
        invariant
            i <= n,
            r@ == s@.take(i as int),
        decreases n - i,
    {
        let c = s.get_char(i);
        r.push(c);
        proof {
            lemma_take_succ(s@, i as int);
        }
        i = i + 1;
    }
    proof {
        lemma_take_full(s@);
    }
    r
}

/// Relies on `String`'s `FromIterator<char>` impl from the standard library:
/// collecting characters yields the string of exactly those characters.
#[verifier::external_body]
pub(crate) fn string_from_chars(v: &Vec<char>) -> (r: String)
    ensures
        r@ == v@,
{
    v.iter().collect()
}

/// How many markers a word carries, on `Vec<char>`.
pub fn count_marks_vec(v: &Vec<char>) -> (r: usize)
    ensures
        r as nat == count_marks(v@),
{
    let mut r: usize = 0;
    let mut i: usize = 0;
    while i < v.len()
        invariant
            i <= v.len(),
            r as nat == count_marks(v@.take(i as int)),
            r <= i,
        decreases v.len() - i,
    {
        proof {
            lemma_take_succ(v@, i as int);
        }
        if v[i] == '-' {
            r = r + 1;
        }
        i = i + 1;
    }
    proof {
        lemma_take_full(v@);
    }
    r
}

/// The number of boundary markers in a word.
pub fn count_hyphens(s: &str) -> (r: usize)
    ensures
        r as nat == count_marks(s@),
{
    let v = chars_of(s);
    count_marks_vec(&v)
}

/// The word with every marker removed, on `Vec<char>`.
pub fn remove_marks_vec(v: &Vec<char>) -> (r: Vec<char>)
    ensures
        r@ == remove_marks(v@),
{
    let mut r: Vec<char> = Vec::new();
    let mut i: usize = 0;
    while i < v.len()
        invariant
            i <= v.len(),
            r@ == remove_marks(v@.take(i as int)),
        decreases v.len() - i,
    {
        proof {
            lemma_take_succ(v@, i as int);
        }
        if v[i] != '-' {
            let c = v[i];
            r.push(c);
        } else {
            proof {
                assert(r@ + Seq::<char>::empty() =~= r@);
            }
        }
        i = i + 1;
    }
    proof {
        lemma_take_full(v@);
    }
    r
}

/// The word with every marker removed: the stripped word used as cache key
/// and phonemizer input.
pub fn remove_hyphens(s: &str) -> (r: String)
    ensures
        r@ == remove_marks(s@),
{
    let v = chars_of(s);
    let stripped = remove_marks_vec(&v);
    string_from_chars(&stripped)
}

/// The marker positions of a word, ascending.
pub fn marks_of_vec(v: &Vec<char>) -> (r: Vec<usize>)
    ensures
        r@.map_values(|x: usize| x as int) == mark_positions(v@),
{
    let mut r: Vec<usize> = Vec::new();
    let mut i: usize = 0;
    while i < v.len()
        invariant
            i <= v.len(),
            r@.map_values(|x: usize| x as int) == mark_positions(v@.take(i as int)),
        decreases v.len() - i,
    {
        proof {
            lemma_take_succ(v@, i as int);
        }
        if v[i] == '-' {
            r.push(i);
            proof {
                assert(r@.map_values(|x: usize| x as int)
                    =~= mark_positions(v@.take(i as int)) + seq![i as int]);
            }
        } else {
            proof {
                assert(mark_positions(v@.take(i + 1)) =~= mark_positions(v@.take(i as int)));
            }
        }
        i = i + 1;
    }
    proof {
        lemma_take_full(v@);
    }
    r
}

/// The parts of a word between occurrences of the separator.
pub fn split_char(v: &Vec<char>, sep: char) -> (r: Vec<Vec<char>>)
    ensures
        r@.map_values(|p: Vec<char>| p@) == split_on(v@, sep),
{
    let mut acc: Vec<Vec<char>> = Vec::new();
    let mut cur: Vec<char> = Vec::new();
    let mut i: usize = 0;
    while i < v.len()
        invariant
            i <= v@.len(),
            acc@.map_values(|p: Vec<char>| p@).push(cur@) == split_on(v@.take(i as int), sep),
        decreases v@.len() - i,
    {
        proof {
            lemma_take_succ(v@, i as int);
        }
        let ghost old_acc = acc@.map_values(|p: Vec<char>| p@);
        let ghost old_cur = cur@;
        if v[i] == sep {
            acc.push(cur);
            cur = Vec::new();
            proof {
                let m = acc@.map_values(|p: Vec<char>| p@);
                assert forall|u: int| 0 <= u < m.len() implies m[u] == old_acc.push(old_cur)[u] by {
                    if u < old_acc.len() {
                        assert(m[u] == acc@[u]@);
                        assert(old_acc[u] == acc@[u]@);
                    }
                }
                assert(m =~= old_acc.push(old_cur));
                assert(m.push(cur@) =~= split_on(v@.take(i + 1), sep));
            }
        } else {
            let c = v[i];
            cur.push(c);
            proof {
                let rest = split_on(v@.take(i as int), sep);
                assert(rest.len() >= 1);
                assert(rest.last() == old_cur);
                assert(acc@.map_values(|p: Vec<char>| p@).push(cur@) =~= rest.update(
                    rest.len() - 1,
                    rest.last().push(c),
                ));
            }
        }
        i = i + 1;
    }
    proof {
        lemma_take_full(v@);
    }
    let ghost final_acc = acc@.map_values(|p: Vec<char>| p@);
    let ghost final_cur = cur@;
    acc.push(cur);
    proof {
        let m = acc@.map_values(|p: Vec<char>| p@);
        assert forall|u: int| 0 <= u < m.len() implies m[u] == final_acc.push(final_cur)[u] by {
            if u < final_acc.len() {
                assert(m[u] == acc@[u]@);
                assert(final_acc[u] == acc@[u]@);
            }
        }
        assert(m =~= final_acc.push(final_cur));
    }
    acc
}

/// Append the characters of a string to a character vector.
pub fn push_chars(dst: &mut Vec<char>, s: &str)
    ensures
        final(dst)@ == old(dst)@ + s@,
{
    let cs = chars_of(s);
    let mut i: usize = 0;
    while i < cs.len()
        invariant
            i <= cs@.len(),
            cs@ == s@,
            dst@ == old(dst)@ + s@.take(i as int),
        decreases cs@.len() - i,
    {
        proof {
            lemma_take_succ(s@, i as int);
        }
        let c = cs[i];
        dst.push(c);
        proof {
            assert((old(dst)@ + s@.take(i as int)).push(s@[i as int]) =~= old(dst)@ + s@.take(
                i + 1,
            ));
        }
        i = i + 1;
    }
    proof {
        lemma_take_full(s@);
    }
}

/// The parts joined with the separator between them.
pub fn join_with_char(parts: &Vec<String>, sep: char) -> (r: String)
    ensures
        r@ == join_on(parts@.map_values(|p: String| p@), sep),
{
    let ghost pviews = parts@.map_values(|p: String| p@);
    let mut acc: Vec<char> = Vec::new();
    if parts.len() == 0 {
        return string_from_chars(&acc);
    }
    push_chars(&mut acc, parts[0].as_str());
    proof {
        assert(acc@ =~= pviews[0]);
        assert(pviews.take(1).len() == 1);
        assert(pviews.take(1)[0] == pviews[0]);
    }
    let mut i: usize = 1;
    while i < parts.len()
        invariant
            1 <= i <= parts@.len(),
            acc@ == join_on(pviews.take(i as int), sep),
        decreases parts@.len() - i,
    {
        proof {
            lemma_take_succ(pviews, i as int);
        }
        acc.push(sep);
        push_chars(&mut acc, parts[i].as_str());
        proof {
            assert(acc@ =~= join_on(pviews.take(i as int), sep) + seq![sep] + pviews[i as int]);
        }
        i = i + 1;
    }
    proof {
        lemma_take_full(pviews);
    }
    string_from_chars(&acc)
}

/// The marker positions of a word, ascending.
pub fn get_hyphen_points(s: &str) -> (r: Vec<usize>)
    ensures
        r@.map_values(|x: usize| x as int) == mark_positions(s@),
{
    let v = chars_of(s);
    marks_of_vec(&v)
}

} // verus!
