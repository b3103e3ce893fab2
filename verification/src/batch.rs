//! The pure parts of the Batch Orchestrator: parsing the phonemizer's batch
//! output, transliterating Cyrillic words part by part, partitioning a word
//! list against the cache, recording fresh transcriptions, and turning each
//! (word, transcription) pair into the transferred result.
//!
//! Everything that talks to the outside world — files, the phonemizer
//! process, threads — stays with the caller; these functions only decide.

use vstd::prelude::*;
use vstd::string::StringExecFns;
use translit::{Transliterator, ToLatin, gost779b_ru, gost779b_ua};
use crate::cache::PhonemeCache;
use crate::textseq::{MAX_WORD_LEN, chars_of, count_marks, count_hyphens, join_on, join_with_char,
    lemma_join_on_marks, lemma_split_marks, lemma_take_full, lemma_take_succ, remove_marks,
    remove_hyphens, split_char, split_on, string_from_chars};
use crate::transform_hyphens::{transfer_spec, transform};

verus! {

/// The whitespace characters that trimming removes: Unicode's White_Space
/// set, the one the standard library's `trim` uses.
pub open spec fn is_ws(c: char) -> bool {
    let u = c as u32;
    (9 <= u && u <= 13) || u == 32 || u == 0x85 || u == 0xA0 || u == 0x1680 || (0x2000 <= u && u
        <= 0x200A) || u == 0x2028 || u == 0x2029 || u == 0x202F || u == 0x205F || u == 0x3000
}

pub open spec fn trim_start_spec(s: Seq<char>) -> Seq<char>
    decreases s.len(),
{
    if s.len() > 0 && is_ws(s[0]) {
        trim_start_spec(s.drop_first())
    } else {
        s
    }
}

pub open spec fn trim_end_spec(s: Seq<char>) -> Seq<char>
    decreases s.len(),
{
    if s.len() > 0 && is_ws(s.last()) {
        trim_end_spec(s.drop_last())
    } else {
        s
    }
}

/// The word with leading and trailing whitespace removed.
pub open spec fn trim_spec(s: Seq<char>) -> Seq<char> {
    trim_end_spec(trim_start_spec(s))
}

pub proof fn lemma_trim_start_skip(s: Seq<char>, lo: int)
    requires
        0 <= lo <= s.len(),
        forall|t: int| 0 <= t < lo ==> is_ws(s[t]),
        lo < s.len() ==> !is_ws(s[lo]),
    ensures
        trim_start_spec(s) == s.skip(lo),
    decreases lo,
{
    if lo == 0 {
        assert(s.skip(0) =~= s);
    } else {
        assert(is_ws(s[0]));
        assert(s.len() > 0);
        let s1 = s.drop_first();
        assert forall|t: int| 0 <= t < lo - 1 implies is_ws(s1[t]) by {
            assert(s1[t] == s[t + 1]);
        }
        if lo - 1 < s1.len() {
            assert(s1[lo - 1] == s[lo]);
        }
        lemma_trim_start_skip(s1, lo - 1);
        assert(s1.skip(lo - 1) =~= s.skip(lo));
    }
}

pub proof fn lemma_trim_end_take(s: Seq<char>, hi: int)
    requires
        0 <= hi <= s.len(),
        forall|t: int| hi <= t < s.len() ==> is_ws(s[t]),
        hi > 0 ==> !is_ws(s[hi - 1]),
    ensures
        trim_end_spec(s) == s.take(hi),
    decreases s.len() - hi,
{
    if hi == s.len() {
        assert(s.take(hi) =~= s);
    } else {
        assert(is_ws(s.last()));
        let s1 = s.drop_last();
        assert forall|t: int| hi <= t < s1.len() implies is_ws(s1[t]) by {
            assert(s1[t] == s[t]);
        }
        if hi > 0 {
            assert(s1[hi - 1] == s[hi - 1]);
        }
        lemma_trim_end_take(s1, hi);
        assert(s1.take(hi) =~= s.take(hi));
    }
}

/// The characters with surrounding whitespace removed.
pub fn trim_chars(v: &Vec<char>) -> (r: Vec<char>)
    ensures
        r@ == trim_spec(v@),
{
    let n = v.len();
    let mut lo: usize = 0;
    while lo < n && is_ws_exec(v[lo])
        invariant
            lo <= n,
            n == v@.len(),
            forall|t: int| 0 <= t < lo ==> is_ws(v@[t]),
        decreases n - lo,
    {
        lo = lo + 1;
    }
    proof {
        lemma_trim_start_skip(v@, lo as int);
    }
    if lo == n {
        let r: Vec<char> = Vec::new();
        proof {
            assert(v@.skip(lo as int) =~= Seq::<char>::empty());
            assert(trim_end_spec(Seq::<char>::empty()) =~= Seq::<char>::empty());
            assert(r@ =~= trim_spec(v@));
        }
        return r;
    }
    let mut hi: usize = n;
    while hi > lo && is_ws_exec(v[hi - 1])
        invariant
            lo <= hi <= n,
            n == v@.len(),
            forall|t: int| hi <= t < n ==> is_ws(v@[t]),
        decreases hi,
    {
        hi = hi - 1;
    }
    proof {
        assert(!is_ws(v@[lo as int]));
        assert(hi > lo);
        let tail = v@.skip(lo as int);
        assert forall|t: int| hi - lo <= t < tail.len() implies is_ws(tail[t]) by {
            assert(tail[t] == v@[t + lo]);
        }
        assert(tail[hi - lo - 1] == v@[hi - 1]);
        lemma_trim_end_take(tail, hi - lo);
    }
    let mut r: Vec<char> = Vec::new();
    let mut t: usize = lo;
    while t < hi
        invariant
            lo <= t <= hi <= n,
            n == v@.len(),
            r@ == v@.subrange(lo as int, t as int),
        decreases hi - t,
    {
        let c = v[t];
        r.push(c);
        proof {
            assert(v@.subrange(lo as int, t as int).push(v@[t as int]) =~= v@.subrange(
                lo as int,
                t + 1,
            ));
        }
        t = t + 1;
    }
    proof {
        assert(v@.subrange(lo as int, hi as int) =~= v@.skip(lo as int).take(hi - lo));
    }
    r
}

/// Whether the character is whitespace.
fn is_ws_exec(c: char) -> (r: bool)
    ensures
        r == is_ws(c),
{
    let u = c as u32;
    (9 <= u && u <= 13) || u == 32 || u == 0x85 || u == 0xA0 || u == 0x1680 || (0x2000 <= u && u
        <= 0x200A) || u == 0x2028 || u == 0x2029 || u == 0x202F || u == 0x205F || u == 0x3000
}

/// A line with every primary-stress mark removed.
pub open spec fn strip_stress(s: Seq<char>) -> Seq<char>
    decreases s.len(),
{
    if s.len() == 0 {
        Seq::empty()
    } else {
        strip_stress(s.drop_last()) + (if s.last() == 'ˈ' {
            Seq::empty()
        } else {
            seq![s.last()]
        })
    }
}

/// One line of phonemizer output, cleaned: trimmed, stress marks removed,
/// and the non-empty placeholder substituted for anything that ends up
/// empty — a blank line as well as a line holding only stress marks.
pub open spec fn clean_line(l: Seq<char>) -> Seq<char> {
    let t = strip_stress(trim_spec(l));
    if t.len() == 0 {
        seq!['?']
    } else {
        t
    }
}

/// What the phonemizer's raw batch output means: one cleaned transcription
/// per line of the trimmed output.
pub open spec fn phonemizer_lines(raw: Seq<char>) -> Seq<Seq<char>> {
    split_on(trim_spec(raw), '\n').map_values(|l: Seq<char>| clean_line(l))
}

fn strip_stress_exec(v: &Vec<char>) -> (r: Vec<char>)
    ensures
        r@ == strip_stress(v@),
{
    let mut r: Vec<char> = Vec::new();
    let mut i: usize = 0;
    while i < v.len()
        invariant
            i <= v@.len(),
            r@ == strip_stress(v@.take(i as int)),
        decreases v@.len() - i,
    {
        proof {
            lemma_take_succ(v@, i as int);
        }
        if v[i] != 'ˈ' {
            let c = v[i];
            r.push(c);
        } else {
            proof {
                assert(r@ + Seq::<char>::empty() =~= r@);
            }
        }
        i = i + 1;
    }
    proof {
        lemma_take_full(v@);
    }
    r
}

/// Parse the phonemizer's raw batch output into one transcription per line:
/// each line trimmed, stress marks dropped, and any line left empty replaced
/// by the `?` placeholder (the caller logs a warning for it); no returned
/// transcription is empty.
pub fn parse_phonemizer_output(raw: &str) -> (r: Vec<String>)
    ensures
        r@.map_values(|s: String| s@) == phonemizer_lines(raw@),
        forall|u: int| 0 <= u < r@.len() ==> (#[trigger] r@[u])@.len() > 0,
{
    let rawv = chars_of(raw);
    let trimmed = trim_chars(&rawv);
    let lines = split_char(&trimmed, '\n');
    let ghost lviews = lines@.map_values(|p: Vec<char>| p@);
    let mut out: Vec<String> = Vec::new();
    let mut i: usize = 0;
    while i < lines.len()
        invariant
            i <= lines@.len(),
            out@.len() == i,
            forall|u: int| 0 <= u < i ==> (#[trigger] out@[u])@ == clean_line(lviews[u]),
            forall|u: int| 0 <= u < i ==> (#[trigger] out@[u])@.len() > 0,
        decreases lines@.len() - i,
    {
        let t = trim_chars(&lines[i]);
        let cleaned = strip_stress_exec(&t);
        proof {
            assert(lviews[i as int] == lines@[i as int]@);
        }
        if cleaned.len() == 0 {
            let q = String::from_str("?");
            proof {
                reveal_strlit("?");
                assert(q@ =~= seq!['?']);
            }
            out.push(q);
        } else {
            let w = string_from_chars(&cleaned);
            out.push(w);
        }
        i = i + 1;
    }
    proof {
        assert(out@.map_values(|s: String| s@) =~= lviews.map_values(|l: Seq<char>| clean_line(l)));
    }
    out
}

/// What translit's GOST 7.79 System B Ukrainian table makes of a word; the
/// result depends on the characters alone.
pub uninterp spec fn latin_ua_of(s: Seq<char>) -> Seq<char>;

/// What translit's GOST 7.79 System B Russian table makes of a word; the
/// result depends on the characters alone.
pub uninterp spec fn latin_ru_of(s: Seq<char>) -> Seq<char>;

/// Relies on translit's `Transliterator::to_latin` over the fixed
/// `gost779b_ua` table: a pure leftmost-first replacement over the input.
/// No pattern and no replacement of the table contains the boundary marker,
/// so markers pass through and the marker count survives.
#[verifier::external_body]
fn to_latin_ua(part: &str) -> (r: String)
    ensures
        r@ == latin_ua_of(part@),
        count_marks(r@) == count_marks(part@),
{
    Transliterator::new(gost779b_ua()).to_latin(part)
}

/// Relies on translit's `Transliterator::to_latin` over the fixed
/// `gost779b_ru` table: a pure leftmost-first replacement over the input.
/// No pattern and no replacement of the table contains the boundary marker,
/// so markers pass through and the marker count survives.
#[verifier::external_body]
fn to_latin_ru(part: &str) -> (r: String)
    ensures
        r@ == latin_ru_of(part@),
        count_marks(r@) == count_marks(part@),
{
    Transliterator::new(gost779b_ru()).to_latin(part)
}

/// A marked word transliterated part by part: what `transliterate_ukrainian`
/// and `transliterate_russian` return.
pub open spec fn translit_parts(
    w: Seq<char>,
    table: spec_fn(Seq<char>) -> Seq<char>,
) -> Seq<char> {
    join_on(split_on(w, '-').map_values(table), '-')
}

/// The word split at its markers, each part transliterated from Ukrainian
/// Cyrillic, and the parts rejoined: the marker count survives and the i-th
/// part of the result is the transliteration of the i-th part of the input.
pub fn transliterate_ukrainian(input: &str) -> (r: String)
    ensures
        r@ == translit_parts(input@, |p: Seq<char>| latin_ua_of(p)),
        count_marks(r@) == count_marks(input@),
{
    let v = chars_of(input);
    let parts = split_char(&v, '-');
    let ghost pviews = parts@.map_values(|p: Vec<char>| p@);
    let mut latin: Vec<String> = Vec::new();
    let mut i: usize = 0;
    while i < parts.len()
        invariant
            i <= parts@.len(),
            latin@.len() == i,
            forall|u: int| 0 <= u < i ==> (#[trigger] latin@[u])@ == latin_ua_of(pviews[u]),
            forall|u: int| 0 <= u < i ==> count_marks((#[trigger] latin@[u])@) == count_marks(
                pviews[u],
            ),
        decreases parts@.len() - i,
    {
        let ps = string_from_chars(&parts[i]);
        proof {
            assert(pviews[i as int] == parts@[i as int]@);
        }
        let lp = to_latin_ua(ps.as_str());
        latin.push(lp);
        i = i + 1;
    }
    proof {
        let lviews = latin@.map_values(|s: String| s@);
        assert(lviews =~= pviews.map_values(|p: Seq<char>| latin_ua_of(p)));
        lemma_split_marks(v@);
        assert forall|u: int| 0 <= u < lviews.len() implies count_marks(
            #[trigger] lviews[u],
        ) == 0 by {
            assert(lviews[u] == latin@[u]@);
            assert(count_marks(pviews[u]) == 0);
        }
        lemma_join_on_marks(lviews);
    }
    join_with_char(&latin, '-')
}

/// The word split at its markers, each part transliterated from Russian
/// Cyrillic, and the parts rejoined: the marker count survives and the i-th
/// part of the result is the transliteration of the i-th part of the input.
pub fn transliterate_russian(input: &str) -> (r: String)
    ensures
        r@ == translit_parts(input@, |p: Seq<char>| latin_ru_of(p)),
        count_marks(r@) == count_marks(input@),
{
    let v = chars_of(input);
    let parts = split_char(&v, '-');
    let ghost pviews = parts@.map_values(|p: Vec<char>| p@);
    let mut latin: Vec<String> = Vec::new();
    let mut i: usize = 0;
    while i < parts.len()
        invariant
            i <= parts@.len(),
            latin@.len() == i,
            forall|u: int| 0 <= u < i ==> (#[trigger] latin@[u])@ == latin_ru_of(pviews[u]),
            forall|u: int| 0 <= u < i ==> count_marks((#[trigger] latin@[u])@) == count_marks(
                pviews[u],
            ),
        decreases parts@.len() - i,
    {
        let ps = string_from_chars(&parts[i]);
        proof {
            assert(pviews[i as int] == parts@[i as int]@);
        }
        let lp = to_latin_ru(ps.as_str());
        latin.push(lp);
        i = i + 1;
    }
    proof {
        let lviews = latin@.map_values(|s: String| s@);
        assert(lviews =~= pviews.map_values(|p: Seq<char>| latin_ru_of(p)));
        lemma_split_marks(v@);
        assert forall|u: int| 0 <= u < lviews.len() implies count_marks(
            #[trigger] lviews[u],
        ) == 0 by {
            assert(lviews[u] == latin@[u]@);
            assert(count_marks(pviews[u]) == 0);
        }
        lemma_join_on_marks(lviews);
    }
    join_with_char(&latin, '-')
}

/// Whether two string slices hold the same characters.
pub fn str_eq(a: &str, b: &str) -> (r: bool)
    ensures
        r == (a@ == b@),
{
    let av = chars_of(a);
    let bv = chars_of(b);
    if av.len() != bv.len() {
        return false;
    }
    let mut i: usize = 0;
    while i < av.len()
        invariant
            i <= av@.len(),
            av@.len() == bv@.len(),
            av@ == a@,
            bv@ == b@,
            forall|t: int| 0 <= t < i ==> av@[t] == bv@[t],
        decreases av@.len() - i,
    {
        if av[i] != bv[i] {
            return false;
        }
        i = i + 1;
    }
    proof {
        assert(a@ =~= b@);
    }
    true
}

/// The word the source is transliterated to before the transfer, by
/// language: Ukrainian and Russian sources go to Latin part by part, any
/// other language is compared as it stands.
pub open spec fn translit_spec(lang: Seq<char>, w: Seq<char>) -> Seq<char> {
    if lang == "zle/uk"@ {
        translit_parts(w, |p: Seq<char>| latin_ua_of(p))
    } else if lang == "zle/ru"@ {
        translit_parts(w, |p: Seq<char>| latin_ru_of(p))
    } else {
        w
    }
}

/// What one word of a batch becomes.  An empty transcription leaves the word
/// as it came (the caller warns); an unmarked word needs no transfer and
/// takes its transcription as is; a marked word is transliterated when the
/// language asks for it and its markers are transferred onto the
/// transcription.  A transliteration too long for the pipeline falls back to
/// the unmarked transcription.
pub open spec fn process_word_spec(w: Seq<char>, ipa: Seq<char>, lang: Seq<char>) -> Seq<char> {
    if ipa.len() == 0 {
        w
    } else if count_marks(w) == 0 {
        ipa
    } else {
        let tw = translit_spec(lang, w);
        if tw.len() <= MAX_WORD_LEN {
            transfer_spec(tw, ipa)
        } else {
            ipa
        }
    }
}

/// Turn one word and its transcription into the transferred result, residual
/// ties falling to the first-seen fallback.  `assess_word` surfaces such
/// ties instead, so a caller can apply a tie-break strategy.
pub fn process_word(word: &str, ipa: &str, language: &str) -> (r: String)
    requires
        word@.len() <= MAX_WORD_LEN,
        ipa@.len() <= MAX_WORD_LEN,
    ensures
        r@ == process_word_spec(word@, ipa@, language@),
{
    if ipa.unicode_len() == 0 {
        return String::from_str(word);
    }
    if count_hyphens(word) == 0 {
        return String::from_str(ipa);
    }
    let transliterated: String = if str_eq(language, "zle/uk") {
        transliterate_ukrainian(word)
    } else if str_eq(language, "zle/ru") {
        transliterate_russian(word)
    } else {
        String::from_str(word)
    };
    proof {
        assert(transliterated@ == translit_spec(language@, word@));
    }
    if transliterated.as_str().unicode_len() <= crate::textseq::MAX_WORD_LEN {
        transform(transliterated.as_str(), ipa)
    } else {
        String::from_str(ipa)
    }
}

/// How one word of a batch is to be handled: either the result is already
/// decided, or several candidates tie and a tie-break strategy must pick.
pub enum WordOutcome {
    Done(String),
    Tie(Vec<String>),
}

/// Decide one word as far as the pipeline can without external judgment.
///
/// `Done` carries the finished result: the word itself on an empty
/// transcription, the transcription for an unmarked word or an over-long
/// transliteration, and otherwise the transfer with at most one survivor.
/// `Tie` carries the full surviving candidate set, in generation order, for
/// a tie-break strategy: `transform_with_resynthesis` applies the
/// phonetic-resynthesis strategy to it, `select_candidate` the interactive
/// one, and taking its first element is the first-seen fallback that
/// `process_word` uses.
pub fn assess_word(word: &str, ipa: &str, language: &str) -> (r: WordOutcome)
    requires
        word@.len() <= MAX_WORD_LEN,
        ipa@.len() <= MAX_WORD_LEN,
    ensures
        match r {
            WordOutcome::Done(s) => s@ == process_word_spec(word@, ipa@, language@) && (
            ipa@.len() == 0 || count_marks(word@) == 0 || translit_spec(language@, word@).len()
                > MAX_WORD_LEN || crate::transform_hyphens::refined_candidates(
                translit_spec(language@, word@),
                ipa@,
            ).len() <= 1),
            WordOutcome::Tie(cands) => cands@.map_values(|s: String| s@)
                == crate::transform_hyphens::refined_candidates(
                translit_spec(language@, word@),
                ipa@,
            ) && cands@.len() > 1 && ipa@.len() > 0 && count_marks(word@) > 0 && translit_spec(
                language@,
                word@,
            ).len() <= MAX_WORD_LEN,
        },
{
    if ipa.unicode_len() == 0 {
        return WordOutcome::Done(String::from_str(word));
    }
    if count_hyphens(word) == 0 {
        return WordOutcome::Done(String::from_str(ipa));
    }
    let transliterated: String = if str_eq(language, "zle/uk") {
        transliterate_ukrainian(word)
    } else if str_eq(language, "zle/ru") {
        transliterate_russian(word)
    } else {
        String::from_str(word)
    };
    proof {
        assert(transliterated@ == translit_spec(language@, word@));
    }
    if transliterated.as_str().unicode_len() > MAX_WORD_LEN {
        return WordOutcome::Done(String::from_str(ipa));
    }
    let cands = crate::transform_hyphens::transfer_candidates(transliterated.as_str(), ipa);
    let ghost cviews = cands@.map_values(|s: String| s@);
    if cands.len() > 1 {
        WordOutcome::Tie(cands)
    } else if cands.len() == 1 {
        proof {
            assert(cviews[0] == cands@[0]@);
        }
        WordOutcome::Done(cands[0].clone())
    } else {
        WordOutcome::Done(String::from_str(ipa))
    }
}

/// The cache hits of a word list: for each word whose stripped form is
/// cached, the word, its stripped form, and the cached transcription.
pub open spec fn cache_hits(ws: Seq<Seq<char>>, m: Map<Seq<char>, Seq<char>>) -> Seq<
    (Seq<char>, Seq<char>, Seq<char>),
>
    decreases ws.len(),
{
    if ws.len() == 0 {
        Seq::empty()
    } else {
        let stripped = remove_marks(ws.last());
        cache_hits(ws.drop_last(), m) + (if m.contains_key(stripped) {
            seq![(ws.last(), stripped, m[stripped])]
        } else {
            Seq::empty()
        })
    }
}

/// The cache misses of a word list: each word whose stripped form is not
/// cached, with that stripped form.
pub open spec fn cache_misses(ws: Seq<Seq<char>>, m: Map<Seq<char>, Seq<char>>) -> Seq<
    (Seq<char>, Seq<char>),
>
    decreases ws.len(),
{
    if ws.len() == 0 {
        Seq::empty()
    } else {
        let stripped = remove_marks(ws.last());
        cache_misses(ws.drop_last(), m) + (if m.contains_key(stripped) {
            Seq::empty()
        } else {
            seq![(ws.last(), stripped)]
        })
    }
}

/// Split a word list into cache hits and misses, in the list's order.
pub fn partition_by_cache(words: &Vec<String>, cache: &PhonemeCache) -> (r: (
    Vec<(String, String, String)>,
    Vec<(String, String)>,
))
    ensures
        r.0@.map_values(|t: (String, String, String)| (t.0@, t.1@, t.2@)) == cache_hits(
            words@.map_values(|w: String| w@),
            cache@,
        ),
        r.1@.map_values(|t: (String, String)| (t.0@, t.1@)) == cache_misses(
            words@.map_values(|w: String| w@),
            cache@,
        ),
{
    let ghost wv = words@.map_values(|w: String| w@);
    let mut hits: Vec<(String, String, String)> = Vec::new();
    let mut misses: Vec<(String, String)> = Vec::new();
    let mut i: usize = 0;
    while i < words.len()
        invariant
            i <= words@.len(),
            hits@.map_values(|t: (String, String, String)| (t.0@, t.1@, t.2@)) == cache_hits(
                wv.take(i as int),
                cache@,
            ),
            misses@.map_values(|t: (String, String)| (t.0@, t.1@)) == cache_misses(
                wv.take(i as int),
                cache@,
            ),
        decreases words@.len() - i,
    {
        proof {
            lemma_take_succ(wv, i as int);
            assert(wv[i as int] == words@[i as int]@);
        }
        let word = words[i].clone();
        let stripped = remove_hyphens(word.as_str());
        let found = cache.lookup(&stripped);
        match found {
            Some(ipa) => {
                let ghost old_map = hits@.map_values(
                    |t: (String, String, String)| (t.0@, t.1@, t.2@),
                );
                hits.push((word, stripped, ipa));
                proof {
                    let m = hits@.map_values(|t: (String, String, String)| (t.0@, t.1@, t.2@));
                    assert forall|u: int| 0 <= u < m.len() implies m[u] == cache_hits(
                        wv.take(i + 1),
                        cache@,
                    )[u] by {
                        if u < old_map.len() {
                            assert(m[u] == (hits@[u].0@, hits@[u].1@, hits@[u].2@));
                            assert(old_map[u] == (hits@[u].0@, hits@[u].1@, hits@[u].2@));
                        }
                    }
                    assert(m =~= cache_hits(wv.take(i + 1), cache@));
                    assert(cache_misses(wv.take(i + 1), cache@) =~= cache_misses(
                        wv.take(i as int),
                        cache@,
                    ));
                }
            },
            None => {
                let ghost old_map = misses@.map_values(|t: (String, String)| (t.0@, t.1@));
                misses.push((word, stripped));
                proof {
                    let m = misses@.map_values(|t: (String, String)| (t.0@, t.1@));
                    assert forall|u: int| 0 <= u < m.len() implies m[u] == cache_misses(
                        wv.take(i + 1),
                        cache@,
                    )[u] by {
                        if u < old_map.len() {
                            assert(m[u] == (misses@[u].0@, misses@[u].1@));
                            assert(old_map[u] == (misses@[u].0@, misses@[u].1@));
                        }
                    }
                    assert(m =~= cache_misses(wv.take(i + 1), cache@));
                    assert(cache_hits(wv.take(i + 1), cache@) =~= cache_hits(
                        wv.take(i as int),
                        cache@,
                    ));
                }
            },
        }
        i = i + 1;
    }
    proof {
        lemma_take_full(wv);
    }
    (hits, misses)
}

/// A mapping with a run of pairs inserted, in order.
pub open spec fn insert_all(
    m: Map<Seq<char>, Seq<char>>,
    ps: Seq<(Seq<char>, Seq<char>)>,
) -> Map<Seq<char>, Seq<char>>
    decreases ps.len(),
{
    if ps.len() == 0 {
        m
    } else {
        insert_all(m, ps.drop_last()).insert(ps.last().0, ps.last().1)
    }
}

/// Record the fresh transcriptions of the cache misses and complete them
/// into (word, stripped, transcription) triples, in order.
pub fn merge_new_transcriptions(
    cache: &mut PhonemeCache,
    misses: &Vec<(String, String)>,
    ipas: &Vec<String>,
) -> (r: Vec<(String, String, String)>)
    requires
        ipas@.len() == misses@.len(),
    ensures
        r@.len() == misses@.len(),
        forall|u: int|
            0 <= u < misses@.len() ==> (#[trigger] r@[u]).0@ == misses@[u].0@ && r@[u].1@
                == misses@[u].1@ && r@[u].2@ == ipas@[u]@,
        final(cache)@ == insert_all(
            old(cache)@,
            Seq::new(misses@.len(), |u: int| (misses@[u].1@, ipas@[u]@)),
        ),
{
    let ghost pv = Seq::new(misses@.len(), |u: int| (misses@[u].1@, ipas@[u]@));
    let mut r: Vec<(String, String, String)> = Vec::new();
    let mut i: usize = 0;
    proof {
        assert(pv.take(0) =~= Seq::<(Seq<char>, Seq<char>)>::empty());
    }
    while i < misses.len()
        invariant
            i <= misses@.len(),
            r@.len() == i,
            forall|u: int|
                0 <= u < i ==> (#[trigger] r@[u]).0@ == misses@[u].0@ && r@[u].1@ == misses@[u].1@
                    && r@[u].2@ == ipas@[u]@,
            cache@ == insert_all(old(cache)@, pv.take(i as int)),
        decreases misses@.len() - i,
    {
        proof {
            lemma_take_succ(pv, i as int);
        }
        let word = misses[i].0.clone();
        let stripped = misses[i].1.clone();
        let ipa = ipas[i].clone();
        cache.insert(stripped.clone(), ipa.clone());
        r.push((word, stripped, ipa));
        i = i + 1;
    }
    proof {
        lemma_take_full(pv);
    }
    r
}

/// Transfer a whole batch: each (word, stripped, transcription) triple
/// becomes (result, stripped, transcription).
pub fn process_words(items: &Vec<(String, String, String)>, language: &str) -> (r: Vec<
    (String, String, String),
>)
    requires
        forall|u: int|
            0 <= u < items@.len() ==> (#[trigger] items@[u]).0@.len() <= MAX_WORD_LEN
                && items@[u].2@.len() <= MAX_WORD_LEN,
    ensures
        r@.len() == items@.len(),
        forall|u: int|
            0 <= u < items@.len() ==> (#[trigger] r@[u]).0@ == process_word_spec(
                items@[u].0@,
                items@[u].2@,
                language@,
            ) && r@[u].1@ == items@[u].1@ && r@[u].2@ == items@[u].2@,
{
    let mut r: Vec<(String, String, String)> = Vec::new();
    let mut i: usize = 0;
    while i < items.len()
        invariant
            i <= items@.len(),
            r@.len() == i,
            forall|u: int|
                0 <= u < i ==> (#[trigger] r@[u]).0@ == process_word_spec(
                    items@[u].0@,
                    items@[u].2@,
                    language@,
                ) && r@[u].1@ == items@[u].1@ && r@[u].2@ == items@[u].2@,
        decreases items@.len() - i,
    {
        let item = &items[i];
        let transferred = process_word(item.0.as_str(), item.2.as_str(), language);
        r.push((transferred, item.1.clone(), item.2.clone()));
        i = i + 1;
    }
    r
}

} // verus!
