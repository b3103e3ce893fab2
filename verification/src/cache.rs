//! The Phoneme Cache: a concurrent mapping from stripped word to phonetic
//! transcription, with a persistable snapshot.
//!
//! The store itself is dashmap's `DashMap`; its contents are modelled as a
//! `Map<Seq<char>, Seq<char>>` through the uninterpreted `cache_contents`,
//! and every operation the crate performs on the store goes through a small
//! trusted wrapper whose contract speaks over that model.  Persistence is a
//! JSON object of string-to-string pairs, written and parsed by serde_json
//! behind two further wrappers; `save_blob` and `load_blob` chain them so
//! that a saved cache reloads to identical contents.

use vstd::prelude::*;
use dashmap::DashMap;
use std::collections::HashMap;
use crate::textseq::{chars_of, lemma_take_full, lemma_take_succ, push_chars, string_from_chars};

verus! {

#[verifier::external_type_specification]
#[verifier::external_body]
#[verifier::reject_recursive_types(K)]
#[verifier::reject_recursive_types(V)]
#[verifier::reject_recursive_types(S)]
pub struct ExDashMap<K, V, S>(DashMap<K, V, S>);

/// The concrete store type of the cache.
pub type StoreMap = DashMap<String, String>;

/// What a phoneme store holds: a mapping from stripped words to
/// transcriptions.
pub uninterp spec fn cache_contents(m: StoreMap) -> Map<Seq<char>, Seq<char>>;

/// Relies on dashmap's `DashMap::new`: a new map holds nothing.
#[verifier::external_body]
fn store_new() -> (r: StoreMap)
    ensures
        cache_contents(r) =~= Map::empty(),
{
    DashMap::new()
}

/// Relies on dashmap's `DashMap::get`: it returns the value stored under the
/// key, or nothing when the key is absent.
#[verifier::external_body]
fn store_get(m: &StoreMap, word: &String) -> (r: Option<String>)
    ensures
        match r {
            Some(v) => cache_contents(*m).contains_key(word@) && cache_contents(*m)[word@] == v@,
            None => !cache_contents(*m).contains_key(word@),
        },
{
    m.get(word).map(|e| e.value().clone())
}

/// Relies on dashmap's `DashMap::insert`: the new pair replaces any pair
/// previously stored under the same key.
#[verifier::external_body]
fn store_insert(m: &mut StoreMap, word: String, transcription: String)
    ensures
        cache_contents(*final(m)) == cache_contents(*old(m)).insert(word@, transcription@),
{
    m.insert(word, transcription);
}

/// The sequence of (key, value) views of a pair vector.
pub open spec fn pair_views(ps: Seq<(String, String)>) -> Seq<(Seq<char>, Seq<char>)> {
    ps.map_values(|p: (String, String)| (p.0@, p.1@))
}

/// A pair list enumerates a mapping: every pair is in the mapping, no key
/// repeats, and every key of the mapping appears.
pub open spec fn pairs_represent(
    ps: Seq<(Seq<char>, Seq<char>)>,
    m: Map<Seq<char>, Seq<char>>,
) -> bool {
    &&& forall|i: int| 0 <= i < ps.len() ==> m.contains_pair((#[trigger] ps[i]).0, ps[i].1)
    &&& forall|i: int, j: int| 0 <= i < j < ps.len() ==> ps[i].0 != ps[j].0
    &&& forall|k: Seq<char>| m.contains_key(k) ==> exists|i: int|
        0 <= i < ps.len() && (#[trigger] ps[i]).0 == k
}

/// Relies on dashmap's `DashMap::iter`: it visits every stored pair exactly
/// once, in no particular order.
#[verifier::external_body]
fn store_pairs(m: &StoreMap) -> (r: Vec<(String, String)>)
    ensures
        pairs_represent(pair_views(r@), cache_contents(*m)),
{
    m.iter().map(|e| (e.key().clone(), e.value().clone())).collect()
}

/// What serde_json's parser makes of a string, read as a string-to-string
/// object: the parse is a function of the input alone.
pub uninterp spec fn parsed_cache(s: Seq<char>) -> Option<Map<Seq<char>, Seq<char>>>;

/// The mapping described by a pair list, later pairs winning on equal keys.
pub open spec fn map_of_pairs(ps: Seq<(Seq<char>, Seq<char>)>) -> Map<Seq<char>, Seq<char>>
    decreases ps.len(),
{
    if ps.len() == 0 {
        Map::empty()
    } else {
        map_of_pairs(ps.drop_last()).insert(ps.last().0, ps.last().1)
    }
}

/// Relies on serde_json's `to_string` on a `HashMap<String, String>`: the
/// serializer cannot fail on string keys and values, and parsing the emitted
/// object gives back exactly the serialized mapping.
#[verifier::external_body]
fn pairs_to_json(pairs: &Vec<(String, String)>) -> (r: String)
    ensures
        parsed_cache(r@) == Some(map_of_pairs(pair_views(pairs@))),
{
    let m: HashMap<&String, &String> = pairs.iter().map(|p| (&p.0, &p.1)).collect();
    serde_json::to_string(&m).expect("a string-to-string map always serializes")
}

/// Relies on serde_json's `from_str::<HashMap<String, String>>`: a parse
/// error exactly when the text is not a string-to-string object, and on
/// success the map's pairs, each exactly once, in no particular order.
#[verifier::external_body]
fn json_to_pairs(s: &str) -> (r: Option<Vec<(String, String)>>)
    ensures
        match r {
            Some(ps) => parsed_cache(s@) is Some && pairs_represent(
                pair_views(ps@),
                parsed_cache(s@)->0,
            ),
            None => parsed_cache(s@) is None,
        },
{
    match serde_json::from_str::<HashMap<String, String>>(s) {
        Ok(m) => Some(m.into_iter().collect()),
        Err(_) => None,
    }
}

/// Law: loading any enumeration of a mapping rebuilds exactly that mapping.
/// This is the cache round trip: snapshotting a cache enumerates its
/// contents, and inserting the pairs of the enumeration, in any order it
/// came in, yields the same contents again.
pub proof fn lemma_cache_round_trip(ps: Seq<(Seq<char>, Seq<char>)>, m: Map<Seq<char>, Seq<char>>)
    requires
        pairs_represent(ps, m),
    ensures
        map_of_pairs(ps) == m,
    decreases ps.len(),
{
    if ps.len() == 0 {
        assert forall|k: Seq<char>| !m.contains_key(k) by {
            if m.contains_key(k) {
                let i = choose|i: int| 0 <= i < ps.len() && ps[i].0 == k;
            }
        }
        assert(map_of_pairs(ps) =~= m);
    } else {
        let ps1 = ps.drop_last();
        let k0 = ps.last().0;
        let v0 = ps.last().1;
        let m1 = m.remove(k0);
        assert forall|i: int| 0 <= i < ps1.len() implies m1.contains_pair(
            (#[trigger] ps1[i]).0,
            ps1[i].1,
        ) by {
            assert(ps1[i] == ps[i]);
            assert(ps[i].0 != ps[ps.len() - 1].0);
        }
        assert forall|k: Seq<char>| m1.contains_key(k) implies exists|i: int|
            0 <= i < ps1.len() && (#[trigger] ps1[i]).0 == k by {
            assert(m.contains_key(k));
            let i = choose|i: int| 0 <= i < ps.len() && (#[trigger] ps[i]).0 == k;
            assert(k != k0);
            assert(i < ps.len() - 1);
            assert(ps1[i] == ps[i]);
        }
        assert(pairs_represent(ps1, m1));
        lemma_cache_round_trip(ps1, m1);
        assert(m.contains_pair(k0, v0)) by {
            assert(ps[ps.len() - 1] == ps.last());
        }
        assert(m1.insert(k0, v0) =~= m);
    }
}

/// The Phoneme Cache: stripped word to phonetic transcription.
pub struct PhonemeCache {
    store: StoreMap,
}

impl View for PhonemeCache {
    type V = Map<Seq<char>, Seq<char>>;

    closed spec fn view(&self) -> Map<Seq<char>, Seq<char>> {
        cache_contents(self.store)
    }
}

impl PhonemeCache {
    /// An empty cache.
    pub fn new() -> (r: PhonemeCache)
        ensures
            r@ == Map::<Seq<char>, Seq<char>>::empty(),
    {
        PhonemeCache { store: store_new() }
    }

    /// The transcription cached for a stripped word, if any.
    pub fn lookup(&self, word: &String) -> (r: Option<String>)
        ensures
            match r {
                Some(v) => self@.contains_key(word@) && self@[word@] == v@,
                None => !self@.contains_key(word@),
            },
    {
        store_get(&self.store, word)
    }

    /// Record a transcription; an existing entry for the word is replaced.
    pub fn insert(&mut self, word: String, transcription: String)
        ensures
            final(self)@ == old(self)@.insert(word@, transcription@),
    {
        store_insert(&mut self.store, word, transcription);
    }

    /// Every cached pair, in no particular order, for persistence.
    pub fn snapshot_for_persistence(&self) -> (r: Vec<(String, String)>)
        ensures
            pairs_represent(pair_views(r@), self@),
    {
        store_pairs(&self.store)
    }

    /// A cache holding the given pairs, later pairs winning on equal keys.
    pub fn load(pairs: &Vec<(String, String)>) -> (r: PhonemeCache)
        ensures
            r@ == map_of_pairs(pair_views(pairs@)),
    {
        let ghost pv = pair_views(pairs@);
        let mut c = PhonemeCache::new();
        let mut i: usize = 0;
        proof {
            assert(map_of_pairs(pv.take(0)) =~= Map::<Seq<char>, Seq<char>>::empty());
        }
        while i < pairs.len()
            invariant
                i <= pairs@.len(),
                c@ == map_of_pairs(pv.take(i as int)),
            decreases pairs@.len() - i,
        {
            proof {
                lemma_take_succ(pv, i as int);
                assert(pv[i as int] == (pairs@[i as int].0@, pairs@[i as int].1@));
            }
            let p = &pairs[i];
            c.insert(p.0.clone(), p.1.clone());
            i = i + 1;
        }
        proof {
            lemma_take_full(pv);
        }
        c
    }

    /// The cache serialized for persistence: parsing the returned text gives
    /// back exactly the cache's contents.
    pub fn save_blob(&self) -> (r: String)
        ensures
            parsed_cache(r@) == Some(self@),
    {
        let pairs = self.snapshot_for_persistence();
        proof {
            lemma_cache_round_trip(pair_views(pairs@), self@);
        }
        pairs_to_json(&pairs)
    }

    /// A cache reloaded from serialized text; `None` exactly when the text
    /// does not parse as a string-to-string object.
    pub fn load_blob(json: &str) -> (r: Option<PhonemeCache>)
        ensures
            match r {
                Some(c) => parsed_cache(json@) == Some(c@),
                None => parsed_cache(json@) is None,
            },
    {
        match json_to_pairs(json) {
            Some(ps) => {
                proof {
                    lemma_cache_round_trip(pair_views(ps@), parsed_cache(json@)->0);
                }
                Some(PhonemeCache::load(&ps))
            },
            None => None,
        }
    }
}

/// The language identifier with its separators replaced, so it can serve as
/// a file name.
pub open spec fn dash_for_slash(s: Seq<char>) -> Seq<char> {
    s.map_values(|c: char| if c == '/' { '-' } else { c })
}

/// The file name under which a language's cache is persisted: the language
/// identifier, separators replaced by dashes, with a `.json` suffix.
pub fn cache_file_name(language: &str) -> (r: String)
    ensures
        r@ == dash_for_slash(language@) + ".json"@,
{
    let v = chars_of(language);
    let mut out: Vec<char> = Vec::new();
    let mut i: usize = 0;
    while i < v.len()
        invariant
            i <= v@.len(),
            out@ == dash_for_slash(v@.take(i as int)),
        decreases v@.len() - i,
    {
        proof {
            lemma_take_succ(v@, i as int);
        }
        let c = if v[i] == '/' {
            '-'
        } else {
            v[i]
        };
        out.push(c);
        proof {
            assert(out@ =~= dash_for_slash(v@.take(i + 1)));
        }
        i = i + 1;
    }
    proof {
        lemma_take_full(v@);
        assert(dash_for_slash(v@.take(v@.len() as int)) =~= dash_for_slash(v@));
    }
    push_chars(&mut out, ".json");
    string_from_chars(&out)
}

/// The pair list with each pair turned around, for the reverse mapping from
/// transcription back to stripped word.
pub fn invert_pairs(pairs: &Vec<(String, String)>) -> (r: Vec<(String, String)>)
    ensures
        r@.len() == pairs@.len(),
        forall|i: int|
            0 <= i < pairs@.len() ==> (#[trigger] r@[i]).0@ == pairs@[i].1@ && r@[i].1@
                == pairs@[i].0@,
{
    let mut r: Vec<(String, String)> = Vec::new();
    let mut i: usize = 0;
    while i < pairs.len()
        invariant
            i <= pairs@.len(),
            r@.len() == i,
            forall|u: int|
                0 <= u < i ==> (#[trigger] r@[u]).0@ == pairs@[u].1@ && r@[u].1@ == pairs@[u].0@,
        decreases pairs@.len() - i,
    {
        let p = &pairs[i];
        r.push((p.1.clone(), p.0.clone()));
        i = i + 1;
    }
    r
}

} // verus!
