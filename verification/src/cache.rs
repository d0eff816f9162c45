//! The cache of finished translations, kept in a hash map with the Fx hasher.

use fxhash::FxHashMap;
use vstd::prelude::*;

verus! {

/// `fxhash::FxHasher`: the hasher of the map. It hashes the same key to the
/// same value in every process.
#[verifier::external_type_specification]
#[verifier::external_body]
pub struct ExFxHasher(fxhash::FxHasher);

/// `std::hash::BuildHasherDefault`: makes the hasher of the map.
#[verifier::external_type_specification]
#[verifier::external_body]
#[verifier::reject_recursive_types(H)]
pub struct ExBuildHasherDefault<H>(std::hash::BuildHasherDefault<H>);

/// What a map from text to text holds: for each key that is present, read as a
/// sequence of characters, the value stored under it.
pub uninterp spec fn map_entries(map: FxHashMap<String, String>) -> Map<Seq<char>, Seq<char>>;

/// The entries of a map that holds nothing.
pub open spec fn no_entries() -> Map<Seq<char>, Seq<char>> {
    Map::empty()
}

/// `FxHashMap::default`: a map that holds nothing.
#[verifier::external_body]
fn map_new() -> (made: FxHashMap<String, String>)
    ensures
        map_entries(made) == no_entries(),
{
    FxHashMap::default()
}

/// `HashMap::get`: the value stored under `key`, if the key is present.
#[verifier::external_body]
fn map_get<'a>(map: &'a FxHashMap<String, String>, key: &str) -> (found: Option<&'a String>)
    ensures
        match found {
            Some(value) => map_entries(*map).contains_key(key@) && map_entries(*map)[key@]
                == value@,
            None => !map_entries(*map).contains_key(key@),
        },
{
    map.get(key)
}

/// `HashMap::contains_key`: whether `key` is present.
#[verifier::external_body]
fn map_contains_key(map: &FxHashMap<String, String>, key: &str) -> (present: bool)
    ensures
        present == map_entries(*map).contains_key(key@),
{
    map.contains_key(key)
}

/// `HashMap::insert`: `value` is stored under `key`, in place of what was
/// stored under it before, and every other key keeps its value.
#[verifier::external_body]
fn map_insert(map: &mut FxHashMap<String, String>, key: String, value: String)
    ensures
        map_entries(*final(map)) == map_entries(*old(map)).insert(key@, value@),
{
    map.insert(key, value);
}

/// Translations that are finished, each under the exact text it translates.
/// No entry is ever removed.
pub struct TranslationCache {
    map: FxHashMap<String, String>,
}

impl View for TranslationCache {
    type V = Map<Seq<char>, Seq<char>>;

    closed spec fn view(&self) -> Map<Seq<char>, Seq<char>> {
        map_entries(self.map)
    }
}

impl TranslationCache {
    /// A cache without entries.
    pub fn new() -> (cache: Self)
        ensures
            cache@ == no_entries(),
    {
        Self { map: map_new() }
    }

    /// A cache that holds what `map` holds.
    pub fn from_map(map: FxHashMap<String, String>) -> (cache: Self)
        ensures
            cache@ == map_entries(map),
    {
        Self { map }
    }

    /// Stores the empty text as the translation of the empty text, whatever
    /// the cache held for it. This is for a cache that has just been loaded.
    pub fn seed_empty(&mut self)
        ensures
            final(self)@ == old(self)@.insert(Seq::empty(), Seq::empty()),
    {
        map_insert(&mut self.map, String::new(), String::new());
    }

    /// The map that holds the entries.
    pub fn as_map(&self) -> (map: &FxHashMap<String, String>)
        ensures
            map_entries(*map) == self@,
    {
        &self.map
    }

    /// Whether `key` has a translation.
    pub fn contains_key(&self, key: &str) -> (present: bool)
        ensures
            present == self@.contains_key(key@),
    {
        map_contains_key(&self.map, key)
    }

    /// The translation of `key`, if it has one.
    pub fn get(&self, key: &str) -> (found: Option<&String>)
        ensures
            match found {
                Some(value) => self@.contains_key(key@) && self@[key@] == value@,
                None => !self@.contains_key(key@),
            },
    {
        map_get(&self.map, key)
    }

    /// The translation of `key`. Where the cache holds none, `compute` makes
    /// it and the cache keeps it; where it holds one, `compute` is not called
    /// and the cache stays as it is. So `compute` runs at most once for a key.
    pub fn get_or_compute<F: FnOnce(&str) -> String>(&mut self, key: &str, compute: F) -> (text:
        String)
        requires
            !old(self)@.contains_key(key@) ==> call_requires(compute, (key,)),
        ensures
            old(self)@.contains_key(key@) ==> text@ == old(self)@[key@]
                && final(self)@ == old(self)@,
            !old(self)@.contains_key(key@) ==> final(self)@ == old(self)@.insert(key@, text@)
                && exists|made: String| call_ensures(compute, (key,), made) && made@ == text@,
    {
        match map_get(&self.map, key) {
            Some(value) => value.clone(),
            None => {
                let made = compute(key);
                let text = made.clone();
                map_insert(&mut self.map, key.to_owned(), made);
                text
            },
        }
    }

    /// Stores `value` as the translation of `key`, in place of what the cache
    /// held for `key`. Every other key keeps its translation.
    pub fn insert(&mut self, key: String, value: String)
        ensures
            final(self)@ == old(self)@.insert(key@, value@),
    {
        map_insert(&mut self.map, key, value);
    }

    /// Stores `value` as the translation of `key`, unless `key` has one
    /// already: then nothing changes. Reports whether the value was stored.
    pub fn insert_if_absent(&mut self, key: String, value: String) -> (stored: bool)
        ensures
            stored == !old(self)@.contains_key(key@),
            final(self)@ == if stored {
                old(self)@.insert(key@, value@)
            } else {
                old(self)@
            },
    {
        if map_contains_key(&self.map, key.as_str()) {
            false
        } else {
            map_insert(&mut self.map, key, value);
            true
        }
    }
}

} // verus!
