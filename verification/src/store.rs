//! Hash-backed stores for the index and the guard set.
//!
//! The maps and sets are hashbrown's; the verifier sees them as opaque
//! values whose contents are given by the spec functions below.

use vstd::prelude::*;
use crate::symspell::WordEntry;

verus! {

/// Dictionary store: normalized key to its entry.
#[verifier::external_body]
pub struct WordMap {
    m: hashbrown::HashMap<Vec<char>, WordEntry>,
}

/// The contents of a `WordMap`.
pub uninterp spec fn word_map_of(m: WordMap) -> Map<Seq<char>, (Seq<char>, u64)>;

/// The contents of a `WordMap` with nothing stored.
pub open spec fn empty_word_map() -> Map<Seq<char>, (Seq<char>, u64)> {
    Map::empty()
}

impl WordMap {
    /// Relies on hashbrown's `HashMap::new`: a new map is empty.
    #[verifier::external_body]
    pub fn new() -> (r: WordMap)
        ensures
            word_map_of(r) == empty_word_map(),
    {
        WordMap { m: hashbrown::HashMap::new() }
    }

    /// Relies on hashbrown's `HashMap::insert`: after the call the key maps
    /// to the given entry; other keys are untouched.
    #[verifier::external_body]
    pub fn insert(&mut self, k: &Vec<char>, canonical: String, frequency: u64)
        ensures
            word_map_of(*final(self)) == word_map_of(*old(self)).insert(
                k@,
                (canonical@, frequency),
            ),
    {
        self.m.insert(k.clone(), WordEntry { canonical, frequency });
    }

    /// Relies on hashbrown's `HashMap::get`: returns the entry stored under
    /// the key, if any.
    #[verifier::external_body]
    pub fn get(&self, k: &Vec<char>) -> (r: Option<WordEntry>)
        ensures
            match r {
                Some(e) => word_map_of(*self).contains_key(k@) && word_map_of(*self)[k@] == (
                    e.canonical@,
                    e.frequency,
                ),
                None => !word_map_of(*self).contains_key(k@),
            },
    {
        self.m.get(k).map(|e| e.clone())
    }

    /// Relies on hashbrown's `HashMap::contains_key`.
    #[verifier::external_body]
    pub fn contains_key(&self, k: &Vec<char>) -> (r: bool)
        ensures
            r == word_map_of(*self).contains_key(k@),
    {
        self.m.contains_key(k)
    }
}

/// Delete-variant store: delete variant to the set of normalized keys that
/// produce it.
#[verifier::external_body]
pub struct DeleteMap {
    m: hashbrown::HashMap<Vec<char>, hashbrown::HashSet<Vec<char>>>,
}

/// The contents of a `DeleteMap`.
pub uninterp spec fn delete_map_of(m: DeleteMap) -> Map<Seq<char>, Set<Seq<char>>>;

/// The contents of a `DeleteMap` with nothing stored.
pub open spec fn empty_delete_map() -> Map<Seq<char>, Set<Seq<char>>> {
    Map::empty()
}

impl DeleteMap {
    /// Relies on hashbrown's `HashMap::new`: a new map is empty.
    #[verifier::external_body]
    pub fn new() -> (r: DeleteMap)
        ensures
            delete_map_of(r) == empty_delete_map(),
    {
        DeleteMap { m: hashbrown::HashMap::new() }
    }

    /// Relies on hashbrown's entry API (`HashMap::entry`,
    /// `Entry::or_insert_with`) and `HashSet::insert`: adds `v` to the set
    /// stored under `k`, creating the set if absent.
    #[verifier::external_body]
    pub fn add(&mut self, k: &Vec<char>, v: &Vec<char>)
        ensures
            delete_map_of(*final(self)) == delete_map_of(*old(self)).insert(
                k@,
                (if delete_map_of(*old(self)).contains_key(k@) {
                    delete_map_of(*old(self))[k@]
                } else {
                    Set::empty()
                }).insert(v@),
            ),
    {
        self.m.entry(k.clone()).or_insert_with(hashbrown::HashSet::new).insert(v.clone());
    }

    /// Relies on hashbrown's `HashMap::get` and `HashSet` iteration: the
    /// members stored under `k`, in unspecified order, without duplicates.
    #[verifier::external_body]
    pub fn get_members(&self, k: &Vec<char>) -> (r: Option<Vec<Vec<char>>>)
        ensures
            match r {
                Some(ms) => delete_map_of(*self).contains_key(k@) && (forall|i: int|
                    0 <= i < ms@.len() ==> delete_map_of(*self)[k@].contains(#[trigger] ms@[i]@))
                    && (forall|x: Seq<char>|
                    delete_map_of(*self)[k@].contains(x) ==> exists|i: int|
                        0 <= i < ms@.len() && #[trigger] ms@[i]@ == x) && (forall|i: int, j: int|
                    0 <= i < j < ms@.len() ==> ms@[i]@ != ms@[j]@),
                None => !delete_map_of(*self).contains_key(k@),
            },
    {
        self.m.get(k).map(|s| s.iter().cloned().collect())
    }
}

/// A set of character sequences.
#[verifier::external_body]
pub struct CharsSet {
    s: hashbrown::HashSet<Vec<char>>,
}

/// The contents of a `CharsSet`.
pub uninterp spec fn chars_set_of(s: CharsSet) -> Set<Seq<char>>;

/// The contents of a `CharsSet` with nothing stored.
pub open spec fn empty_chars_set() -> Set<Seq<char>> {
    Set::empty()
}

impl CharsSet {
    /// Relies on hashbrown's `HashSet::new`: a new set is empty.
    #[verifier::external_body]
    pub fn new() -> (r: CharsSet)
        ensures
            chars_set_of(r) == empty_chars_set(),
    {
        CharsSet { s: hashbrown::HashSet::new() }
    }

    /// Relies on hashbrown's `HashSet::insert`.
    #[verifier::external_body]
    pub fn insert(&mut self, v: &Vec<char>)
        ensures
            chars_set_of(*final(self)) == chars_set_of(*old(self)).insert(v@),
    {
        self.s.insert(v.clone());
    }

    /// Relies on hashbrown's `HashSet::contains`.
    #[verifier::external_body]
    pub fn contains(&self, v: &Vec<char>) -> (r: bool)
        ensures
            r == chars_set_of(*self).contains(v@),
    {
        self.s.contains(v)
    }
}

} // verus!
