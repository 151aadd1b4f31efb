//! The two hash tables of a chunk, keyed by the 64-bit key of a record. Both
//! are `fxhash::FxHashMap`s, which the verifier cannot look into: what they
//! hold is named here, and each operation on them is stated over that name.

use crate::stat::Stat;
use fxhash::FxHashMap;
use vstd::prelude::*;

verus! {

/// A table from keys to accumulators.
#[verifier::external_body]
pub struct StatTable {
    inner: FxHashMap<u64, Stat>,
}

/// A table from keys to names that are borrowed from the input.
#[verifier::external_body]
pub struct NameTable<'a> {
    inner: FxHashMap<u64, &'a [u8]>,
}

/// What a `StatTable` holds.
pub uninterp spec fn stat_table_contents(t: StatTable) -> Map<u64, Stat>;

/// What a `NameTable` holds, each name as its bytes.
pub uninterp spec fn name_table_contents(t: NameTable) -> Map<u64, Seq<u8>>;

impl View for StatTable {
    type V = Map<u64, Stat>;

    open spec fn view(&self) -> Map<u64, Stat> {
        stat_table_contents(*self)
    }
}

impl<'a> View for NameTable<'a> {
    type V = Map<u64, Seq<u8>>;

    open spec fn view(&self) -> Map<u64, Seq<u8>> {
        name_table_contents(*self)
    }
}

impl StatTable {
    /// `FxHashMap::default`: a table that holds nothing.
    #[verifier::external_body]
    pub(crate) fn new() -> (table: StatTable)
        ensures
            (stat_table_contents(table) == Map::<u64, Stat>::empty()),
    {
        StatTable { inner: FxHashMap::default() }
    }

    /// `HashMap::get`: a copy of the accumulator stored under `key`, or
    /// `None` where the table has none.
    #[verifier::external_body]
    pub(crate) fn get(&self, key: u64) -> (r: Option<Stat>)
        ensures
            r == if stat_table_contents(*self).contains_key(key) {
                Some(stat_table_contents(*self)[key])
            } else {
                None::<Stat>
            },
    {
        self.inner.get(&key).copied()
    }

    /// `HashMap::insert`: afterwards `key` maps to `stat`, and every other
    /// key to what it mapped to before.
    #[verifier::external_body]
    pub(crate) fn insert(&mut self, key: u64, stat: Stat)
        ensures
            stat_table_contents(*final(self)) == stat_table_contents(*old(self)).insert(key, stat),
    {
        self.inner.insert(key, stat);
    }

    /// `HashMap::iter`: every pair of the table, each key once, in the order
    /// in which the table is walked, of which nothing is said.
    #[verifier::external_body]
    pub(crate) fn entries(&self) -> (v: Vec<(u64, Stat)>)
        ensures
            forall|i: int|
                0 <= i < v@.len() ==> stat_table_contents(*self).contains_key((#[trigger] v@[i]).0)
                    && stat_table_contents(*self)[v@[i].0] == v@[i].1,
            forall|k: u64| #[trigger]
                stat_table_contents(*self).contains_key(k) ==> exists|i: int|
                    0 <= i < v@.len() && (#[trigger] v@[i]).0 == k,
            forall|i: int, j: int|
                0 <= i < j < v@.len() ==> (#[trigger] v@[i]).0 != (#[trigger] v@[j]).0,
    {
        self.inner.iter().map(|(k, s)| (*k, *s)).collect()
    }
}

impl<'a> NameTable<'a> {
    /// `FxHashMap::default`: a table that holds nothing.
    #[verifier::external_body]
    pub(crate) fn new() -> (table: NameTable<'a>)
        ensures
            (name_table_contents(table) == Map::<u64, Seq<u8>>::empty()),
    {
        NameTable { inner: FxHashMap::default() }
    }

    /// `HashMap::get`: the name stored under `key`, or `None` where the table
    /// has none.
    #[verifier::external_body]
    pub(crate) fn get(&self, key: u64) -> (r: Option<&'a [u8]>)
        ensures
            match r {
                Some(name) => name_table_contents(*self).contains_key(key) && name_table_contents(
                    *self,
                )[key] == name@,
                None => !name_table_contents(*self).contains_key(key),
            },
    {
        self.inner.get(&key).copied()
    }

    /// `HashMap::entry` and `Entry::or_insert`: where `key` has no name yet
    /// it gets `name`; where it has one, nothing changes.
    #[verifier::external_body]
    pub(crate) fn insert_if_absent(&mut self, key: u64, name: &'a [u8])
        ensures
            name_table_contents(*final(self)) == if name_table_contents(*old(self)).contains_key(
                key,
            ) {
                name_table_contents(*old(self))
            } else {
                name_table_contents(*old(self)).insert(key, name@)
            },
    {
        self.inner.entry(key).or_insert(name);
    }
}

} // verus!
