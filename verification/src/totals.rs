//! The result of a run: for each name, in the order of the names, the
//! accumulator of the records filed under it, and the number of lines read.

use crate::chunk::ChunkStats;
use crate::order::{
    ascending, lemma_lex_asymmetric, lemma_lex_irreflexive, lemma_lex_transitive, lex_lt, rank,
    Rank,
};
use crate::record::{
    file_by_key, first_name, has_key, has_name, lemma_tally_alike, lemma_tally_concat,
    lemma_tally_is_exact, lemma_tally_none, lemma_tally_present, lemma_tally_same,
    lemma_tally_split, tally, with_key, with_name, Record,
};
use crate::stat::{lemma_merge_associative, Stat, Summary, MAX_ROWS};
use vstd::prelude::*;
use vstd::slice::slice_to_vec;

verus! {

/// The summary of each name that some record has.
pub open spec fn by_name(recs: Seq<Record>) -> Map<Seq<u8>, Summary> {
    Map::new(|n: Seq<u8>| has_name(recs, n), |n: Seq<u8>| tally(recs, with_name(n)))
}

/// The names of a vector of names, each as its bytes.
pub open spec fn spelled(names: Seq<Vec<u8>>) -> Seq<Seq<u8>> {
    Seq::new(names.len(), |i: int| names[i]@)
}

/// Whether `n` is one of `names`.
pub open spec fn listed(names: Seq<Seq<u8>>, n: Seq<u8>) -> bool {
    exists|i: int| 0 <= i < names.len() && #[trigger] names[i] == n
}

/// The place of `name` among ascending names: where it stands, or where it
/// would have to stand.
fn place(names: &Vec<Vec<u8>>, name: &[u8]) -> (r: (usize, bool))
    requires
        ascending(spelled(names@)),
    ensures
        r.0 <= names@.len(),
        r.1 ==> r.0 < names@.len() && names@[r.0 as int]@ == name@,
        r.1 <==> listed(spelled(names@), name@),
        forall|j: int| 0 <= j < r.0 ==> lex_lt(#[trigger] spelled(names@)[j], name@),
        forall|j: int|
            r.0 + (if r.1 { 1int } else { 0int }) <= j < names@.len() ==> lex_lt(
                name@,
                #[trigger] spelled(names@)[j],
            ),
{
    let ghost all = spelled(names@);
    let mut lo: usize = 0;
    let mut hi: usize = names.len();
    while lo < hi
        invariant
            lo <= hi <= names@.len(),
            all == spelled(names@),
            ascending(all),
            forall|j: int| 0 <= j < lo ==> lex_lt(#[trigger] all[j], name@),
            forall|j: int| hi <= j < names@.len() ==> lex_lt(name@, #[trigger] all[j]),
        decreases hi - lo,
    {
        let mid: usize = lo + (hi - lo) / 2;
        assert(all[mid as int] == names@[mid as int]@);
        match rank(names[mid].as_slice(), name) {
            Rank::Same => {
                proof {
                    assert forall|j: int| 0 <= j < mid implies lex_lt(#[trigger] all[j], name@) by {}
                    assert forall|j: int| mid < j < names@.len() implies lex_lt(
                        name@,
                        #[trigger] all[j],
                    ) by {}
                }
                return (mid, true);
            },
            Rank::Before => {
                proof {
                    assert forall|j: int| 0 <= j < mid + 1 implies lex_lt(
                        #[trigger] all[j],
                        name@,
                    ) by {
                        if j < mid {
                            lemma_lex_transitive(all[j], all[mid as int], name@);
                        }
                    }
                }
                lo = mid + 1;
            },
            Rank::After => {
                proof {
                    assert forall|j: int| mid <= j < names@.len() implies lex_lt(
                        name@,
                        #[trigger] all[j],
                    ) by {
                        if j > mid {
                            lemma_lex_transitive(name@, all[mid as int], all[j]);
                        }
                    }
                }
                hi = mid;
            },
        }
    }
    proof {
        if listed(all, name@) {
            let i = choose|i: int| 0 <= i < all.len() && #[trigger] all[i] == name@;
            lemma_lex_irreflexive(name@);
        }
    }
    (lo, false)
}

/// Holds of the records with name `n` whose key is one of `keys`.
pub open spec fn named_among(n: Seq<u8>, keys: Seq<u64>) -> spec_fn(Record) -> bool {
    |r: Record| r.name == n && keys.contains(r.key)
}

/// What the accumulator of `n` holds while a chunk is taken in key by key:
/// what was filed under `n` before, and of the chunk what is filed under `n`
/// with one of the keys taken in so far.
pub open spec fn standing(
    before: Seq<Record>,
    chunk: Seq<Record>,
    keys: Seq<u64>,
    n: Seq<u8>,
) -> Summary {
    tally(before, with_name(n)).merge(tally(chunk, named_among(n, keys)))
}

/// One more key is among the keys exactly where it was before or is the new
/// one.
proof fn lemma_contains_push(keys: Seq<u64>, key: u64, x: u64)
    ensures
        keys.push(key).contains(x) <==> keys.contains(x) || x == key,
{
    let more = keys.push(key);
    if keys.contains(x) {
        let i = choose|i: int| 0 <= i < keys.len() && keys[i] == x;
        assert(more[i] == x);
    }
    if x == key {
        assert(more[keys.len() as int] == x);
    }
    if more.contains(x) {
        let i = choose|i: int| 0 <= i < more.len() && more[i] == x;
        if i < keys.len() {
            assert(keys[i] == x);
        }
    }
}

/// Taking in one more key of a chunk adds the tally of that key to what
/// stands under the first name of the key, and changes nothing under any
/// other name.
proof fn lemma_absorb_key(
    before: Seq<Record>,
    recs: Seq<Record>,
    keys: Seq<u64>,
    key: u64,
    n: Seq<u8>,
)
    requires
        !keys.contains(key),
    ensures
        standing(before, file_by_key(recs), keys.push(key), n) == if n == first_name(recs, key) {
            standing(before, file_by_key(recs), keys, n).merge(tally(recs, with_key(key)))
        } else {
            standing(before, file_by_key(recs), keys, n)
        },
{
    let cf = file_by_key(recs);
    let more = keys.push(key);
    let p = named_among(n, keys);
    let pq = named_among(n, more);
    assert forall|j: int| 0 <= j < cf.len() implies pq(#[trigger] cf[j]) == (p(cf[j]) || (n
        == first_name(recs, key) && with_key(key)(cf[j]))) by {
        lemma_contains_push(keys, key, cf[j].key);
    }
    if n == first_name(recs, key) {
        let q = with_key(key);
        assert forall|j: int| 0 <= j < cf.len() implies !(p(#[trigger] cf[j]) && q(cf[j])) by {}
        lemma_tally_split(cf, p, q, pq);
        lemma_tally_alike(cf, recs, q, q);
        let a = tally(before, with_name(n));
        lemma_merge_associative(a, tally(cf, p), tally(recs, q));
    } else {
        lemma_tally_same(cf, pq, p);
    }
}

/// The place of `name` among the names, after it has been given an empty
/// accumulator where it had none.
fn slot(names: &mut Vec<Vec<u8>>, stats: &mut Vec<Stat>, name: &[u8]) -> (idx: usize)
    requires
        old(names)@.len() == old(stats)@.len(),
        ascending(spelled(old(names)@)),
    ensures
        final(names)@.len() == final(stats)@.len(),
        ascending(spelled(final(names)@)),
        idx < final(names)@.len(),
        idx <= old(names)@.len(),
        final(names)@[idx as int]@ == name@,
        forall|n: Seq<u8>|
            listed(spelled(final(names)@), n) <==> listed(spelled(old(names)@), n) || n == name@,
        listed(spelled(old(names)@), name@) ==> final(names)@ == old(names)@ && final(stats)@
            == old(stats)@,
        !listed(spelled(old(names)@), name@) ==> {
            &&& final(names)@ == old(names)@.insert(idx as int, final(names)@[idx as int])
            &&& final(stats)@ == old(stats)@.insert(idx as int, final(stats)@[idx as int])
            &&& final(stats)@[idx as int]@ == Summary::empty()
        },
{
    let (idx, found) = place(names, name);
    let ghost names0 = names@;
    let ghost stats0 = stats@;
    if !found {
        let owned = slice_to_vec(name);
        let fresh = Stat::default();
        names.insert(idx, owned);
        stats.insert(idx, fresh);
        proof {
            names0.insert_ensures(idx as int, owned);
            stats0.insert_ensures(idx as int, fresh);
            let now = spelled(names@);
            let was = spelled(names0);
            assert forall|a: int, b: int| 0 <= a < b < now.len() implies lex_lt(
                #[trigger] now[a],
                #[trigger] now[b],
            ) by {
                let wa = if a < idx { a } else { a - 1 };
                let wb = if b < idx { b } else { b - 1 };
                if a != idx {
                    assert(now[a] == was[wa]);
                }
                if b != idx {
                    assert(now[b] == was[wb]);
                }
            }
            assert forall|n: Seq<u8>| listed(now, n) <==> listed(was, n) || n == name@ by {
                if listed(was, n) {
                    let w = choose|w: int| 0 <= w < was.len() && #[trigger] was[w] == n;
                    let a = if w < idx { w } else { w + 1 };
                    assert(now[a] == n);
                }
                if n == name@ {
                    assert(now[idx as int] == n);
                }
                if listed(now, n) {
                    let a = choose|a: int| 0 <= a < now.len() && #[trigger] now[a] == n;
                    if a != idx {
                        let w = if a < idx { a } else { a - 1 };
                        assert(was[w] == n);
                    }
                }
            }
        }
    } else {
        proof {
            assert(spelled(names@)[idx as int] == name@);
        }
    }
    idx
}

/// The per-name result of a run.
pub struct Totals {
    names: Vec<Vec<u8>>,
    stats: Vec<Stat>,
    lines: u64,
    filed: Ghost<Seq<Record>>,
}

impl View for Totals {
    type V = Map<Seq<u8>, Summary>;

    /// The summary of each name under which a record is filed.
    open spec fn view(&self) -> Map<Seq<u8>, Summary> {
        by_name(self.filed())
    }
}

impl Totals {
    #[verifier::type_invariant]
    spec fn inv(self) -> bool {
        &&& self.names@.len() == self.stats@.len()
        &&& ascending(spelled(self.names@))
        &&& forall|i: int|
            0 <= i < self.stats@.len() ==> (#[trigger] self.stats@[i])@ == tally(
                self.filed@,
                with_name(self.names@[i]@),
            ) && self.stats@[i]@.count > 0
        &&& forall|j: int|
            0 <= j < self.filed@.len() ==> listed(
                spelled(self.names@),
                (#[trigger] self.filed@[j]).name,
            )
        &&& self.lines == self.filed@.len()
        &&& self.lines <= MAX_ROWS
    }

    /// Every record taken in so far, under the name it is filed under.
    pub closed spec fn filed(&self) -> Seq<Record> {
        self.filed@
    }

    /// The names that have an accumulator, in ascending order.
    pub closed spec fn names(&self) -> Seq<Seq<u8>> {
        spelled(self.names@)
    }

    /// A result that has taken nothing in.
    pub fn new() -> (t: Totals)
        ensures
            t.filed() == Seq::<Record>::empty(),
    {
        Totals { names: Vec::new(), stats: Vec::new(), lines: 0, filed: Ghost(Seq::empty()) }
    }

    /// How many lines were taken in.
    pub fn lines(&self) -> (n: u64)
        ensures
            n == self.filed().len(),
    {
        proof {
            use_type_invariant(self);
        }
        self.lines
    }

    /// How many names have an accumulator. The names are in ascending order,
    /// so none stands twice, and they are the names under which a record is
    /// filed.
    pub fn len(&self) -> (n: usize)
        ensures
            n == self.names().len(),
            ascending(self.names()),
            forall|n: Seq<u8>| #[trigger] self@.contains_key(n) <==> listed(self.names(), n),
    {
        proof {
            use_type_invariant(self);
            assert forall|n: Seq<u8>| #[trigger] self@.contains_key(n) <==> listed(
                self.names(),
                n,
            ) by {
                if has_name(self.filed@, n) {
                    let j = choose|j: int|
                        0 <= j < self.filed@.len() && (#[trigger] self.filed@[j]).name == n;
                    assert(listed(spelled(self.names@), self.filed@[j].name));
                }
                if listed(self.names(), n) {
                    let i = choose|i: int|
                        0 <= i < self.names().len() && #[trigger] self.names()[i] == n;
                    assert(self.stats@[i]@.count > 0);
                    lemma_tally_present(self.filed@, n, 0);
                }
            }
        }
        self.names.len()
    }

    /// The name at place `i` of the ascending order.
    pub fn name(&self, i: usize) -> (r: &[u8])
        requires
            i < self.names().len(),
        ensures
            r@ == self.names()[i as int],
    {
        self.names[i].as_slice()
    }

    /// The accumulator of the name at place `i`. It has seen at least one
    /// value.
    pub fn stat(&self, i: usize) -> (r: Stat)
        requires
            i < self.names().len(),
        ensures
            self@.contains_key(self.names()[i as int]),
            r@ == self@[self.names()[i as int]],
            r@.count > 0,
    {
        proof {
            use_type_invariant(self);
            assert(self.stats@[i as int]@.count > 0);
            lemma_tally_present(self.filed@, self.names@[i as int]@, 0);
        }
        self.stats[i]
    }

    /// The accumulator of `name`, where a record is filed under it.
    pub fn get(&self, name: &[u8]) -> (r: Option<Stat>)
        ensures
            r is Some <==> self@.contains_key(name@),
            r is Some ==> r->0@ == self@[name@],
    {
        proof {
            use_type_invariant(self);
        }
        let (i, found) = place(&self.names, name);
        if found {
            proof {
                assert(self.stats@[i as int]@.count > 0);
                lemma_tally_present(self.filed@, name@, 0);
            }
            Some(self.stats[i])
        } else {
            proof {
                if has_name(self.filed@, name@) {
                    let j = choose|j: int|
                        0 <= j < self.filed@.len() && (#[trigger] self.filed@[j]).name == name@;
                    assert(listed(spelled(self.names@), self.filed@[j].name));
                }
            }
            None
        }
    }


    /// Takes a chunk in: each of its accumulators is merged into the
    /// accumulator of the name that the chunk saw first with its key, which
    /// is made anew where the name has none yet.
    pub fn absorb(self, chunk: &ChunkStats) -> (r: Totals)
        requires
            self.filed().len() + chunk.records().len() <= MAX_ROWS,
        ensures
            r.filed() == self.filed() + file_by_key(chunk.records()),
    {
        proof {
            use_type_invariant(&self);
        }
        let ghost before = self.filed@;
        let ghost recs = chunk.records();
        let ghost cf = file_by_key(recs);
        let added: u64 = chunk.lines();
        let entries = chunk.entries();
        let lines: u64 = self.lines;
        let mut names = self.names;
        let mut stats = self.stats;
        let ghost mut keys: Seq<u64> = Seq::empty();
        let mut i: usize = 0;
        proof {
            assert forall|x: int| 0 <= x < stats@.len() implies (#[trigger] stats@[x])@
                == standing(before, cf, keys, names@[x]@) by {
                lemma_tally_none(cf, named_among(names@[x]@, keys));
            }
        }
        while i < entries.len()
            invariant
                i <= entries@.len(),
                keys.len() == i,
                forall|y: int| 0 <= y < i ==> #[trigger] keys[y] == entries@[y].0,
                forall|y: int|
                    0 <= y < entries@.len() ==> has_key(recs, (#[trigger] entries@[y]).0)
                        && entries@[y].1@ == tally(recs, with_key(entries@[y].0)),
                forall|y: int, z: int|
                    0 <= y < z < entries@.len() ==> (#[trigger] entries@[y]).0 != (
                    #[trigger] entries@[z]).0,
                recs == chunk.records(),
                cf == file_by_key(recs),
                before.len() + recs.len() <= MAX_ROWS,
                names@.len() == stats@.len(),
                ascending(spelled(names@)),
                forall|x: int|
                    0 <= x < stats@.len() ==> (#[trigger] stats@[x])@ == standing(
                        before,
                        cf,
                        keys,
                        names@[x]@,
                    ) && stats@[x]@.count > 0,
                forall|j: int|
                    0 <= j < before.len() ==> listed(spelled(names@), (#[trigger] before[j]).name),
                forall|j: int|
                    0 <= j < cf.len() && keys.contains((#[trigger] cf[j]).key) ==> listed(
                        spelled(names@),
                        cf[j].name,
                    ),
            decreases entries@.len() - i,
        {
            let key: u64 = entries[i].0;
            let stat: Stat = entries[i].1;
            match chunk.name(key) {
                None => {
                    assert(false);
                },
                Some(name) => {
                    let ghost names0 = names@;
                    let ghost stats0 = stats@;
                    let idx = slot(&mut names, &mut stats, name);
                    let ghost more = keys.push(key);
                    proof {
                        if keys.contains(key) {
                            let y = choose|y: int| 0 <= y < keys.len() && keys[y] == key;
                            assert(entries@[y].0 == keys[y]);
                        }
                        lemma_tally_present(recs, name@, key);
                        lemma_absorb_key(before, recs, keys, key, name@);
                        if !listed(spelled(names0), name@) {
                            assert forall|j: int| 0 <= j < before.len() implies !with_name(name@)(
                                #[trigger] before[j],
                            ) by {}
                            lemma_tally_none(before, with_name(name@));
                            assert forall|j: int| 0 <= j < cf.len() implies !named_among(
                                name@,
                                keys,
                            )(#[trigger] cf[j]) by {}
                            lemma_tally_none(cf, named_among(name@, keys));
                        } else {
                            assert(stats@[idx as int]@ == standing(before, cf, keys, name@));
                        }
                        lemma_tally_is_exact(before, with_name(name@));
                        lemma_tally_is_exact(cf, named_among(name@, more));
                    }
                    let mut merged: Stat = stats[idx];
                    merged.merge(&stat);
                    let ghost names1 = names@;
                    let ghost stats1 = stats@;
                    stats[idx] = merged;
                    proof {
                        assert forall|x: int| 0 <= x < stats@.len() implies (#[trigger] stats@[x])@
                            == standing(before, cf, more, names@[x]@) && stats@[x]@.count > 0 by {
                            if !listed(spelled(names0), name@) {
                                names0.insert_ensures(idx as int, names1[idx as int]);
                                stats0.insert_ensures(idx as int, stats1[idx as int]);
                            }
                            if x == idx {
                                assert(stats1[x]@ == standing(before, cf, keys, name@));
                                assert(stat@ == tally(recs, with_key(key)));
                                assert(stats@[x] == merged);
                                assert(names@[x]@ == name@);
                            } else {
                                let w = if listed(spelled(names0), name@) || x < idx {
                                    x
                                } else {
                                    x - 1
                                };
                                assert(stats1[x] == stats0[w] && names1[x] == names0[w]);
                                assert(spelled(names1)[x] == names1[x]@);
                                assert(spelled(names1)[idx as int] == names1[idx as int]@);
                                if x < idx {
                                    lemma_lex_asymmetric(names1[x]@, name@);
                                } else {
                                    lemma_lex_asymmetric(name@, names1[x]@);
                                }
                                lemma_absorb_key(before, recs, keys, key, names1[x]@);
                            }
                        }
                        assert forall|j: int|
                            0 <= j < cf.len() && more.contains((#[trigger] cf[j]).key) implies listed(
                            spelled(names@),
                            cf[j].name,
                        ) by {
                            lemma_contains_push(keys, key, cf[j].key);
                        }
                        keys = more;
                    }
                },
            }
            i += 1;
        }
        proof {
            let all = before + cf;
            assert forall|j: int| 0 <= j < cf.len() implies keys.contains((#[trigger] cf[j]).key) by {
                assert(has_key(recs, recs[j].key));
                let y = choose|y: int| 0 <= y < entries@.len() && (#[trigger] entries@[y]).0 == recs[j].key;
                assert(keys[y] == recs[j].key);
            }
            assert forall|x: int| 0 <= x < stats@.len() implies (#[trigger] stats@[x])@ == tally(
                all,
                with_name(names@[x]@),
            ) by {
                let n = names@[x]@;
                lemma_tally_same(cf, named_among(n, keys), with_name(n));
                lemma_tally_concat(before, cf, with_name(n));
            }
            assert forall|j: int| 0 <= j < all.len() implies listed(
                spelled(names@),
                (#[trigger] all[j]).name,
            ) by {
                if j < before.len() {
                    assert(all[j] == before[j]);
                } else {
                    assert(all[j] == cf[j - before.len()]);
                }
            }
        }
        Totals { names, stats, lines: lines + added, filed: Ghost(before + cf) }
    }
}

} // verus!
