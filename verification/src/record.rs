//! What a buffer means: its records, the summary of those that a predicate
//! picks, and the name under which each record is filed when records are
//! told apart by key alone.

use crate::decimal::{is_temperature, temperature_value};
use crate::hash::key_of;
use crate::lines::{first_index, lines, SEMICOLON};
use crate::stat::{lemma_add_merge, lemma_of_concat, lemma_of_is_exact, Summary};
use vstd::prelude::*;

verus! {

/// One line read: the name before the first semicolon, the key of the whole
/// line, and the tenths that the text behind the semicolon stands for.
pub struct Record {
    pub name: Seq<u8>,
    pub key: u64,
    pub value: i16,
}

/// The record that a line holds, if it has a semicolon and a temperature
/// behind the first one.
pub open spec fn record_of(line: Seq<u8>) -> Option<Record> {
    let d = first_index(line, SEMICOLON) as int;
    if d < line.len() && is_temperature(line.skip(d + 1)) {
        Some(
            Record {
                name: line.take(d),
                key: key_of(line),
                value: temperature_value(line.skip(d + 1)) as i16,
            },
        )
    } else {
        None
    }
}

/// The records of a sequence of lines, each of which holds one.
pub open spec fn records_of(ls: Seq<Seq<u8>>) -> Seq<Record> {
    Seq::new(ls.len(), |i: int| record_of(ls[i])->0)
}

/// Whether every line of `s` holds a record.
pub open spec fn well_formed(s: Seq<u8>) -> bool {
    forall|i: int| 0 <= i < lines(s).len() ==> record_of(#[trigger] lines(s)[i]) is Some
}

/// The records of a well-formed buffer, in the order of its lines.
pub open spec fn records(s: Seq<u8>) -> Seq<Record> {
    records_of(lines(s))
}

/// The values of the records that `pick` holds of, in their order.
pub open spec fn values_where(recs: Seq<Record>, pick: spec_fn(Record) -> bool) -> Seq<i16>
    decreases recs.len(),
{
    if recs.len() == 0 {
        Seq::empty()
    } else {
        let front = values_where(recs.drop_last(), pick);
        if pick(recs.last()) {
            front.push(recs.last().value)
        } else {
            front
        }
    }
}

/// The summary of the records that `pick` holds of.
pub open spec fn tally(recs: Seq<Record>, pick: spec_fn(Record) -> bool) -> Summary {
    Summary::of(values_where(recs, pick))
}

/// Holds of the records with key `k`.
pub open spec fn with_key(k: u64) -> spec_fn(Record) -> bool {
    |r: Record| r.key == k
}

/// Holds of the records with name `n`.
pub open spec fn with_name(n: Seq<u8>) -> spec_fn(Record) -> bool {
    |r: Record| r.name == n
}

/// Whether some record has key `k`.
pub open spec fn has_key(recs: Seq<Record>, k: u64) -> bool {
    exists|i: int| 0 <= i < recs.len() && (#[trigger] recs[i]).key == k
}

/// Whether some record has name `n`.
pub open spec fn has_name(recs: Seq<Record>, n: Seq<u8>) -> bool {
    exists|i: int| 0 <= i < recs.len() && (#[trigger] recs[i]).name == n
}

/// The name of the first record with key `k`.
pub open spec fn first_name(recs: Seq<Record>, k: u64) -> Seq<u8>
    decreases recs.len(),
{
    if recs.len() == 0 {
        Seq::empty()
    } else if has_key(recs.drop_last(), k) || recs.last().key != k {
        first_name(recs.drop_last(), k)
    } else {
        recs.last().name
    }
}

/// The records as they are filed when a key stands for the name that was
/// seen first with it: each keeps its key and its value, and gets the name of
/// the first record with its key.
pub open spec fn file_by_key(recs: Seq<Record>) -> Seq<Record> {
    Seq::new(
        recs.len(),
        |i: int| Record { name: first_name(recs, recs[i].key), key: recs[i].key, value: recs[i].value },
    )
}

/// Whether records with one key have one name.
pub open spec fn collision_free(recs: Seq<Record>) -> bool {
    forall|i: int, j: int|
        0 <= i < recs.len() && 0 <= j < recs.len() && (#[trigger] recs[i]).key == (
        #[trigger] recs[j]).key ==> recs[i].name == recs[j].name
}

/// One more record adds its value to the tallies that pick it, and leaves
/// the others as they were.
pub proof fn lemma_tally_push(recs: Seq<Record>, r: Record, pick: spec_fn(Record) -> bool)
    ensures
        values_where(recs.push(r), pick) == if pick(r) {
            values_where(recs, pick).push(r.value)
        } else {
            values_where(recs, pick)
        },
        tally(recs.push(r), pick) == if pick(r) {
            tally(recs, pick).add(r.value)
        } else {
            tally(recs, pick)
        },
{
    assert(recs.push(r).drop_last() =~= recs);
    let v = values_where(recs, pick);
    assert(v.push(r.value).drop_last() =~= v);
}

/// The picked values of two sequences joined are those of the first and then
/// those of the second, and the tally is the merge of the two tallies.
pub proof fn lemma_tally_concat(a: Seq<Record>, b: Seq<Record>, pick: spec_fn(Record) -> bool)
    ensures
        values_where(a + b, pick) == values_where(a, pick) + values_where(b, pick),
        tally(a + b, pick) == tally(a, pick).merge(tally(b, pick)),
    decreases b.len(),
{
    if b.len() == 0 {
        assert(a + b =~= a);
        assert(values_where(a, pick) + values_where(b, pick) =~= values_where(a, pick));
    } else {
        assert((a + b).drop_last() =~= a + b.drop_last());
        lemma_tally_concat(a, b.drop_last(), pick);
        assert(values_where(a + b, pick) =~= values_where(a, pick) + values_where(b, pick));
    }
    lemma_of_concat(values_where(a, pick), values_where(b, pick));
}

/// Two predicates that agree on every record of a sequence pick the same
/// values from it.
pub proof fn lemma_tally_same(
    recs: Seq<Record>,
    p: spec_fn(Record) -> bool,
    q: spec_fn(Record) -> bool,
)
    requires
        forall|i: int| 0 <= i < recs.len() ==> p(#[trigger] recs[i]) == q(recs[i]),
    ensures
        values_where(recs, p) == values_where(recs, q),
        tally(recs, p) == tally(recs, q),
    decreases recs.len(),
{
    if recs.len() > 0 {
        let front = recs.drop_last();
        assert forall|i: int| 0 <= i < front.len() implies p(#[trigger] front[i]) == q(
            front[i],
        ) by {
            assert(front[i] == recs[i]);
        }
        lemma_tally_same(front, p, q);
        assert(recs.last() == recs[recs.len() - 1]);
    }
}

/// Where `pq` picks what `p` or `q` picks, and these two pick no record in
/// common, the tally of `pq` is the merge of the tallies of `p` and `q`.
pub proof fn lemma_tally_split(
    recs: Seq<Record>,
    p: spec_fn(Record) -> bool,
    q: spec_fn(Record) -> bool,
    pq: spec_fn(Record) -> bool,
)
    requires
        forall|i: int|
            0 <= i < recs.len() ==> pq(#[trigger] recs[i]) == (p(recs[i]) || q(recs[i])),
        forall|i: int| 0 <= i < recs.len() ==> !(p(#[trigger] recs[i]) && q(recs[i])),
    ensures
        tally(recs, pq) == tally(recs, p).merge(tally(recs, q)),
    decreases recs.len(),
{
    if recs.len() > 0 {
        let front = recs.drop_last();
        let r = recs.last();
        assert forall|i: int| 0 <= i < front.len() implies pq(#[trigger] front[i]) == (p(
            front[i],
        ) || q(front[i])) && !(p(front[i]) && q(front[i])) by {
            assert(front[i] == recs[i]);
        }
        lemma_tally_split(front, p, q, pq);
        assert(r == recs[recs.len() - 1]);
        assert(recs =~= front.push(r));
        lemma_tally_push(front, r, p);
        lemma_tally_push(front, r, q);
        lemma_tally_push(front, r, pq);
        lemma_add_merge(tally(front, p), tally(front, q), r.value);
    }
}

/// Where no record is picked, no value is, and the tally is empty.
pub proof fn lemma_tally_none(recs: Seq<Record>, pick: spec_fn(Record) -> bool)
    requires
        forall|i: int| 0 <= i < recs.len() ==> !pick(#[trigger] recs[i]),
    ensures
        values_where(recs, pick) == Seq::<i16>::empty(),
        tally(recs, pick) == Summary::empty(),
    decreases recs.len(),
{
    if recs.len() > 0 {
        let front = recs.drop_last();
        assert forall|i: int| 0 <= i < front.len() implies !pick(#[trigger] front[i]) by {
            assert(front[i] == recs[i]);
        }
        lemma_tally_none(front, pick);
        assert(recs.last() == recs[recs.len() - 1]);
    }
}

/// One more record: a key is present afterwards where it was present before
/// or is the key of the new record, and it keeps its first name where it had
/// one.
pub proof fn lemma_push_record(recs: Seq<Record>, r: Record, k: u64)
    ensures
        has_key(recs.push(r), k) <==> has_key(recs, k) || r.key == k,
        first_name(recs.push(r), k) == if has_key(recs, k) || r.key != k {
            first_name(recs, k)
        } else {
            r.name
        },
{
    let more = recs.push(r);
    assert(more.drop_last() =~= recs);
    assert(more.last() == r);
    if has_key(recs, k) {
        let i = choose|i: int| 0 <= i < recs.len() && (#[trigger] recs[i]).key == k;
        assert(more[i] == recs[i]);
    }
    if r.key == k {
        assert(more[recs.len() as int] == r);
    }
    if has_key(more, k) {
        let i = choose|i: int| 0 <= i < more.len() && (#[trigger] more[i]).key == k;
        if i < recs.len() {
            assert(more[i] == recs[i]);
        }
    }
}

/// Two sequences of records that agree place by place on the value, and on
/// which `p` picks of the first what `q` picks of the second, give the same
/// picked values.
pub proof fn lemma_tally_alike(
    a: Seq<Record>,
    b: Seq<Record>,
    p: spec_fn(Record) -> bool,
    q: spec_fn(Record) -> bool,
)
    requires
        a.len() == b.len(),
        forall|i: int|
            0 <= i < a.len() ==> (#[trigger] a[i]).value == b[i].value && p(a[i]) == q(b[i]),
    ensures
        values_where(a, p) == values_where(b, q),
        tally(a, p) == tally(b, q),
    decreases a.len(),
{
    if a.len() > 0 {
        let fa = a.drop_last();
        let fb = b.drop_last();
        assert forall|i: int| 0 <= i < fa.len() implies (#[trigger] fa[i]).value == fb[i].value
            && p(fa[i]) == q(fb[i]) by {
            assert(fa[i] == a[i] && fb[i] == b[i]);
        }
        lemma_tally_alike(fa, fb, p, q);
        assert(a.last() == a[a.len() - 1] && b.last() == b[b.len() - 1]);
    }
}

/// The first name of a key that some record has is the name of a record with
/// that key: the result is the place of one.
pub proof fn lemma_first_name_found(recs: Seq<Record>, k: u64) -> (i: int)
    requires
        has_key(recs, k),
    ensures
        0 <= i < recs.len(),
        recs[i].key == k,
        recs[i].name == first_name(recs, k),
    decreases recs.len(),
{
    let front = recs.drop_last();
    if has_key(front, k) {
        let i = lemma_first_name_found(front, k);
        assert(front[i] == recs[i]);
        i
    } else {
        let j = choose|j: int| 0 <= j < recs.len() && (#[trigger] recs[j]).key == k;
        if j < front.len() {
            assert(front[j] == recs[j]);
        }
        recs.len() - 1
    }
}

/// Where records with one key have one name, every record is filed under
/// its own name.
pub proof fn lemma_file_by_key_exact(recs: Seq<Record>)
    requires
        collision_free(recs),
    ensures
        file_by_key(recs) == recs,
{
    assert forall|j: int| 0 <= j < recs.len() implies file_by_key(recs)[j] == recs[j] by {
        let k = recs[j].key;
        let i = lemma_first_name_found(recs, k);
        assert(recs[i].name == recs[j].name);
    }
    assert(file_by_key(recs) =~= recs);
}

/// What a tally is, said directly. Its count is the number of values picked,
/// which is positive exactly where some record is picked and never above the
/// number of records; no picked record has a value outside its bounds; and
/// where a record is picked, both bounds are values of picked records.
pub proof fn lemma_tally_is_exact(recs: Seq<Record>, pick: spec_fn(Record) -> bool)
    ensures
        tally(recs, pick).count == values_where(recs, pick).len(),
        tally(recs, pick).count <= recs.len(),
        tally(recs, pick).consistent(),
        tally(recs, pick).count > 0 <==> exists|i: int|
            0 <= i < recs.len() && pick(#[trigger] recs[i]),
        forall|i: int|
            0 <= i < recs.len() && pick(#[trigger] recs[i]) ==> tally(recs, pick).min
                <= recs[i].value <= tally(recs, pick).max,
        tally(recs, pick).count > 0 ==> exists|i: int|
            0 <= i < recs.len() && pick(#[trigger] recs[i]) && recs[i].value == tally(
                recs,
                pick,
            ).min,
        tally(recs, pick).count > 0 ==> exists|i: int|
            0 <= i < recs.len() && pick(#[trigger] recs[i]) && recs[i].value == tally(
                recs,
                pick,
            ).max,
{
    let vals = values_where(recs, pick);
    lemma_of_is_exact(vals);
    lemma_values_where_len(recs, pick);
    let t = tally(recs, pick);
    if t.count > 0 {
        let a = choose|a: int| 0 <= a < vals.len() && #[trigger] vals[a] == t.min;
        let b = choose|b: int| 0 <= b < vals.len() && #[trigger] vals[b] == t.max;
        let i = lemma_value_is_picked(recs, pick, a);
        let j = lemma_value_is_picked(recs, pick, b);
        assert(pick(recs[i]) && recs[i].value == t.min);
        assert(pick(recs[j]) && recs[j].value == t.max);
    }
    assert forall|i: int| 0 <= i < recs.len() && pick(#[trigger] recs[i]) implies t.min
        <= recs[i].value <= t.max by {
        let a = lemma_picked_is_value(recs, pick, i);
        assert(t.min <= vals[a] <= t.max);
    }
    if exists|i: int| 0 <= i < recs.len() && pick(#[trigger] recs[i]) {
        let i = choose|i: int| 0 <= i < recs.len() && pick(#[trigger] recs[i]);
        let a = lemma_picked_is_value(recs, pick, i);
    }
}

/// The tally of a name has a value exactly where some record has the name,
/// and the tally of a key exactly where some record has the key.
pub proof fn lemma_tally_present(recs: Seq<Record>, n: Seq<u8>, k: u64)
    ensures
        tally(recs, with_name(n)).count > 0 <==> has_name(recs, n),
        tally(recs, with_key(k)).count > 0 <==> has_key(recs, k),
{
    lemma_tally_is_exact(recs, with_name(n));
    lemma_tally_is_exact(recs, with_key(k));
    if tally(recs, with_name(n)).count > 0 {
        let i = choose|i: int| 0 <= i < recs.len() && with_name(n)(#[trigger] recs[i]);
        assert(recs[i].name == n);
    }
    if has_name(recs, n) {
        let i = choose|i: int| 0 <= i < recs.len() && (#[trigger] recs[i]).name == n;
        assert(with_name(n)(recs[i]));
    }
    if tally(recs, with_key(k)).count > 0 {
        let i = choose|i: int| 0 <= i < recs.len() && with_key(k)(#[trigger] recs[i]);
        assert(recs[i].key == k);
    }
    if has_key(recs, k) {
        let i = choose|i: int| 0 <= i < recs.len() && (#[trigger] recs[i]).key == k;
        assert(with_key(k)(recs[i]));
    }
}

/// No more values are picked than there are records.
pub proof fn lemma_values_where_len(recs: Seq<Record>, pick: spec_fn(Record) -> bool)
    ensures
        values_where(recs, pick).len() <= recs.len(),
    decreases recs.len(),
{
    if recs.len() > 0 {
        lemma_values_where_len(recs.drop_last(), pick);
    }
}

/// The value of a picked record is among the picked values: the result is a
/// place where it stands.
pub proof fn lemma_picked_is_value(recs: Seq<Record>, pick: spec_fn(Record) -> bool, i: int) -> (a:
    int)
    requires
        0 <= i < recs.len(),
        pick(recs[i]),
    ensures
        0 <= a < values_where(recs, pick).len(),
        values_where(recs, pick)[a] == recs[i].value,
    decreases recs.len(),
{
    let front = recs.drop_last();
    if i < front.len() {
        assert(front[i] == recs[i]);
        lemma_picked_is_value(front, pick, i)
    } else {
        values_where(recs, pick).len() - 1
    }
}

/// Each picked value is the value of a picked record: the result is the
/// place of one.
pub proof fn lemma_value_is_picked(recs: Seq<Record>, pick: spec_fn(Record) -> bool, a: int) -> (i:
    int)
    requires
        0 <= a < values_where(recs, pick).len(),
    ensures
        0 <= i < recs.len(),
        pick(recs[i]),
        recs[i].value == values_where(recs, pick)[a],
    decreases recs.len(),
{
    let front = recs.drop_last();
    let fv = values_where(front, pick);
    if a < fv.len() {
        let i = lemma_value_is_picked(front, pick, a);
        assert(front[i] == recs[i]);
        i
    } else {
        recs.len() - 1
    }
}

} // verus!
