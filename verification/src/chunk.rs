//! One pass over a run of whole lines: a table of accumulators and a table of
//! first-seen names, both by key, and the number of lines.

use crate::decimal::{is_temperature, parse_temperature};
use crate::hash::to_key;
use crate::lines::{find_byte, first_index, lemma_first_index_is, lines, NEWLINE, SEMICOLON};
use crate::record::{
    first_name, has_key, lemma_push_record, lemma_tally_is_exact, lemma_tally_none,
    lemma_tally_push, record_of, records, records_of, tally, well_formed, with_key, Record,
};
use crate::stat::{Stat, Summary, MAX_ROWS};
use crate::tables::{NameTable, StatTable};
use vstd::prelude::*;
use vstd::slice::slice_subrange;

verus! {

/// What is wrong with a line.
#[derive(Clone, Copy, Debug, PartialEq, Eq)]
pub enum Flaw {
    /// The line has no semicolon.
    MissingDelimiter,
    /// What follows the first semicolon is not a temperature.
    BadNumber,
}

/// The first line of a buffer that holds no record, counted from zero, and
/// what is wrong with it.
#[derive(Clone, Copy, Debug, PartialEq, Eq)]
pub struct FormatError {
    pub line: u64,
    pub flaw: Flaw,
}

/// What is wrong with a line, or `None` where it holds a record.
pub open spec fn flaw_of(line: Seq<u8>) -> Option<Flaw> {
    let d = first_index(line, SEMICOLON) as int;
    if d >= line.len() {
        Some(Flaw::MissingDelimiter)
    } else if !is_temperature(line.skip(d + 1)) {
        Some(Flaw::BadNumber)
    } else {
        None
    }
}

/// Whether `e` names the first of the lines that holds no record, and what is
/// wrong with it.
pub open spec fn is_first_flaw(ls: Seq<Seq<u8>>, e: FormatError) -> bool {
    &&& e.line < ls.len()
    &&& flaw_of(ls[e.line as int]) == Some(e.flaw)
    &&& forall|j: int| 0 <= j < e.line ==> record_of(#[trigger] ls[j]) is Some
}

/// Whether the two tables are what a pass over `recs` leaves: both have the
/// keys of `recs` and no others, each accumulator is the tally of the records
/// with its key, and each name is the name of the first record with its key.
pub open spec fn tables_match(
    stats: Map<u64, Stat>,
    names: Map<u64, Seq<u8>>,
    recs: Seq<Record>,
) -> bool {
    &&& forall|k: u64| #[trigger] stats.contains_key(k) <==> has_key(recs, k)
    &&& forall|k: u64| #[trigger] names.contains_key(k) <==> has_key(recs, k)
    &&& forall|k: u64| #[trigger]
        stats.contains_key(k) ==> stats[k]@ == tally(recs, with_key(k))
    &&& forall|k: u64| #[trigger] names.contains_key(k) ==> names[k] == first_name(recs, k)
}

/// The line that starts at `pos`, without its line feed, and the place where
/// the next line starts.
pub fn line_at<'a>(buf: &'a [u8], pos: usize) -> (r: (&'a [u8], usize))
    requires
        pos < buf@.len(),
    ensures
        lines(buf@.skip(pos as int)) == seq![r.0@] + lines(buf@.skip(r.1 as int)),
        r.0@ == buf@.subrange(pos as int, pos + r.0@.len()),
        pos + r.0@.len() <= buf@.len(),
        r.0@.len() == first_index(buf@.skip(pos as int), NEWLINE),
        r.1 == if pos + r.0@.len() + 1 > buf@.len() {
            buf@.len() as int
        } else {
            pos + r.0@.len() + 1
        },
        pos < r.1 <= buf@.len(),
        r.1 < buf@.len() ==> buf@[r.1 - 1] == NEWLINE,
        forall|j: int| 0 <= j < r.0@.len() ==> r.0@[j] != NEWLINE,
{
    let len = buf.len();
    let rest = slice_subrange(buf, pos, len);
    proof {
        assert(rest@ =~= buf@.skip(pos as int));
    }
    match find_byte(NEWLINE, rest) {
        Some(end) => {
            let line = slice_subrange(rest, 0, end);
            proof {
                lemma_first_index_is(rest@, NEWLINE, end as int);
                assert(rest@.take(end as int) =~= line@);
                assert(rest@.skip(end + 1) =~= buf@.skip(pos + end + 1));
                assert(line@ =~= buf@.subrange(pos as int, pos + end));
                assert(buf@[pos + end] == rest@[end as int]);
            }
            (line, pos + end + 1)
        },
        None => {
            proof {
                lemma_first_index_is(rest@, NEWLINE, rest@.len() as int);
                assert(buf@.skip(len as int) =~= Seq::<u8>::empty());
                assert(lines(buf@.skip(len as int)) =~= Seq::<Seq<u8>>::empty());
                assert(seq![rest@] + Seq::<Seq<u8>>::empty() =~= seq![rest@]);
                assert(rest@ =~= buf@.subrange(pos as int, pos + rest@.len()));
            }
            (rest, len)
        },
    }
}

/// Whether `t` has the shape of a temperature.
pub fn is_temperature_text(t: &[u8]) -> (b: bool)
    ensures
        b == is_temperature(t@),
{
    let n: usize = t.len();
    if n < 3 {
        return false;
    }
    let skip: usize = if t[0] == 45 { 1 } else { 0 };
    if n - skip < 3 || n - skip > 4 {
        return false;
    }
    let low: bool = 48 <= t[n - 1] && t[n - 1] <= 57 && t[n - 2] == 46;
    let mid: bool = 48 <= t[n - 3] && t[n - 3] <= 57;
    let high: bool = n - skip == 3 || (48 <= t[skip] && t[skip] <= 57);
    low && mid && high
}

/// Reads one line: the name before the first semicolon, the temperature
/// behind it, and the key of the line.
pub fn read_record<'a>(line: &'a [u8]) -> (r: Result<(&'a [u8], u64, i16), Flaw>)
    ensures
        match r {
            Ok((name, key, value)) => record_of(line@) == Some(
                Record { name: name@, key, value },
            ),
            Err(flaw) => flaw_of(line@) == Some(flaw),
        },
{
    match find_byte(SEMICOLON, line) {
        None => {
            proof {
                lemma_first_index_is(line@, SEMICOLON, line@.len() as int);
            }
            Err(Flaw::MissingDelimiter)
        },
        Some(sep) => {
            proof {
                lemma_first_index_is(line@, SEMICOLON, sep as int);
            }
            let n: usize = line.len();
            assert(sep < n);
            let text = slice_subrange(line, sep + 1, n);
            assert(text@ =~= line@.skip(sep + 1));
            if !is_temperature_text(text) {
                return Err(Flaw::BadNumber);
            }
            let name = slice_subrange(line, 0, sep);
            assert(name@ =~= line@.take(sep as int));
            let value = parse_temperature(text);
            let key = to_key(line);
            Ok((name, key, value))
        },
    }
}

/// What one pass over a chunk found.
pub struct ChunkStats<'a> {
    stats: StatTable,
    names: NameTable<'a>,
    lines: u64,
    recs: Ghost<Seq<Record>>,
}

impl<'a> ChunkStats<'a> {
    #[verifier::type_invariant]
    spec fn inv(self) -> bool {
        &&& tables_match(self.stats@, self.names@, self.recs@)
        &&& self.lines == self.recs@.len()
        &&& self.lines <= MAX_ROWS
    }

    /// The records that the pass read, in their order.
    pub closed spec fn records(&self) -> Seq<Record> {
        self.recs@
    }

    /// How many lines the pass read.
    pub fn lines(&self) -> (n: u64)
        ensures
            n == self.records().len(),
            n <= MAX_ROWS,
    {
        proof {
            use_type_invariant(self);
        }
        self.lines
    }

    /// The accumulator of the records with `key`, where there is one.
    pub fn stat(&self, key: u64) -> (r: Option<Stat>)
        ensures
            r is Some <==> has_key(self.records(), key),
            r is Some ==> r->0@ == tally(self.records(), with_key(key)),
    {
        proof {
            use_type_invariant(self);
        }
        self.stats.get(key)
    }

    /// The name that was seen first with `key`, where the key was seen.
    pub fn name(&self, key: u64) -> (r: Option<&'a [u8]>)
        ensures
            r is Some <==> has_key(self.records(), key),
            r is Some ==> r->0@ == first_name(self.records(), key),
    {
        proof {
            use_type_invariant(self);
        }
        self.names.get(key)
    }

    /// Every key that was seen, once, with its accumulator. The order is that
    /// of the table and may differ from one call to the next.
    pub fn entries(&self) -> (v: Vec<(u64, Stat)>)
        ensures
            forall|i: int|
                0 <= i < v@.len() ==> has_key(self.records(), (#[trigger] v@[i]).0) && v@[i].1@
                    == tally(self.records(), with_key(v@[i].0)),
            forall|k: u64| #[trigger]
                has_key(self.records(), k) ==> exists|i: int|
                    0 <= i < v@.len() && (#[trigger] v@[i]).0 == k,
            forall|i: int, j: int|
                0 <= i < j < v@.len() ==> (#[trigger] v@[i]).0 != (#[trigger] v@[j]).0,
    {
        proof {
            use_type_invariant(self);
        }
        let v = self.stats.entries();
        proof {
            assert forall|k: u64| #[trigger] has_key(self.records(), k) implies exists|i: int|
                0 <= i < v@.len() && (#[trigger] v@[i]).0 == k by {
                assert(self.stats@.contains_key(k));
            }
        }
        v
    }
}

/// One more record keeps the tables in step: its key gets the accumulator
/// with its value taken in, and its name where the key had none.
proof fn lemma_tables_step(
    stats: Map<u64, Stat>,
    names: Map<u64, Seq<u8>>,
    recs: Seq<Record>,
    r: Record,
    s: Stat,
)
    requires
        tables_match(stats, names, recs),
        s@ == (if stats.contains_key(r.key) { stats[r.key]@ } else { Summary::empty() }).add(
            r.value,
        ),
    ensures
        tables_match(
            stats.insert(r.key, s),
            if names.contains_key(r.key) { names } else { names.insert(r.key, r.name) },
            recs.push(r),
        ),
{
    let stats2 = stats.insert(r.key, s);
    let names2 = if names.contains_key(r.key) { names } else { names.insert(r.key, r.name) };
    let more = recs.push(r);
    assert forall|k: u64| #[trigger] stats2.contains_key(k) <==> has_key(more, k) by {
        lemma_push_record(recs, r, k);
    }
    assert forall|k: u64| #[trigger] names2.contains_key(k) <==> has_key(more, k) by {
        lemma_push_record(recs, r, k);
    }
    assert forall|k: u64| #[trigger] stats2.contains_key(k) implies stats2[k]@ == tally(
        more,
        with_key(k),
    ) by {
        lemma_push_record(recs, r, k);
        lemma_tally_push(recs, r, with_key(k));
        if k == r.key && !stats.contains_key(k) {
            assert forall|i: int| 0 <= i < recs.len() implies !with_key(k)(#[trigger] recs[i]) by {}
            lemma_tally_none(recs, with_key(k));
        }
    }
    assert forall|k: u64| #[trigger] names2.contains_key(k) implies names2[k] == first_name(
        more,
        k,
    ) by {
        lemma_push_record(recs, r, k);
    }
}

/// Reads a run of whole lines. Each line gives one record; a last line
/// without a line feed counts like the others. Stops at the first line that
/// holds no record.
pub fn chunk_stats<'a>(chunk: &'a [u8]) -> (r: Result<ChunkStats<'a>, FormatError>)
    requires
        chunk@.len() <= MAX_ROWS,
    ensures
        r is Ok <==> well_formed(chunk@),
        match r {
            Ok(found) => found.records() == records(chunk@),
            Err(e) => is_first_flaw(lines(chunk@), e),
        },
{
    let mut stats = StatTable::new();
    let mut names = NameTable::new();
    let mut line_count: u64 = 0;
    let mut pos: usize = 0;
    let len: usize = chunk.len();
    let ghost mut recs: Seq<Record> = Seq::empty();
    let ghost mut done: Seq<Seq<u8>> = Seq::empty();
    proof {
        assert(chunk@.skip(0) =~= chunk@);
        assert(done + lines(chunk@) =~= lines(chunk@));
    }
    while pos < len
        invariant
            pos <= len == chunk@.len() <= MAX_ROWS,
            lines(chunk@) == done + lines(chunk@.skip(pos as int)),
            forall|j: int| 0 <= j < done.len() ==> record_of(#[trigger] done[j]) is Some,
            recs == records_of(done),
            line_count == done.len() <= pos,
            tables_match(stats@, names@, recs),
        decreases len - pos,
    {
        let (line, next) = line_at(chunk, pos);
        let ghost tail = lines(chunk@.skip(next as int));
        proof {
            assert(lines(chunk@) =~= done.push(line@) + tail);
            assert(lines(chunk@)[done.len() as int] == line@);
            assert forall|j: int| 0 <= j < done.len() implies lines(chunk@)[j] == done[j] by {}
        }
        match read_record(line) {
            Err(flaw) => {
                return Err(FormatError { line: line_count, flaw });
            },
            Ok((name, key, value)) => {
                let ghost rec = Record { name: name@, key, value };
                let ghost stats0 = stats@;
                let ghost names0 = names@;
                names.insert_if_absent(key, name);
                let mut stat = match stats.get(key) {
                    Some(s) => s,
                    None => Stat::default(),
                };
                proof {
                    lemma_tally_is_exact(recs, with_key(key));
                }
                stat.add(value);
                proof {
                    lemma_tables_step(stats0, names0, recs, rec, stat);
                }
                stats.insert(key, stat);
                line_count += 1;
                pos = next;
                proof {
                    assert(records_of(done.push(line@)) =~= recs.push(rec));
                    recs = recs.push(rec);
                    done = done.push(line@);
                }
            },
        }
    }
    proof {
        assert(chunk@.skip(len as int) =~= Seq::<u8>::empty());
        assert(lines(chunk@) =~= done);
    }
    Ok(ChunkStats { stats, names, lines: line_count, recs: Ghost(recs) })
}

} // verus!
