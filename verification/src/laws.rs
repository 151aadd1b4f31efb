//! What holds of a run whatever the buffer: the chunks lose and add no line,
//! and where no two names share a key, the result is that of one pass that
//! tells records apart by name, however the buffer is cut.

use crate::aggregate::{filed_in, lines_in};
use crate::lines::{ends_lines, lemma_line_count, lemma_lines_cut, lines, newline_count};
use crate::chunk::{is_first_flaw, FormatError};
use crate::record::{
    collision_free, has_name, lemma_file_by_key_exact, lemma_tally_is_exact, lemma_tally_present,
    record_of, records, tally, well_formed, with_name,
};
use crate::split::{cuts, is_partition, lemma_cuts_partition};
use crate::stat::lemma_mean_within_bounds;
use crate::totals::by_name;
use vstd::prelude::*;

verus! {

/// Where the first `k` spans of a partition end.
pub open spec fn end_of(spans: Seq<(int, int)>, k: int) -> int {
    if k == 0 {
        0
    } else {
        spans[k - 1].1
    }
}

/// The line counts of the first `k` chunks of a partition add up to the
/// number of lines of the buffer up to the end of these chunks.
proof fn lemma_lines_prefix(buf: Seq<u8>, spans: Seq<(int, int)>, k: int)
    requires
        is_partition(buf, spans),
        0 <= k <= spans.len(),
    ensures
        lines_in(buf, spans.take(k)) == lines(buf.take(end_of(spans, k))).len(),
    decreases k,
{
    if k == 0 {
        assert(buf.take(0) =~= Seq::<u8>::empty());
    } else {
        lemma_lines_prefix(buf, spans, k - 1);
        let s = spans[k - 1].0;
        let e = spans[k - 1].1;
        if k > 1 {
            assert(spans[k - 2].1 == spans[k - 1].0);
        }
        lemma_lines_cut(buf, s, e);
        assert(spans.take(k).drop_last() =~= spans.take(k - 1));
        assert(spans.take(k).last() == spans[k - 1]);
    }
}

/// The line counts of the chunks of a partition add up to the number of
/// lines of the buffer: one for each line feed, and one more where bytes
/// follow the last line feed.
pub proof fn lemma_line_counts_add_up(buf: Seq<u8>, spans: Seq<(int, int)>)
    requires
        is_partition(buf, spans),
    ensures
        lines_in(buf, spans) == lines(buf).len(),
        lines_in(buf, spans) == newline_count(buf) + if ends_lines(buf) { 0nat } else { 1nat },
{
    lemma_lines_prefix(buf, spans, spans.len() as int);
    assert(spans.take(spans.len() as int) =~= spans);
    assert(buf.take(buf.len() as int) =~= buf);
    lemma_line_count(buf);
}

/// A buffer has at most one first flaw: two runs that fail on one buffer fail
/// with the same error, however the buffer is cut, and a buffer with a flaw
/// is not well formed.
pub proof fn lemma_first_flaw_is_unique(buf: Seq<u8>, a: FormatError, b: FormatError)
    requires
        is_first_flaw(lines(buf), a),
        is_first_flaw(lines(buf), b),
    ensures
        a == b,
        !well_formed(buf),
{
    let ls = lines(buf);
    if a.line < b.line {
        assert(record_of(ls[a.line as int]) is Some);
    } else if b.line < a.line {
        assert(record_of(ls[b.line as int]) is Some);
    }
    assert(record_of(ls[a.line as int]) is None);
}

/// Where no two names share a key, the first `k` chunks of a partition file
/// the records of the buffer up to their end, each under its own name.
proof fn lemma_filed_prefix(buf: Seq<u8>, spans: Seq<(int, int)>, k: int)
    requires
        is_partition(buf, spans),
        well_formed(buf),
        collision_free(records(buf)),
        0 <= k <= spans.len(),
    ensures
        filed_in(buf, spans.take(k)) == records(buf.take(end_of(spans, k))),
        lines(buf) == lines(buf.take(end_of(spans, k))) + lines(buf.skip(end_of(spans, k))),
    decreases k,
{
    if k == 0 {
        assert(buf.take(0) =~= Seq::<u8>::empty());
        assert(buf.skip(0) =~= buf);
        assert(filed_in(buf, spans.take(0)) =~= records(buf.take(0)));
        assert(lines(buf.take(0)) + lines(buf.skip(0)) =~= lines(buf));
    } else {
        lemma_filed_prefix(buf, spans, k - 1);
        let s = spans[k - 1].0;
        let e = spans[k - 1].1;
        if k > 1 {
            assert(spans[k - 2].1 == spans[k - 1].0);
        }
        lemma_lines_cut(buf, s, e);
        let chunk = buf.subrange(s, e);
        let head = lines(buf.take(s));
        let body = lines(chunk);
        let tail = lines(buf.skip(e));
        let all = lines(buf);
        assert(all =~= (head + body) + tail);
        let recs = records(chunk);
        assert forall|i: int| 0 <= i < body.len() implies #[trigger] recs[i] == records(buf)[head.len()
            + i] by {
            assert(all[head.len() + i] == body[i]);
        }
        assert forall|i: int, j: int|
            0 <= i < recs.len() && 0 <= j < recs.len() && (#[trigger] recs[i]).key == (
            #[trigger] recs[j]).key implies recs[i].name == recs[j].name by {
            assert(recs[i] == records(buf)[head.len() + i]);
            assert(recs[j] == records(buf)[head.len() + j]);
        }
        lemma_file_by_key_exact(recs);
        assert(spans.take(k).drop_last() =~= spans.take(k - 1));
        assert(spans.take(k).last() == spans[k - 1]);
        assert(records(buf.take(e)) =~= records(buf.take(s)) + recs);
    }
}

/// Where no two names share a key, the chunks of a partition file every
/// record of the buffer under its own name, in the order of the lines.
pub proof fn lemma_filed_by_name(buf: Seq<u8>, spans: Seq<(int, int)>)
    requires
        is_partition(buf, spans),
        well_formed(buf),
        collision_free(records(buf)),
    ensures
        filed_in(buf, spans) == records(buf),
{
    lemma_filed_prefix(buf, spans, spans.len() as int);
    assert(spans.take(spans.len() as int) =~= spans);
    assert(buf.take(buf.len() as int) =~= buf);
}

/// Where no two names share a key, two partitions of one buffer give the
/// same summary for every name and the same number of lines.
pub proof fn lemma_partition_invariant(buf: Seq<u8>, a: Seq<(int, int)>, b: Seq<(int, int)>)
    requires
        is_partition(buf, a),
        is_partition(buf, b),
        well_formed(buf),
        collision_free(records(buf)),
    ensures
        filed_in(buf, a) == filed_in(buf, b),
        by_name(filed_in(buf, a)) == by_name(filed_in(buf, b)),
        lines_in(buf, a) == lines_in(buf, b),
{
    lemma_filed_by_name(buf, a);
    lemma_filed_by_name(buf, b);
    lemma_line_counts_add_up(buf, a);
    lemma_line_counts_add_up(buf, b);
}

/// Where no two names share a key, a run with one worker and a run with any
/// number of workers give the same summary for every name and the same
/// number of lines.
pub proof fn lemma_workers_invariant(buf: Seq<u8>, workers: nat)
    requires
        workers > 0,
        well_formed(buf),
        collision_free(records(buf)),
    ensures
        filed_in(buf, cuts(buf, workers)) == filed_in(buf, cuts(buf, 1)),
        by_name(filed_in(buf, cuts(buf, workers))) == by_name(filed_in(buf, cuts(buf, 1))),
        lines_in(buf, cuts(buf, workers)) == lines_in(buf, cuts(buf, 1)),
{
    lemma_cuts_partition(buf, workers);
    lemma_cuts_partition(buf, 1);
    lemma_partition_invariant(buf, cuts(buf, workers), cuts(buf, 1));
}

/// Where no two names share a key, a run gives each name of the buffer the
/// summary of the records with that name: as many as there are, no value of
/// theirs outside its bounds, both bounds values of theirs, and a mean
/// between the bounds. A name that no record has gets no summary.
pub proof fn lemma_category_is_exact(buf: Seq<u8>, workers: nat, n: Seq<u8>)
    requires
        workers > 0,
        well_formed(buf),
        collision_free(records(buf)),
    ensures
        by_name(filed_in(buf, cuts(buf, workers))).contains_key(n) <==> has_name(records(buf), n),
        has_name(records(buf), n) ==> ({
            let s = by_name(filed_in(buf, cuts(buf, workers)))[n];
            &&& s == tally(records(buf), with_name(n))
            &&& s.count > 0
            &&& s.min <= s.mean() <= s.max
            &&& forall|i: int|
                0 <= i < records(buf).len() && (#[trigger] records(buf)[i]).name == n ==> s.min
                    <= records(buf)[i].value <= s.max
            &&& exists|i: int|
                0 <= i < records(buf).len() && (#[trigger] records(buf)[i]).name == n
                    && records(buf)[i].value == s.min
            &&& exists|i: int|
                0 <= i < records(buf).len() && (#[trigger] records(buf)[i]).name == n
                    && records(buf)[i].value == s.max
        }),
{
    lemma_cuts_partition(buf, workers);
    lemma_filed_by_name(buf, cuts(buf, workers));
    let recs = records(buf);
    if has_name(recs, n) {
        let s = tally(recs, with_name(n));
        lemma_tally_present(recs, n, 0);
        lemma_tally_is_exact(recs, with_name(n));
        lemma_mean_within_bounds(s);
        let lo = choose|i: int|
            0 <= i < recs.len() && with_name(n)(#[trigger] recs[i]) && recs[i].value == s.min;
        let hi = choose|i: int|
            0 <= i < recs.len() && with_name(n)(#[trigger] recs[i]) && recs[i].value == s.max;
        assert(recs[lo].name == n && recs[hi].name == n);
        assert forall|i: int| 0 <= i < recs.len() && (#[trigger] recs[i]).name == n implies s.min
            <= recs[i].value <= s.max by {
            assert(with_name(n)(recs[i]));
        }
    }
}

} // verus!
