//! A whole run on one buffer: cut it into chunks, read each chunk, and take
//! the chunks in one after the other.

use crate::chunk::{chunk_stats, is_first_flaw, FormatError};
use crate::lines::{lemma_lines_cut, lemma_lines_len, lines};
use crate::record::{file_by_key, record_of, records, well_formed, Record};
use crate::split::{cuts, is_partition, split, spans_of};
use crate::stat::MAX_ROWS;
use crate::totals::Totals;
use vstd::prelude::*;
use vstd::slice::slice_subrange;

verus! {

/// The records of the chunks that `spans` cut from the buffer, each under the
/// name it is filed under in its chunk, one chunk after the other.
pub open spec fn filed_in(buf: Seq<u8>, spans: Seq<(int, int)>) -> Seq<Record>
    decreases spans.len(),
{
    if spans.len() == 0 {
        Seq::empty()
    } else {
        filed_in(buf, spans.drop_last()) + file_by_key(
            records(buf.subrange(spans.last().0, spans.last().1)),
        )
    }
}

/// The line counts of the chunks that `spans` cut from the buffer, added up.
pub open spec fn lines_in(buf: Seq<u8>, spans: Seq<(int, int)>) -> nat
    decreases spans.len(),
{
    if spans.len() == 0 {
        0
    } else {
        lines_in(buf, spans.drop_last()) + lines(
            buf.subrange(spans.last().0, spans.last().1),
        ).len()
    }
}

/// Runs over the buffer as `workers` workers would, one chunk after the
/// other. Fails on the first line of the buffer that holds no record.
pub fn aggregate(buf: &[u8], workers: usize) -> (r: Result<Totals, FormatError>)
    requires
        workers > 0,
        buf@.len() <= MAX_ROWS,
    ensures
        r is Ok <==> well_formed(buf@),
        match r {
            Ok(totals) => {
                &&& totals.filed() == filed_in(buf@, cuts(buf@, workers as nat))
                &&& totals.filed().len() == lines(buf@).len()
            },
            Err(e) => is_first_flaw(lines(buf@), e),
        },
{
    let spans = split(buf, workers);
    let ghost all = spans_of(spans@);
    let mut totals = Totals::new();
    let mut k: usize = 0;
    proof {
        assert(buf@.take(0) =~= Seq::<u8>::empty());
        assert(all.take(0) =~= Seq::<(int, int)>::empty());
    }
    while k < spans.len()
        invariant
            k <= spans@.len(),
            all == spans_of(spans@),
            is_partition(buf@, all),
            buf@.len() <= MAX_ROWS,
            k < spans@.len() ==> totals.filed().len() == lines(buf@.take(all[k as int].0)).len(),
            k < spans@.len() ==> forall|j: int|
                0 <= j < lines(buf@.take(all[k as int].0)).len() ==> record_of(
                    #[trigger] lines(buf@.take(all[k as int].0))[j],
                ) is Some,
            k == spans@.len() ==> totals.filed().len() == lines(buf@).len() && well_formed(buf@),
            totals.filed() == filed_in(buf@, all.take(k as int)),
        decreases spans@.len() - k,
    {
        let start: usize = spans[k].0;
        let end: usize = spans[k].1;
        let ghost before = lines(buf@.take(start as int));
        proof {
            assert(all[k as int] == (start as int, end as int));
            if k > 0 {
                assert(all[k - 1].1 == all[k as int].0);
            }
            lemma_lines_cut(buf@, start as int, end as int);
            lemma_lines_len(buf@.take(end as int));
        }
        let chunk = slice_subrange(buf, start, end);
        match chunk_stats(chunk) {
            Err(e) => {
                proof {
                    let ls = lines(buf@);
                    assert(ls =~= (before + lines(chunk@)) + lines(buf@.skip(end as int)));
                    assert forall|j: int| 0 <= j < before.len() + e.line implies record_of(
                        #[trigger] ls[j],
                    ) is Some by {
                        if j < before.len() {
                            assert(ls[j] == before[j]);
                        } else {
                            assert(ls[j] == lines(chunk@)[j - before.len()]);
                        }
                    }
                    assert(ls[before.len() + e.line] == lines(chunk@)[e.line as int]);
                }
                return Err(FormatError { line: totals.lines() + e.line, flaw: e.flaw });
            },
            Ok(found) => {
                proof {
                    let upto = lines(buf@.take(end as int));
                    assert(upto =~= before + lines(chunk@));
                    assert forall|j: int| 0 <= j < upto.len() implies record_of(
                        #[trigger] upto[j],
                    ) is Some by {
                        if j < before.len() {
                            assert(upto[j] == before[j]);
                        } else {
                            assert(upto[j] == lines(chunk@)[j - before.len()]);
                        }
                    }
                    assert(all.take(k + 1).drop_last() =~= all.take(k as int));
                    assert(all.take(k + 1).last() == all[k as int]);
                    if k + 1 < spans@.len() {
                        assert(all[k + 1].0 == all[k as int].1);
                    } else {
                        assert(all.last() == all[k as int]);
                        assert(buf@.take(end as int) =~= buf@);
                    }
                }
                totals = totals.absorb(&found);
            },
        }
        k += 1;
    }
    proof {
        assert(all.take(k as int) =~= all);
    }
    Ok(totals)
}

} // verus!
