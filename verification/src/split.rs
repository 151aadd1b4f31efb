//! Cutting a buffer into one chunk for each worker, so that no line lies in
//! two chunks.

use crate::chunk::line_at;
use crate::lines::{first_index, lemma_first_index, NEWLINE};
use vstd::arithmetic::div_mod::lemma_fundamental_div_mod;
use vstd::prelude::*;

verus! {

/// Where the chunk that starts at `start` ends: `size` bytes on, and from
/// there behind the next line feed; at the end of the buffer where that is
/// reached first.
pub open spec fn chunk_end(buf: Seq<u8>, start: int, size: int) -> int {
    if buf.len() - start <= size {
        buf.len() as int
    } else {
        let naive = start + size;
        let stop = naive + first_index(buf.skip(naive), NEWLINE) + 1;
        if stop > buf.len() {
            buf.len() as int
        } else {
            stop
        }
    }
}

/// `count` chunks one after the other, the first from `start`.
pub open spec fn cuts_from(buf: Seq<u8>, size: int, start: int, count: nat) -> Seq<(int, int)>
    decreases count,
{
    if count == 0 {
        Seq::empty()
    } else {
        let end = chunk_end(buf, start, size);
        seq![(start, end)] + cuts_from(buf, size, end, (count - 1) as nat)
    }
}

/// The chunks of a buffer for `workers` workers, each as the place of its
/// first byte and the place behind its last.
pub open spec fn cuts(buf: Seq<u8>, workers: nat) -> Seq<(int, int)> {
    cuts_from(buf, buf.len() as int / workers as int, 0, workers)
}

/// Whether the spans lie one behind the other from the start of the buffer to
/// its end, and each ends behind a line feed or at the end of the buffer.
pub open spec fn is_partition(buf: Seq<u8>, spans: Seq<(int, int)>) -> bool {
    &&& spans.len() > 0
    &&& spans[0].0 == 0
    &&& spans.last().1 == buf.len()
    &&& forall|i: int|
        0 <= i < spans.len() ==> 0 <= (#[trigger] spans[i]).0 <= spans[i].1 <= buf.len()
    &&& forall|i: int| 0 <= i < spans.len() - 1 ==> (#[trigger] spans[i]).1 == spans[i + 1].0
    &&& forall|i: int|
        0 <= i < spans.len() && (#[trigger] spans[i]).1 < buf.len() ==> spans[i].1 >= 1
            && buf[spans[i].1 - 1] == NEWLINE
}

/// Spans of machine integers as spans of integers.
pub open spec fn spans_of(v: Seq<(usize, usize)>) -> Seq<(int, int)> {
    Seq::new(v.len(), |i: int| (v[i].0 as int, v[i].1 as int))
}

/// A chunk ends at the end of the buffer, or more than `size` bytes behind
/// its start and behind a line feed.
pub proof fn lemma_chunk_end(buf: Seq<u8>, start: int, size: int)
    requires
        0 <= start <= buf.len(),
        0 <= size,
    ensures
        start <= chunk_end(buf, start, size) <= buf.len(),
        chunk_end(buf, start, size) == buf.len() || (chunk_end(buf, start, size) >= start + size + 1
            && buf[chunk_end(buf, start, size) - 1] == NEWLINE),
{
    if buf.len() - start > size {
        let naive = start + size;
        let rest = buf.skip(naive);
        lemma_first_index(rest, NEWLINE);
        let f = first_index(rest, NEWLINE) as int;
        if f < rest.len() {
            assert(rest[f] == buf[naive + f]);
        }
    }
}

/// What holds of chunks cut one after the other: there are `count` of them,
/// each starts where the one before ended, each ends behind a line feed or at
/// the end of the buffer, and the last one ends at the end of the buffer
/// where `count` chunks of more than `size` bytes would pass it.
pub proof fn lemma_cuts_from(buf: Seq<u8>, size: int, start: int, count: nat)
    requires
        0 <= start <= buf.len(),
        0 <= size,
    ensures
        cuts_from(buf, size, start, count).len() == count,
        count > 0 ==> cuts_from(buf, size, start, count)[0].0 == start,
        forall|i: int|
            0 <= i < count ==> start <= (#[trigger] cuts_from(buf, size, start, count)[i]).0
                <= cuts_from(buf, size, start, count)[i].1 <= buf.len(),
        forall|i: int|
            0 <= i < count - 1 ==> (#[trigger] cuts_from(buf, size, start, count)[i]).1
                == cuts_from(buf, size, start, count)[i + 1].0,
        forall|i: int|
            0 <= i < count && (#[trigger] cuts_from(buf, size, start, count)[i]).1 < buf.len()
                ==> cuts_from(buf, size, start, count)[i].1 >= 1 && buf[cuts_from(
                buf,
                size,
                start,
                count,
            )[i].1 - 1] == NEWLINE,
        count > 0 && start + count * (size + 1) > buf.len() ==> cuts_from(
            buf,
            size,
            start,
            count,
        ).last().1 == buf.len(),
    decreases count,
{
    if count > 0 {
        let all = cuts_from(buf, size, start, count);
        let end = chunk_end(buf, start, size);
        let rest = cuts_from(buf, size, end, (count - 1) as nat);
        lemma_chunk_end(buf, start, size);
        lemma_cuts_from(buf, size, end, (count - 1) as nat);
        assert(all[0] == (start, end));
        assert forall|i: int| 1 <= i < count implies #[trigger] all[i] == rest[i - 1] by {}
        assert forall|i: int| 0 <= i < count - 1 implies (#[trigger] all[i]).1 == all[i + 1].0 by {
            if i > 0 {
                assert(all[i] == rest[i - 1]);
            }
            assert(all[i + 1] == rest[i]);
        }
        if start + count * (size + 1) > buf.len() {
            if count == 1 {
                assert(count * (size + 1) == size + 1) by (nonlinear_arith)
                    requires
                        count == 1,
                ;
                assert(end == buf.len());
            } else {
                assert(all.last() == rest.last());
                assert(count * (size + 1) == (count - 1) * (size + 1) + (size + 1))
                    by (nonlinear_arith);
                if end < buf.len() {
                    assert(end + (count - 1) * (size + 1) > buf.len());
                } else {
                    assert(rest[count - 2].0 >= end);
                }
            }
        }
    }
}

/// The chunks for any number of workers are a partition of the buffer, one
/// chunk for each worker.
pub proof fn lemma_cuts_partition(buf: Seq<u8>, workers: nat)
    requires
        workers > 0,
    ensures
        cuts(buf, workers).len() == workers,
        is_partition(buf, cuts(buf, workers)),
{
    let len = buf.len() as int;
    let w = workers as int;
    let size = len / w;
    lemma_fundamental_div_mod(len, w);
    assert(0 <= size && w * (size + 1) > len) by (nonlinear_arith)
        requires
            len == w * size + len % w,
            0 <= len % w < w,
            len >= 0,
            w > 0,
    ;
    lemma_cuts_from(buf, size, 0, workers);
}

/// Cuts the buffer into one chunk for each worker. Each chunk but the last
/// runs `len / workers` bytes and then to the end of the line it is in; late
/// chunks are empty where earlier ones have used the buffer up.
pub fn split(buf: &[u8], workers: usize) -> (spans: Vec<(usize, usize)>)
    requires
        workers > 0,
    ensures
        spans@.len() == workers,
        spans_of(spans@) == cuts(buf@, workers as nat),
        is_partition(buf@, spans_of(spans@)),
{
    let len: usize = buf.len();
    let size: usize = len / workers;
    let mut spans: Vec<(usize, usize)> = Vec::new();
    let mut start: usize = 0;
    let mut k: usize = 0;
    proof {
        assert(spans_of(spans@) + cuts_from(buf@, size as int, 0, workers as nat) =~= cuts(
            buf@,
            workers as nat,
        ));
    }
    while k < workers
        invariant
            k <= workers,
            start <= len == buf@.len(),
            size == len as int / workers as int,
            spans@.len() == k,
            cuts(buf@, workers as nat) == spans_of(spans@) + cuts_from(
                buf@,
                size as int,
                start as int,
                (workers - k) as nat,
            ),
        decreases workers - k,
    {
        let end: usize = if len - start <= size {
            len
        } else {
            let (_line, next) = line_at(buf, start + size);
            next
        };
        proof {
            assert(end == chunk_end(buf@, start as int, size as int));
            let rest = cuts_from(buf@, size as int, end as int, (workers - k - 1) as nat);
            assert(spans_of(spans@.push((start, end))) + rest =~= spans_of(spans@) + (seq![
                (start as int, end as int),
            ] + rest));
        }
        spans.push((start, end));
        start = end;
        k += 1;
    }
    proof {
        assert(spans_of(spans@) + Seq::<(int, int)>::empty() =~= spans_of(spans@));
        lemma_cuts_partition(buf@, workers as nat);
    }
    spans
}

} // verus!
