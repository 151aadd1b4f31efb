//! The report as text: a heading, one row for each name in ascending order,
//! and the two closing lines with the number of lines read and the number of
//! names.

use crate::stat::{Stat, Summary};
use crate::text::{decimal_digits, push_decimal, push_tenths, tenths_text};
use crate::totals::Totals;
use vstd::prelude::*;

verus! {

/// The heading: `Category: min / avg / max`.
pub open spec fn heading() -> Seq<u8> {
    seq![67, 97, 116, 101, 103, 111, 114, 121, 58, 32, 109, 105, 110, 32, 47, 32, 97, 118, 103, 32, 47, 32, 109, 97, 120]
}

/// What follows a name: a colon and a space.
pub open spec fn after_name() -> Seq<u8> {
    seq![58, 32]
}

/// What follows the minimum: two spaces, a slash and a space.
pub open spec fn after_min() -> Seq<u8> {
    seq![32, 32, 47, 32]
}

/// What follows the mean: a space, a slash and a space.
pub open spec fn after_mean() -> Seq<u8> {
    seq![32, 47, 32]
}

/// An empty line, and the word before the number of lines: `total `.
pub open spec fn before_lines() -> Seq<u8> {
    seq![10, 116, 111, 116, 97, 108, 32]
}

/// What follows the number of lines: ` measurements` and a line feed.
pub open spec fn after_lines() -> Seq<u8> {
    seq![32, 109, 101, 97, 115, 117, 114, 101, 109, 101, 110, 116, 115, 10]
}

/// What stands between the heading and the number of names: `, total `.
pub open spec fn before_names() -> Seq<u8> {
    seq![44, 32, 116, 111, 116, 97, 108, 32]
}

/// What follows the number of names: ` categories` and a line feed.
pub open spec fn after_names() -> Seq<u8> {
    seq![32, 99, 97, 116, 101, 103, 111, 114, 105, 101, 115, 10]
}

/// The row of one name: the name, the minimum, the mean and the maximum, each
/// number with one digit behind the dot.
pub open spec fn row_text(name: Seq<u8>, s: Summary) -> Seq<u8> {
    name + after_name() + tenths_text(s.min as int) + after_min() + tenths_text(s.mean())
        + after_mean() + tenths_text(s.max as int) + seq![10u8]
}

/// The rows of the names, in their order.
pub open spec fn rows_text(names: Seq<Seq<u8>>, by: Map<Seq<u8>, Summary>) -> Seq<u8>
    decreases names.len(),
{
    if names.len() == 0 {
        Seq::empty()
    } else {
        rows_text(names.drop_last(), by) + row_text(names.last(), by[names.last()])
    }
}

/// The whole report.
pub open spec fn report_text(names: Seq<Seq<u8>>, by: Map<Seq<u8>, Summary>, lines: nat) -> Seq<
    u8,
> {
    heading() + seq![10u8] + rows_text(names, by) + before_lines() + decimal_digits(lines)
        + after_lines() + heading() + before_names() + decimal_digits(names.len())
        + after_names()
}

/// Appends `text` to `out`.
fn push_text(out: &mut Vec<u8>, text: &[u8])
    ensures
        final(out)@ == old(out)@ + text@,
{
    out.extend_from_slice(text);
}

/// Appends the heading to `out`.
fn push_heading(out: &mut Vec<u8>)
    ensures
        final(out)@ == old(out)@ + heading(),
{
    let text: [u8; 25] = [67, 97, 116, 101, 103, 111, 114, 121, 58, 32, 109, 105, 110, 32, 47, 32, 97, 118, 103, 32, 47, 32, 109, 97, 120];
    assert(text@ =~= heading());
    push_text(out, text.as_slice());
}

/// Appends the row of `name` to `out`.
fn push_row(out: &mut Vec<u8>, name: &[u8], stat: &Stat)
    requires
        stat@.count > 0,
    ensures
        final(out)@ == old(out)@ + row_text(name@, stat@),
{
    let colon: [u8; 2] = [58, 32];
    let wide: [u8; 4] = [32, 32, 47, 32];
    let slash: [u8; 3] = [32, 47, 32];
    assert(colon@ =~= after_name());
    assert(wide@ =~= after_min());
    assert(slash@ =~= after_mean());
    match (stat.min(), stat.mean(), stat.max()) {
        (Some(min), Some(mean), Some(max)) => {
            push_text(out, name);
            push_text(out, colon.as_slice());
            push_tenths(out, min);
            push_text(out, wide.as_slice());
            push_tenths(out, mean);
            push_text(out, slash.as_slice());
            push_tenths(out, max);
            out.push(10);
        },
        _ => {
            assert(false);
        },
    }
    proof {
        assert(final(out)@ =~= old(out)@ + row_text(name@, stat@));
    }
}

/// Appends the two closing lines to `out`.
fn push_closing(out: &mut Vec<u8>, lines: u64, names: usize)
    ensures
        final(out)@ == old(out)@ + before_lines() + decimal_digits(lines as nat) + after_lines()
            + heading() + before_names() + decimal_digits(names as nat) + after_names(),
{
    let total: [u8; 7] = [10, 116, 111, 116, 97, 108, 32];
    let measurements: [u8; 14] = [32, 109, 101, 97, 115, 117, 114, 101, 109, 101, 110, 116, 115, 10];
    let comma: [u8; 8] = [44, 32, 116, 111, 116, 97, 108, 32];
    let categories: [u8; 12] = [32, 99, 97, 116, 101, 103, 111, 114, 105, 101, 115, 10];
    assert(total@ =~= before_lines());
    assert(measurements@ =~= after_lines());
    assert(comma@ =~= before_names());
    assert(categories@ =~= after_names());
    push_text(out, total.as_slice());
    push_decimal(out, lines);
    push_text(out, measurements.as_slice());
    push_heading(out);
    push_text(out, comma.as_slice());
    push_decimal(out, names as u64);
    push_text(out, categories.as_slice());
    proof {
        assert(final(out)@ =~= old(out)@ + before_lines() + decimal_digits(lines as nat)
            + after_lines() + heading() + before_names() + decimal_digits(names as nat)
            + after_names());
    }
}

/// Writes the report of a result: the heading, the rows of the names in
/// ascending order, and the closing lines.
pub fn render_report(totals: &Totals) -> (out: Vec<u8>)
    ensures
        out@ == report_text(totals.names(), totals@, totals.filed().len()),
{
    let mut out: Vec<u8> = Vec::new();
    push_heading(&mut out);
    out.push(10);
    let n: usize = totals.len();
    let ghost names = totals.names();
    let ghost top = out@;
    let mut i: usize = 0;
    proof {
        assert(top =~= heading() + seq![10u8]);
        assert(names.take(0) =~= Seq::<Seq<u8>>::empty());
        assert(top + rows_text(names.take(0), totals@) =~= top);
    }
    while i < n
        invariant
            i <= n == names.len(),
            names == totals.names(),
            out@ == top + rows_text(names.take(i as int), totals@),
        decreases n - i,
    {
        let name = totals.name(i);
        let stat = totals.stat(i);
        let ghost was = out@;
        push_row(&mut out, name, &stat);
        proof {
            let front = rows_text(names.take(i as int), totals@);
            let row = row_text(names[i as int], totals@[names[i as int]]);
            assert(names.take(i + 1).drop_last() =~= names.take(i as int));
            assert(names.take(i + 1).last() == names[i as int]);
            assert(rows_text(names.take(i + 1), totals@) == front + row);
            assert((top + front) + row =~= top + (front + row));
        }
        i += 1;
    }
    proof {
        assert(names.take(n as int) =~= names);
    }
    push_closing(&mut out, totals.lines(), n);
    proof {
        assert(out@ =~= report_text(totals.names(), totals@, totals.filed().len()));
    }
    out
}

} // verus!
