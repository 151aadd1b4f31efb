//! A buffer as a sequence of lines: each line ends before a line feed, and
//! what follows the last line feed is a line too, unless it is empty.

use vstd::prelude::*;

verus! {

/// The byte that ends a line.
pub const NEWLINE: u8 = 10;

/// The byte between a name and its value.
pub const SEMICOLON: u8 = 59;

/// The index of the first `b` in `s`, or the length of `s` where it has none.
pub open spec fn first_index(s: Seq<u8>, b: u8) -> nat
    decreases s.len(),
{
    if s.len() == 0 || s[0] == b {
        0
    } else {
        1 + first_index(s.skip(1), b)
    }
}

/// The lines of `s`, without their line feeds.
pub open spec fn lines(s: Seq<u8>) -> Seq<Seq<u8>>
    decreases s.len(),
{
    if s.len() == 0 {
        Seq::empty()
    } else {
        let n = first_index(s, NEWLINE) as int;
        if n >= s.len() {
            seq![s]
        } else {
            seq![s.take(n)] + lines(s.skip(n + 1))
        }
    }
}

/// How many line feeds `s` holds.
pub open spec fn newline_count(s: Seq<u8>) -> nat
    decreases s.len(),
{
    if s.len() == 0 {
        0
    } else {
        newline_count(s.drop_last()) + if s.last() == NEWLINE { 1nat } else { 0nat }
    }
}

/// Whether `s` can be cut after its last byte without cutting a line in two.
pub open spec fn ends_lines(s: Seq<u8>) -> bool {
    s.len() == 0 || s.last() == NEWLINE
}

/// `memchr::memchr`: the index of the first byte of `haystack` that equals
/// `needle`, or `None` where no byte does.
#[verifier::external_body]
pub(crate) fn find_byte(needle: u8, haystack: &[u8]) -> (r: Option<usize>)
    ensures
        match r {
            Some(i) => {
                &&& i < haystack@.len()
                &&& haystack@[i as int] == needle
                &&& forall|j: int| 0 <= j < i ==> haystack@[j] != needle
            },
            None => forall|j: int| 0 <= j < haystack@.len() ==> haystack@[j] != needle,
        },
{
    memchr::memchr(needle, haystack)
}

/// The first index of `b` is within the sequence or at its end, no byte before
/// it is `b`, and where it is within, the byte there is `b`.
pub proof fn lemma_first_index(s: Seq<u8>, b: u8)
    ensures
        0 <= first_index(s, b) <= s.len(),
        forall|j: int| 0 <= j < first_index(s, b) ==> s[j] != b,
        first_index(s, b) < s.len() ==> s[first_index(s, b) as int] == b,
    decreases s.len(),
{
    if s.len() != 0 && s[0] != b {
        let rest = s.skip(1);
        lemma_first_index(rest, b);
        assert forall|j: int| 0 <= j < first_index(s, b) implies s[j] != b by {
            if j > 0 {
                assert(s[j] == rest[j - 1]);
            }
        }
        assert(first_index(s, b) < s.len() ==> s[first_index(s, b) as int] == rest[first_index(rest, b) as int]);
    }
}

/// An index with these three properties is the first index.
pub proof fn lemma_first_index_is(s: Seq<u8>, b: u8, i: int)
    requires
        0 <= i <= s.len(),
        forall|j: int| 0 <= j < i ==> s[j] != b,
        i < s.len() ==> s[i] == b,
    ensures
        first_index(s, b) == i,
{
    lemma_first_index(s, b);
    let f = first_index(s, b) as int;
    if f < i {
        assert(s[f] != b);
    } else if i < f {
        assert(s[i] != b);
    }
}

/// Where `a` ends with a line feed or is empty, the lines of `a` and `b`
/// joined are the lines of `a` and then the lines of `b`.
pub proof fn lemma_lines_concat(a: Seq<u8>, b: Seq<u8>)
    requires
        ends_lines(a),
    ensures
        lines(a + b) == lines(a) + lines(b),
    decreases a.len(),
{
    if a.len() == 0 {
        assert(a + b =~= b);
        assert(lines(a) + lines(b) =~= lines(b));
    } else {
        let n = first_index(a, NEWLINE) as int;
        lemma_first_index(a, NEWLINE);
        if n >= a.len() {
            assert(a[a.len() - 1] != NEWLINE);
        }
        assert forall|j: int| 0 <= j < n implies (a + b)[j] != NEWLINE by {
            assert((a + b)[j] == a[j]);
        }
        assert((a + b)[n] == a[n]);
        lemma_first_index_is(a + b, NEWLINE, n);
        let rest = a.skip(n + 1);
        assert((a + b).skip(n + 1) =~= rest + b);
        assert((a + b).take(n) =~= a.take(n));
        if rest.len() > 0 {
            assert(rest.last() == a.last());
        }
        lemma_lines_concat(rest, b);
        assert(lines(a + b) =~= lines(a) + lines(b));
    }
}

/// A buffer has no more lines than bytes.
pub proof fn lemma_lines_len(s: Seq<u8>)
    ensures
        lines(s).len() <= s.len(),
    decreases s.len(),
{
    if s.len() > 0 {
        let n = first_index(s, NEWLINE) as int;
        lemma_first_index(s, NEWLINE);
        if n < s.len() {
            lemma_lines_len(s.skip(n + 1));
        }
    }
}

/// A buffer cut at `s` and at `e`, each at the start, at the end or behind a
/// line feed: the lines up to `e` are the lines up to `s` and then the lines
/// between the cuts, and the lines of the buffer are the lines up to `e` and
/// then the lines behind it.
pub proof fn lemma_lines_cut(buf: Seq<u8>, s: int, e: int)
    requires
        0 <= s <= e <= buf.len(),
        s == 0 || s == buf.len() || buf[s - 1] == NEWLINE,
        e == 0 || e == buf.len() || buf[e - 1] == NEWLINE,
    ensures
        lines(buf.take(e)) == lines(buf.take(s)) + lines(buf.subrange(s, e)),
        lines(buf) == lines(buf.take(e)) + lines(buf.skip(e)),
{
    assert(buf.take(e) =~= buf.take(s) + buf.subrange(s, e));
    if s == buf.len() {
        assert(buf.subrange(s, e) =~= Seq::<u8>::empty());
        assert(buf.take(e) =~= buf.take(s));
        assert(lines(buf.take(s)) + lines(buf.subrange(s, e)) =~= lines(buf.take(s)));
    } else {
        if s > 0 {
            assert(buf.take(s).last() == buf[s - 1]);
        }
        lemma_lines_concat(buf.take(s), buf.subrange(s, e));
    }
    assert(buf =~= buf.take(e) + buf.skip(e));
    if e == buf.len() {
        assert(buf.skip(e) =~= Seq::<u8>::empty());
        assert(buf.take(e) =~= buf);
        assert(lines(buf.take(e)) + lines(buf.skip(e)) =~= lines(buf));
    } else {
        if e > 0 {
            assert(buf.take(e).last() == buf[e - 1]);
        }
        lemma_lines_concat(buf.take(e), buf.skip(e));
    }
}

/// A buffer has one line for each line feed, and one more where bytes follow
/// the last line feed.
pub proof fn lemma_line_count(s: Seq<u8>)
    ensures
        lines(s).len() == newline_count(s) + if ends_lines(s) { 0nat } else { 1nat },
    decreases s.len(),
{
    if s.len() > 0 {
        let n = first_index(s, NEWLINE) as int;
        lemma_first_index(s, NEWLINE);
        if n >= s.len() {
            lemma_no_newline(s);
        } else {
            let rest = s.skip(n + 1);
            lemma_line_count(rest);
            lemma_no_newline(s.take(n));
            assert(s =~= (s.take(n) + seq![NEWLINE]) + rest);
            lemma_newline_count_concat(s.take(n), seq![NEWLINE]);
            lemma_newline_count_concat(s.take(n) + seq![NEWLINE], rest);
            assert(seq![NEWLINE].drop_last() =~= Seq::<u8>::empty());
            assert(newline_count(seq![NEWLINE]) == 1) by {
                reveal_with_fuel(newline_count, 2);
            }
            if rest.len() > 0 {
                assert(rest.last() == s.last());
            }
        }
    }
}

/// A sequence without a line feed counts none.
proof fn lemma_no_newline(s: Seq<u8>)
    requires
        forall|j: int| 0 <= j < s.len() ==> s[j] != NEWLINE,
    ensures
        newline_count(s) == 0,
    decreases s.len(),
{
    if s.len() > 0 {
        lemma_no_newline(s.drop_last());
    }
}

/// The line feeds of two sequences joined are those of both.
pub proof fn lemma_newline_count_concat(a: Seq<u8>, b: Seq<u8>)
    ensures
        newline_count(a + b) == newline_count(a) + newline_count(b),
    decreases b.len(),
{
    if b.len() == 0 {
        assert(a + b =~= a);
    } else {
        assert((a + b).drop_last() =~= a + b.drop_last());
        lemma_newline_count_concat(a, b.drop_last());
    }
}

} // verus!
