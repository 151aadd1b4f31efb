//! The order of names: byte strings compared byte by byte, a proper prefix
//! before what it is a prefix of.

use vstd::prelude::*;

verus! {

/// Whether `a` and `b` agree on their first `i` bytes and `a` is the lesser
/// at place `i`: it ends there and `b` does not, or its byte there is less.
pub open spec fn less_at(a: Seq<u8>, b: Seq<u8>, i: int) -> bool {
    &&& 0 <= i <= a.len()
    &&& i < b.len()
    &&& forall|j: int| 0 <= j < i ==> a[j] == b[j]
    &&& (i == a.len() || a[i] < b[i])
}

/// Whether `a` comes before `b`.
pub open spec fn lex_lt(a: Seq<u8>, b: Seq<u8>) -> bool {
    exists|i: int| less_at(a, b, i)
}

/// Whether each name of the sequence comes before the next.
pub open spec fn ascending(names: Seq<Seq<u8>>) -> bool {
    forall|i: int, j: int| 0 <= i < j < names.len() ==> lex_lt(#[trigger] names[i], #[trigger] names[j])
}

/// How one byte string stands to another.
#[derive(Clone, Copy, Debug, PartialEq, Eq)]
pub enum Rank {
    Before,
    Same,
    After,
}

/// Compares two byte strings.
pub fn rank(a: &[u8], b: &[u8]) -> (r: Rank)
    ensures
        match r {
            Rank::Before => lex_lt(a@, b@),
            Rank::Same => a@ == b@,
            Rank::After => lex_lt(b@, a@),
        },
{
    let n: usize = if a.len() < b.len() { a.len() } else { b.len() };
    let mut i: usize = 0;
    while i < n
        invariant
            i <= n,
            n <= a@.len(),
            n <= b@.len(),
            forall|j: int| 0 <= j < i ==> a@[j] == b@[j],
        decreases n - i,
    {
        if a[i] < b[i] {
            assert(less_at(a@, b@, i as int));
            return Rank::Before;
        }
        if a[i] > b[i] {
            assert(less_at(b@, a@, i as int));
            return Rank::After;
        }
        i += 1;
    }
    if a.len() < b.len() {
        assert(less_at(a@, b@, i as int));
        Rank::Before
    } else if a.len() > b.len() {
        assert(less_at(b@, a@, i as int));
        Rank::After
    } else {
        assert(a@ =~= b@);
        Rank::Same
    }
}

/// No byte string comes before itself.
pub proof fn lemma_lex_irreflexive(a: Seq<u8>)
    ensures
        !lex_lt(a, a),
{
}

/// What comes before something that comes before a third comes before the
/// third.
pub proof fn lemma_lex_transitive(a: Seq<u8>, b: Seq<u8>, c: Seq<u8>)
    requires
        lex_lt(a, b),
        lex_lt(b, c),
    ensures
        lex_lt(a, c),
{
    let i = choose|i: int| less_at(a, b, i);
    let j = choose|j: int| less_at(b, c, j);
    let k = if i < j { i } else { j };
    assert(less_at(a, c, k));
}

/// Of two byte strings at most one comes before the other.
pub proof fn lemma_lex_asymmetric(a: Seq<u8>, b: Seq<u8>)
    requires
        lex_lt(a, b),
    ensures
        !lex_lt(b, a),
        a != b,
{
    if lex_lt(b, a) {
        lemma_lex_transitive(a, b, a);
    }
}

} // verus!
