//! Checks on a sequence of cards before a board is built from it.

use vstd::prelude::*;
use vstd::set_lib::{lemma_int_range, lemma_set_subset_finite, lemma_subset_equality, set_int_range};

verus! {

/// Every value of `s` lies in `1..=s.len()`.
pub open spec fn all_in_range(s: Seq<u8>) -> bool {
    forall|i: int| 0 <= i < s.len() ==> 1 <= #[trigger] s[i] <= s.len()
}

/// Every value in `1..=s.len()` occurs in `s`.
pub open spec fn all_present(s: Seq<u8>) -> bool {
    forall|c: u8| 1 <= c <= s.len() ==> #[trigger] s.contains(c)
}

/// `s` holds each of the values `1..=s.len()` exactly once.
pub open spec fn is_dense_permutation(s: Seq<u8>) -> bool {
    &&& all_in_range(s)
    &&& s.no_duplicates()
}

/// A sequence of distinct values in `1..=s.len()` has room for no gap:
/// every one of these values occurs, and there are at most 255 of them.
pub proof fn lemma_dense_permutation_complete(s: Seq<u8>)
    requires
        is_dense_permutation(s),
    ensures
        all_present(s),
        s.len() <= 255,
{
    let n = s.len() as int;
    let ints = Seq::new(s.len(), |i: int| s[i] as int);
    assert(ints.no_duplicates());
    ints.unique_seq_to_set();
    lemma_int_range(1, n + 1);
    assert(ints.to_set().subset_of(set_int_range(1, n + 1))) by {
        assert forall|v: int| ints.to_set().contains(v) implies set_int_range(1, n + 1).contains(
            v,
        ) by {
            let i = choose|i: int| 0 <= i < ints.len() && ints[i] == v;
            assert(1 <= s[i] <= n);
        }
    }
    lemma_set_subset_finite(set_int_range(1, n + 1), ints.to_set());
    lemma_subset_equality(ints.to_set(), set_int_range(1, n + 1));
    assert forall|c: int| 1 <= c <= n implies #[trigger] ints.contains(c) by {
        assert(set_int_range(1, n + 1).contains(c));
        assert(ints.to_set().contains(c));
    }
    if n > 255 {
        assert(ints.contains(256));
        let i = choose|i: int| 0 <= i < ints.len() && ints[i] == 256;
        assert(s[i] == 256);
    }
    assert forall|c: u8| 1 <= c <= s.len() implies #[trigger] s.contains(c) by {
        assert(ints.contains(c as int));
        let i = choose|i: int| 0 <= i < ints.len() && ints[i] == c as int;
        assert(s[i] == c);
    }
}

/// Whether the card `card` occurs in `v`.
pub fn contains_card(v: &Vec<u8>, card: u8) -> (found: bool)
    ensures
        found == v@.contains(card),
{
    let mut i: usize = 0;
    while i < v.len()
        invariant
            i <= v.len(),
            forall|j: int| 0 <= j < i ==> v@[j] != card,
        decreases v.len() - i,
    {
        if v[i] == card {
            return true;
        }
        i += 1;
    }
    false
}

/// Whether the value zero, which is no card, occurs in `v`.
pub fn contains_zero(v: &Vec<u8>) -> (found: bool)
    ensures
        found == v@.contains(0u8),
{
    contains_card(v, 0)
}

/// Whether `v` holds a value twice.
pub fn has_duplicate(v: &Vec<u8>) -> (found: bool)
    ensures
        found == !v@.no_duplicates(),
{
    let mut i: usize = 0;
    while i < v.len()
        invariant
            i <= v.len(),
            forall|a: int, b: int| 0 <= a < i && 0 <= b < v.len() && a != b ==> v@[a] != v@[b],
        decreases v.len() - i,
    {
        let mut j: usize = 0;
        while j < v.len()
            invariant
                i < v.len(),
                j <= v.len(),
                forall|b: int| 0 <= b < j && b != i ==> v@[i as int] != v@[b],
            decreases v.len() - j,
        {
            if j != i && v[i] == v[j] {
                return true;
            }
            j += 1;
        }
        i += 1;
    }
    false
}

/// Whether `v` is the values `1..=v.len()` in some order, none missing and
/// none twice.
pub fn correct_sequence(v: &Vec<u8>) -> (ok: bool)
    ensures
        ok == is_dense_permutation(v@),
{
    let n: usize = v.len();
    let mut i: usize = 0;
    while i < n
        invariant
            n == v.len(),
            i <= n,
            forall|j: int| 0 <= j < i ==> 1 <= #[trigger] v@[j] <= n,
        decreases n - i,
    {
        let c: u8 = v[i];
        if c == 0 || (c as usize) > n {
            return false;
        }
        i += 1;
    }
    !has_duplicate(v)
}

} // verus!
