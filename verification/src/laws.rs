//! Consequences of the sort's contract that hold for every run: the sorted
//! permutation of a multiset is unique, so the sort is deterministic and
//! idempotent, and in its output the negatives stand in front.
use vstd::prelude::*;

verus! {

use vstd::arithmetic::power2::lemma_pow2_pos;
use vstd::seq_lib::group_to_multiset_ensures;
use crate::model::lemma_key_of_bits_injective;
use crate::model::sorted_by_key;
use crate::RadixSortable;

/// Elements with equal keys are equal.
proof fn lemma_key_injective<T: RadixSortable>(a: T, b: T)
    requires
        a.key() == b.key(),
    ensures
        a == b,
{
    a.laws();
    b.laws();
    T::width_laws();
    lemma_key_of_bits_injective(T::signed(), T::float(), T::total_bits(), a.bits(), b.bits());
    T::bits_injective(a, b);
}

/// Two key-sorted sequences holding the same elements are the same
/// sequence: a multiset has exactly one sorted arrangement.
pub proof fn lemma_sorted_permutation_unique<T: RadixSortable>(a: Seq<T>, b: Seq<T>)
    requires
        sorted_by_key(a),
        sorted_by_key(b),
        a.to_multiset() == b.to_multiset(),
    ensures
        a == b,
    decreases a.len(),
{
    broadcast use group_to_multiset_ensures;

    assert(a.len() == a.to_multiset().len());
    assert(b.len() == b.to_multiset().len());
    if a.len() == 0 {
        assert(a =~= b);
    } else {
        assert(a.contains(a[0]));
        assert(a.to_multiset().count(a[0]) > 0);
        assert(b.to_multiset().count(a[0]) > 0);
        assert(b.contains(a[0]));
        let ib = choose|ib: int| 0 <= ib < b.len() && b[ib] == a[0];
        assert(b.contains(b[0]));
        assert(b.to_multiset().count(b[0]) > 0);
        assert(a.to_multiset().count(b[0]) > 0);
        assert(a.contains(b[0]));
        let ia = choose|ia: int| 0 <= ia < a.len() && a[ia] == b[0];
        assert(a[0].key() <= a[ia].key());
        assert(b[0].key() <= b[ib].key());
        lemma_key_injective(a[0], b[0]);
        let a1 = a.remove(0);
        let b1 = b.remove(0);
        assert(a1.to_multiset() =~= a.to_multiset().remove(a[0]));
        assert(b1.to_multiset() =~= b.to_multiset().remove(b[0]));
        assert(sorted_by_key(a1)) by {
            assert(forall|i: int, j: int|
                0 <= i < j < a1.len() ==> a1[i] == a[i + 1] && a1[j] == a[j + 1]);
        }
        assert(sorted_by_key(b1)) by {
            assert(forall|i: int, j: int|
                0 <= i < j < b1.len() ==> b1[i] == b[i + 1] && b1[j] == b[j + 1]);
        }
        lemma_sorted_permutation_unique(a1, b1);
        assert forall|k: int| 0 <= k < a.len() implies a[k] == b[k] by {
            if k > 0 {
                assert(a[k] == a1[k - 1] && b[k] == b1[k - 1]);
            }
        }
        assert(a =~= b);
    }
}

/// Sorting the same elements always gives the same result, whichever digit
/// width or pass sequence produced it: any two outcomes that are key-sorted
/// permutations of the input agree.
pub proof fn lemma_sort_outcome_unique<T: RadixSortable>(input: Seq<T>, out1: Seq<T>, out2: Seq<T>)
    requires
        sorted_by_key(out1),
        out1.to_multiset() == input.to_multiset(),
        sorted_by_key(out2),
        out2.to_multiset() == input.to_multiset(),
    ensures
        out1 == out2,
{
    lemma_sorted_permutation_unique(out1, out2);
}

/// Sorting an already-sorted sequence gives back that sequence: any
/// key-sorted permutation of a key-sorted input is the input itself.
pub proof fn lemma_sort_of_sorted_is_identity<T: RadixSortable>(input: Seq<T>, output: Seq<T>)
    requires
        sorted_by_key(input),
        sorted_by_key(output),
        output.to_multiset() == input.to_multiset(),
    ensures
        output == input,
{
    lemma_sorted_permutation_unique(output, input);
}

/// In a key-sorted sequence every negative element precedes every
/// non-negative one: once a non-negative element appears, no negative
/// follows.
pub proof fn lemma_negatives_precede<T: RadixSortable>(s: Seq<T>)
    requires
        sorted_by_key(s),
    ensures
        forall|i: int, j: int|
            0 <= i < j < s.len() && s[j].negative() ==> s[i].negative(),
{
    assert forall|i: int, j: int|
        0 <= i < j < s.len() && s[j].negative() implies s[i].negative() by {
        s[i].laws();
        s[j].laws();
        T::width_laws();
        lemma_pow2_pos((T::total_bits() - 1) as nat);
        lemma_pow2_pos(T::total_bits());
        assert(s[j].key() < 0);
        assert(s[i].key() <= s[j].key());
        if !s[i].negative() {
            assert(s[i].key() >= 0);
        }
    }
}

} // verus!
