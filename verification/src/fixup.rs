//! The post-pass fixup: once the passes have ordered the raw bit patterns,
//! rotate the negative block to the front, and for floats also reverse it,
//! so that the sequence is ordered by numeric key.
use vstd::prelude::*;

verus! {

use vstd::arithmetic::power2::lemma_pow2_pos;
use vstd::multiset::group_multiset_axioms;
use vstd::seq_lib::lemma_multiset_commutative;
use crate::model::bits_sorted;
use crate::model::sorted_by_key;
use crate::RadixSortable;

/// Counts the non-negative elements at the front of the buffer.
pub(crate) fn count_nonneg_prefix<T: RadixSortable>(v: &Vec<T>) -> (k: usize)
    ensures
        k <= v.len(),
        forall|i: int| 0 <= i < k ==> !v@[i].negative(),
        k < v.len() ==> v@[k as int].negative(),
{
    let n = v.len();
    let mut k: usize = 0;
    while k < n
        invariant
            k <= n,
            n == v.len(),
            forall|i: int| 0 <= i < k ==> !v@[i].negative(),
        decreases n - k,
    {
        if v[k].is_negative() {
            return k;
        }
        k += 1;
    }
    k
}

/// Writes into `dst` the rotation of `src` that brings the suffix starting
/// at `split` to the front; for floats that suffix is also reversed.
pub(crate) fn apply_sign_fixup<T: RadixSortable>(src: &Vec<T>, dst: &mut Vec<T>, split: usize)
    requires
        old(dst).len() == src.len(),
        split <= src.len(),
    ensures
        final(dst).len() == src.len(),
        T::float() ==> final(dst)@ == src@.subrange(split as int, src@.len() as int).reverse()
            + src@.subrange(0, split as int),
        !T::float() ==> final(dst)@ == src@.subrange(split as int, src@.len() as int)
            + src@.subrange(0, split as int),
{
    let n = src.len();
    let neg_count = n - split;
    let fl = T::float_exec();
    let ghost target = if T::float() {
        src@.subrange(split as int, n as int).reverse() + src@.subrange(0, split as int)
    } else {
        src@.subrange(split as int, n as int) + src@.subrange(0, split as int)
    };
    let mut i: usize = 0;
    while i < n
        invariant
            dst.len() == n,
            n == src.len(),
            split <= n,
            neg_count == n - split,
            fl == T::float(),
            target == if T::float() {
                src@.subrange(split as int, n as int).reverse() + src@.subrange(0, split as int)
            } else {
                src@.subrange(split as int, n as int) + src@.subrange(0, split as int)
            },
            target.len() == n,
            i <= n,
            forall|q: int| 0 <= q < i ==> dst@[q] == target[q],
        decreases n - i,
    {
        let x = if i < neg_count {
            if fl {
                src[n - 1 - i]
            } else {
                src[split + i]
            }
        } else {
            src[i - neg_count]
        };
        dst[i] = x;
        proof {
            assert(x == target[i as int]);
        }
        i += 1;
    }
    proof {
        assert(dst@ =~= target);
    }
}

/// A pattern-sorted sequence of an unsigned type is sorted by key.
pub proof fn lemma_unsigned_sorted<T: RadixSortable>(s: Seq<T>)
    requires
        !T::signed(),
        bits_sorted(s),
    ensures
        sorted_by_key(s),
{
    assert forall|i: int, j: int| 0 <= i < j < s.len() implies s[i].key() <= s[j].key() by {
        s[i].laws();
        s[j].laws();
    }
}

/// In a pattern-sorted sequence, everything from a negative element on is
/// negative.
pub proof fn lemma_negative_suffix<T: RadixSortable>(s: Seq<T>, k: int)
    requires
        bits_sorted(s),
        0 <= k < s.len(),
        s[k].negative(),
    ensures
        forall|i: int| k <= i < s.len() ==> s[i].negative(),
{
    assert forall|i: int| k <= i < s.len() implies s[i].negative() by {
        s[k].laws();
        s[i].laws();
    }
}

/// The rotation (and, for floats, reversal of the negative block) of a
/// pattern-sorted sequence split at the first negative element is sorted
/// by key and holds the same elements.
pub proof fn lemma_fixup_sorted<T: RadixSortable>(s: Seq<T>, t: Seq<T>, split: int)
    requires
        T::signed(),
        bits_sorted(s),
        0 <= split <= s.len(),
        forall|i: int| 0 <= i < split ==> !s[i].negative(),
        forall|i: int| split <= i < s.len() ==> s[i].negative(),
        T::float() ==> t == s.subrange(split, s.len() as int).reverse() + s.subrange(0, split),
        !T::float() ==> t == s.subrange(split, s.len() as int) + s.subrange(0, split),
    ensures
        sorted_by_key(t),
        t.to_multiset() == s.to_multiset(),
        t.len() == s.len(),
{
    broadcast use group_multiset_axioms;

    let n = s.len() as int;
    let nonnegs = s.subrange(0, split);
    let negs = s.subrange(split, n);
    let nn = n - split;
    s.lemma_split_at(split);
    lemma_multiset_commutative(nonnegs, negs);
    if T::float() {
        negs.lemma_reverse_to_multiset();
        lemma_multiset_commutative(negs.reverse(), nonnegs);
    } else {
        lemma_multiset_commutative(negs, nonnegs);
    }
    assert(negs.to_multiset().add(nonnegs.to_multiset()) =~= nonnegs.to_multiset().add(
        negs.to_multiset(),
    ));
    assert forall|i: int, j: int| 0 <= i < j < t.len() implies t[i].key() <= t[j].key() by {
        T::width_laws();
        lemma_pow2_pos((T::total_bits() - 1) as nat);
        lemma_pow2_pos(T::total_bits());
        let a = t[i];
        let b = t[j];
        if i < nn {
            if T::float() {
                assert(a == negs.reverse()[i]);
                assert(a == s[n - 1 - i]);
                assert(split <= n - 1 - i < n);
            } else {
                assert(a == s[split + i]);
            }
        } else {
            assert(a == s[i - nn]);
        }
        if j < nn {
            if T::float() {
                assert(b == negs.reverse()[j]);
                assert(b == s[n - 1 - j]);
                assert(split <= n - 1 - j < n);
            } else {
                assert(b == s[split + j]);
            }
        } else {
            assert(b == s[j - nn]);
        }
        a.laws();
        b.laws();
        if i < nn && j < nn {
            if T::float() {
                assert(s[n - 1 - j].bits() <= s[n - 1 - i].bits());
            } else {
                assert(s[split + i].bits() <= s[split + j].bits());
            }
        } else if i < nn {
            assert(a.negative());
            assert(!b.negative());
        } else {
            assert(s[i - nn].bits() <= s[j - nn].bits());
        }
    }
}

} // verus!
