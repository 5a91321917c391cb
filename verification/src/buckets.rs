//! The shape of one distribution pass: the sub-sequence of elements with a
//! given digit, and the concatenation of those sub-sequences in digit order,
//! which is exactly what a stable counting pass writes.
use vstd::prelude::*;

verus! {

use vstd::arithmetic::power2::pow2;
use vstd::seq_lib::group_filter_ensures;
use vstd::seq_lib::group_to_multiset_ensures;
use vstd::seq_lib::lemma_multiset_commutative;
use vstd::multiset::group_multiset_axioms;
use crate::model::digit_of;
use crate::model::digit_sorted;
use crate::model::lemma_digit_bound;
use crate::model::lemma_low_le;
use crate::model::low_sorted;
use crate::RadixSortable;

/// Holds of the elements whose digit at `offset` is `d`.
pub open spec fn digit_pred<T: RadixSortable>(width: nat, offset: nat, d: nat) -> spec_fn(T) -> bool {
    |x: T| digit_of(x.bits(), width, offset) == d
}

/// The elements of `s` whose digit at `offset` is `d`, in their order in `s`.
pub open spec fn with_digit<T: RadixSortable>(s: Seq<T>, width: nat, offset: nat, d: nat) -> Seq<T> {
    s.filter(digit_pred(width, offset, d))
}

/// The elements of `s` with digit below `d`, grouped by digit in increasing
/// digit order, each group in its order in `s`: the stable partition a
/// distribution pass produces, up to digit `d`.
pub open spec fn buckets_below<T: RadixSortable>(s: Seq<T>, width: nat, offset: nat, d: nat) -> Seq<T>
    decreases d,
{
    if d == 0 {
        Seq::empty()
    } else {
        buckets_below(s, width, offset, (d - 1) as nat) + with_digit(s, width, offset, (d - 1) as nat)
    }
}

/// Filtering a sequence extended by one element keeps or appends it.
pub proof fn lemma_filter_push<A>(s: Seq<A>, p: spec_fn(A) -> bool, x: A)
    ensures
        s.push(x).filter(p) == if p(x) {
            s.filter(p).push(x)
        } else {
            s.filter(p)
        },
{
    reveal(Seq::filter);
    assert(s.push(x).drop_last() =~= s);
}

/// Every bucket of the empty sequence is empty.
pub proof fn lemma_buckets_below_empty<T: RadixSortable>(width: nat, offset: nat, d: nat)
    ensures
        buckets_below(Seq::<T>::empty(), width, offset, d) == Seq::<T>::empty(),
    decreases d,
{
    reveal(Seq::filter);
    if d > 0 {
        lemma_buckets_below_empty::<T>(width, offset, (d - 1) as nat);
        assert(Seq::<T>::empty() + Seq::<T>::empty() =~= Seq::<T>::empty());
    }
}

/// Widening the digit range can only lengthen the grouped sequence.
pub proof fn lemma_buckets_len_monotone<T: RadixSortable>(
    s: Seq<T>,
    width: nat,
    offset: nat,
    d1: nat,
    d2: nat,
)
    requires
        d1 <= d2,
    ensures
        buckets_below(s, width, offset, d1).len() <= buckets_below(s, width, offset, d2).len(),
    decreases d2,
{
    if d1 < d2 {
        lemma_buckets_len_monotone(s, width, offset, d1, (d2 - 1) as nat);
    }
}

/// Appending one element to the input inserts it into the grouping exactly
/// when its digit is in range.
pub proof fn lemma_buckets_push<T: RadixSortable>(s: Seq<T>, x: T, width: nat, offset: nat, d: nat)
    ensures
        digit_of(x.bits(), width, offset) < d ==> buckets_below(s.push(x), width, offset, d).to_multiset()
            =~= buckets_below(s, width, offset, d).to_multiset().insert(x),
        digit_of(x.bits(), width, offset) >= d ==> buckets_below(s.push(x), width, offset, d).to_multiset()
            =~= buckets_below(s, width, offset, d).to_multiset(),
    decreases d,
{
    broadcast use group_to_multiset_ensures;
    broadcast use group_multiset_axioms;

    if d > 0 {
        let dm = (d - 1) as nat;
        lemma_buckets_push(s, x, width, offset, dm);
        lemma_filter_push(s, digit_pred::<T>(width, offset, dm), x);
        lemma_multiset_commutative(
            buckets_below(s.push(x), width, offset, dm),
            with_digit(s.push(x), width, offset, dm),
        );
        lemma_multiset_commutative(
            buckets_below(s, width, offset, dm),
            with_digit(s, width, offset, dm),
        );
    }
}

/// The grouped sequence holds exactly the input's elements.
pub proof fn lemma_buckets_multiset<T: RadixSortable>(s: Seq<T>, width: nat, offset: nat)
    ensures
        buckets_below(s, width, offset, pow2(width)).to_multiset() =~= s.to_multiset(),
        buckets_below(s, width, offset, pow2(width)).len() == s.len(),
    decreases s.len(),
{
    broadcast use group_to_multiset_ensures;
    broadcast use group_multiset_axioms;

    if s.len() == 0 {
        assert(s =~= Seq::<T>::empty());
        lemma_buckets_below_empty::<T>(width, offset, pow2(width));
    } else {
        let dl = s.drop_last();
        let la = s.last();
        assert(dl.push(la) =~= s);
        lemma_buckets_multiset(dl, width, offset);
        lemma_digit_bound(la.bits(), width, offset);
        lemma_buckets_push(dl, la, width, offset, pow2(width));
        assert(buckets_below(s, width, offset, pow2(width)).to_multiset()
            =~= dl.to_multiset().insert(la));
        assert(s.to_multiset() =~= dl.to_multiset().insert(la));
    }
    assert(buckets_below(s, width, offset, pow2(width)).len() == buckets_below(
        s,
        width,
        offset,
        pow2(width),
    ).to_multiset().len());
    assert(s.len() == s.to_multiset().len());
}

/// Filtering keeps a low-bits-sorted sequence sorted, and yields only
/// elements of the sequence it filtered.
pub proof fn lemma_filter_low_sorted<T: RadixSortable>(s: Seq<T>, p: spec_fn(T) -> bool, c: nat)
    requires
        low_sorted(s, c),
    ensures
        low_sorted(s.filter(p), c),
        forall|k: int| 0 <= k < s.filter(p).len() ==> s.contains(#[trigger] s.filter(p)[k]),
    decreases s.len(),
{
    reveal(Seq::filter);
    if s.len() > 0 {
        let dl = s.drop_last();
        let la = s.last();
        assert(low_sorted(dl, c));
        lemma_filter_low_sorted(dl, p, c);
        assert forall|k: int| 0 <= k < s.filter(p).len() implies s.contains(
            #[trigger] s.filter(p)[k],
        ) by {
            if p(la) && k == s.filter(p).len() - 1 {
                assert(s.filter(p)[k] == la);
                assert(s[s.len() - 1] == la);
            } else {
                assert(s.filter(p)[k] == dl.filter(p)[k]);
                let i = choose|i: int| 0 <= i < dl.len() && dl[i] == dl.filter(p)[k];
                assert(s[i] == dl.filter(p)[k]);
            }
        }
        assert forall|i: int, j: int| 0 <= i < j < s.filter(p).len() implies s.filter(p)[i].bits()
            % pow2(c) <= s.filter(p)[j].bits() % pow2(c) by {
            if p(la) && j == s.filter(p).len() - 1 {
                assert(s.filter(p)[i] == dl.filter(p)[i]);
                let ii = choose|ii: int| 0 <= ii < dl.len() && dl[ii] == dl.filter(p)[i];
                assert(s[ii] == s.filter(p)[i]);
                assert(s.filter(p)[j] == s[s.len() - 1]);
            }
        }
    }
}

/// The grouping of a sequence sorted on its low `offset` bits is sorted on
/// its low `offset + width` bits, and holds only digits below `d`.
pub proof fn lemma_buckets_low_sorted<T: RadixSortable>(s: Seq<T>, width: nat, offset: nat, d: nat)
    requires
        low_sorted(s, offset),
    ensures
        forall|k: int| 0 <= k < buckets_below(s, width, offset, d).len()
            ==> digit_of(#[trigger] buckets_below(s, width, offset, d)[k].bits(), width, offset) < d,
        low_sorted(buckets_below(s, width, offset, d), offset + width),
    decreases d,
{
    broadcast use group_filter_ensures;

    if d > 0 {
        let dm = (d - 1) as nat;
        let pre = buckets_below(s, width, offset, dm);
        let blk = with_digit(s, width, offset, dm);
        let all = buckets_below(s, width, offset, d);
        lemma_buckets_low_sorted(s, width, offset, dm);
        lemma_filter_low_sorted(s, digit_pred::<T>(width, offset, dm), offset);
        assert(forall|k: int|
            0 <= k < blk.len() ==> digit_of(#[trigger] blk[k].bits(), width, offset) == dm);
        assert forall|k: int| 0 <= k < all.len() implies digit_of(
            #[trigger] all[k].bits(),
            width,
            offset,
        ) < d by {
            if k < pre.len() {
                assert(all[k] == pre[k]);
            } else {
                assert(all[k] == blk[k - pre.len()]);
            }
        }
        assert forall|i: int, j: int| 0 <= i < j < all.len() implies all[i].bits() % pow2(
            offset + width,
        ) <= all[j].bits() % pow2(offset + width) by {
            let bi = all[i].bits();
            let bj = all[j].bits();
            if j < pre.len() {
                assert(all[i] == pre[i] && all[j] == pre[j]);
                assert(pre[i].bits() % pow2(offset + width) <= pre[j].bits() % pow2(
                    offset + width,
                ));
            } else if i >= pre.len() {
                assert(all[i] == blk[i - pre.len()] && all[j] == blk[j - pre.len()]);
                assert(digit_of(bi, width, offset) == dm);
                assert(digit_of(bj, width, offset) == dm);
                assert(blk[i - pre.len()].bits() % pow2(offset) <= blk[j - pre.len()].bits()
                    % pow2(offset));
                lemma_low_le(bi, bj, width, offset);
            } else {
                assert(all[i] == pre[i] && all[j] == blk[j - pre.len()]);
                assert(digit_of(pre[i].bits(), width, offset) < dm + 1);
                assert(digit_of(bj, width, offset) == dm);
                lemma_low_le(bi, bj, width, offset);
            }
        }
    }
}

/// An already digit-sorted sequence sorted on its low `offset` bits is
/// sorted on its low `offset + width` bits as it stands.
pub proof fn lemma_digit_sorted_low_sorted<T: RadixSortable>(s: Seq<T>, width: nat, offset: nat)
    requires
        low_sorted(s, offset),
        digit_sorted(s, width, offset),
    ensures
        low_sorted(s, offset + width),
{
    assert forall|i: int, j: int| 0 <= i < j < s.len() implies s[i].bits() % pow2(offset + width)
        <= s[j].bits() % pow2(offset + width) by {
        let bi = s[i].bits();
        let bj = s[j].bits();
        assert(digit_of(bi, width, offset) <= digit_of(bj, width, offset));
        assert(bi % pow2(offset) <= bj % pow2(offset));
        lemma_low_le(bi, bj, width, offset);
    }
}

/// A prefix never holds more elements of a digit than the whole sequence.
pub proof fn lemma_with_digit_prefix_le<T: RadixSortable>(
    s: Seq<T>,
    width: nat,
    offset: nat,
    d: nat,
    k: int,
)
    requires
        0 <= k <= s.len(),
    ensures
        with_digit(s.subrange(0, k), width, offset, d).len() <= with_digit(s, width, offset, d).len(),
    decreases s.len() - k,
{
    if k == s.len() {
        assert(s.subrange(0, k) =~= s);
    } else {
        assert(s.subrange(0, k + 1) =~= s.subrange(0, k).push(s[k]));
        lemma_filter_push(s.subrange(0, k), digit_pred::<T>(width, offset, d), s[k]);
        lemma_with_digit_prefix_le(s, width, offset, d, k + 1);
    }
}

/// A sequence whose every digit block stands at that block's place in the
/// grouping is, up to the grouped length, the grouping itself.
pub proof fn lemma_blocks_assemble<T: RadixSortable>(
    t: Seq<T>,
    s: Seq<T>,
    width: nat,
    offset: nat,
    d: nat,
)
    requires
        buckets_below(s, width, offset, d).len() <= t.len(),
        forall|e: nat| e < d ==> t.subrange(
            buckets_below(s, width, offset, e).len() as int,
            buckets_below(s, width, offset, e).len() as int + with_digit(
                s,
                width,
                offset,
                e,
            ).len() as int,
        ) == with_digit(s, width, offset, e),
    ensures
        t.subrange(0, buckets_below(s, width, offset, d).len() as int) == buckets_below(
            s,
            width,
            offset,
            d,
        ),
    decreases d,
{
    if d == 0 {
        assert(t.subrange(0, 0) =~= Seq::<T>::empty());
    } else {
        let dm = (d - 1) as nat;
        let l1 = buckets_below(s, width, offset, dm).len() as int;
        let l2 = buckets_below(s, width, offset, d).len() as int;
        lemma_blocks_assemble(t, s, width, offset, dm);
        assert(t.subrange(l1, l2) == with_digit(s, width, offset, dm));
        assert(t.subrange(0, l2) =~= t.subrange(0, l1) + t.subrange(l1, l2));
    }
}

} // verus!
