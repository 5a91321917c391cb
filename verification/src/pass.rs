//! One counting/distribution pass: count the digits, turn the counts into
//! bucket start positions, and scatter the elements stably into the
//! destination buffer — or, when the scan finds the digits already in
//! order, fall back to a plain copy.
use vstd::prelude::*;

verus! {

use vstd::arithmetic::power2::pow2;
use crate::buckets::buckets_below;
use crate::buckets::digit_pred;
use crate::buckets::lemma_buckets_len_monotone;
use crate::buckets::lemma_buckets_low_sorted;
use crate::buckets::lemma_buckets_multiset;
use crate::buckets::lemma_digit_sorted_low_sorted;
use crate::buckets::lemma_filter_push;
use crate::buckets::lemma_with_digit_prefix_le;
use crate::buckets::with_digit;
use crate::model::digit_of;
use crate::model::digit_sorted;
use crate::model::lemma_digit_bound;
use crate::model::low_sorted;
use crate::RadixSortable;

/// Copies the source buffer over the destination buffer.
pub(crate) fn copy_into<T: RadixSortable>(src: &Vec<T>, dst: &mut Vec<T>)
    requires
        old(dst).len() == src.len(),
    ensures
        final(dst)@ == src@,
{
    let n = src.len();
    let mut k: usize = 0;
    while k < n
        invariant
            dst.len() == n,
            n == src.len(),
            k <= n,
            forall|i: int| 0 <= i < k ==> dst@[i] == src@[i],
        decreases n - k,
    {
        dst[k] = src[k];
        k += 1;
    }
    proof {
        assert(dst@ =~= src@);
    }
}

/// Counts each digit's occurrences into `counters` — the table is zeroed at
/// entry, so the final counts depend on `values` alone — and reports whether
/// the scan found the digits already in non-decreasing order.
fn update<T: RadixSortable>(
    counters: &mut Vec<usize>,
    values: &Vec<T>,
    width: usize,
    offset: usize,
) -> (already: bool)
    requires
        0 < width <= 16,
        old(counters).len() == pow2(width as nat),
        offset + width <= T::total_bits(),
    ensures
        final(counters).len() == old(counters).len(),
        already == digit_sorted(values@, width as nat, offset as nat),
        forall|e: int|
            0 <= e < final(counters).len() ==> final(counters)@[e] == with_digit(
                values@,
                width as nat,
                offset as nat,
                e as nat,
            ).len(),
{
    let ghost s = values@;
    let ghost w = width as nat;
    let ghost o = offset as nat;
    let nb = counters.len();
    let mut d: usize = 0;
    while d < nb
        invariant
            counters.len() == nb,
            d <= nb,
            forall|e: int| 0 <= e < d ==> counters@[e] == 0,
        decreases nb - d,
    {
        counters[d] = 0;
        d += 1;
    }
    proof {
        assert(s.subrange(0, 0) =~= Seq::<T>::empty());
        assert forall|e: int| 0 <= e < nb implies counters@[e] == with_digit(
            s.subrange(0, 0),
            w,
            o,
            e as nat,
        ).len() by {
            reveal(Seq::filter);
        }
    }
    let n = values.len();
    let mut k: usize = 0;
    let mut last: usize = 0;
    let mut srt: bool = true;
    while k < n
        invariant
            counters.len() == nb,
            nb == pow2(w),
            0 < width <= 16,
            offset + width <= T::total_bits(),
            w == width as nat,
            o == offset as nat,
            s == values@,
            n == s.len(),
            k <= n,
            forall|e: int|
                0 <= e < nb ==> counters@[e] == with_digit(
                    s.subrange(0, k as int),
                    w,
                    o,
                    e as nat,
                ).len(),
            srt ==> digit_sorted(s.subrange(0, k as int), w, o),
            srt && k > 0 ==> last == digit_of(s[k as int - 1].bits(), w, o),
            k == 0 ==> last == 0,
            !srt ==> !digit_sorted(s, w, o),
        decreases n - k,
    {
        let x = values[k];
        let idx = x.offset_bits(width, offset);
        proof {
            lemma_digit_bound(x.bits(), w, o);
            s.subrange(0, k as int).lemma_filter_len(digit_pred::<T>(w, o, idx as nat));
        }
        let c = counters[idx];
        counters[idx] = c + 1;
        if idx < last {
            proof {
                if srt {
                    let ii = k as int - 1;
                    let jj = k as int;
                    assert(0 <= ii && ii < jj && jj < s.len());
                    assert(digit_of(s[ii].bits(), w, o) > digit_of(s[jj].bits(), w, o));
                    assert(!digit_sorted(s, w, o));
                }
            }
            srt = false;
        } else if srt {
            proof {
                let pre1 = s.subrange(0, k as int + 1);
                assert forall|i: int, j: int| 0 <= i < j < pre1.len() implies digit_of(
                    pre1[i].bits(),
                    w,
                    o,
                ) <= digit_of(pre1[j].bits(), w, o) by {
                    let pre = s.subrange(0, k as int);
                    if j < k as int {
                        assert(pre1[i] == pre[i] && pre1[j] == pre[j]);
                        assert(digit_of(pre[i].bits(), w, o) <= digit_of(pre[j].bits(), w, o));
                    } else {
                        assert(pre1[j] == s[k as int]);
                        if i < k as int - 1 {
                            assert(pre1[i] == pre[i] && pre[k as int - 1] == s[k as int - 1]);
                            assert(digit_of(pre[i].bits(), w, o) <= digit_of(
                                pre[k as int - 1].bits(),
                                w,
                                o,
                            ));
                        }
                    }
                }
            }
            last = idx;
        }
        proof {
            let pre = s.subrange(0, k as int);
            assert(s.subrange(0, k as int + 1) =~= pre.push(s[k as int]));
            assert forall|e: int| 0 <= e < nb implies counters@[e] == with_digit(
                s.subrange(0, k as int + 1),
                w,
                o,
                e as nat,
            ).len() by {
                lemma_filter_push(pre, digit_pred::<T>(w, o, e as nat), s[k as int]);
            }
        }
        k += 1;
    }
    proof {
        assert(s.subrange(0, n as int) =~= s);
    }
    srt
}

/// Runs one distribution pass: the destination receives the elements of
/// `values` stably grouped by their digit at `offset` — or, when the scan
/// finds the digits already in order, a straight copy of `values`. The
/// counter table is left holding each digit's count on that early-exit
/// path, and each bucket's end offset (the inclusive prefix sum of the
/// counts) after a full scatter.
pub(crate) fn radix_sort_pass<T: RadixSortable>(
    counters: &mut Vec<usize>,
    values: &Vec<T>,
    out: &mut Vec<T>,
    width: usize,
    offset: usize,
)
    requires
        0 < width <= 16,
        old(counters).len() == pow2(width as nat),
        old(out).len() == values.len(),
        offset + width <= T::total_bits(),
    ensures
        final(counters).len() == old(counters).len(),
        final(out).len() == values.len(),
        final(out)@ == buckets_below(values@, width as nat, offset as nat, pow2(width as nat)) || (
        digit_sorted(values@, width as nat, offset as nat) && final(out)@ == values@),
        digit_sorted(values@, width as nat, offset as nat) ==> forall|e: int|
            0 <= e < final(counters).len() ==> final(counters)@[e] == with_digit(
                values@,
                width as nat,
                offset as nat,
                e as nat,
            ).len(),
        !digit_sorted(values@, width as nat, offset as nat) ==> forall|e: int|
            0 <= e < final(counters).len() ==> final(counters)@[e] == buckets_below(
                values@,
                width as nat,
                offset as nat,
                (e + 1) as nat,
            ).len(),
{
    let ghost s = values@;
    let ghost w = width as nat;
    let ghost o = offset as nat;
    let already = update(counters, values, width, offset);
    if already {
        copy_into(values, out);
        return ;
    }
    proof {
        lemma_buckets_multiset(s, w, o);
    }
    let nb = counters.len();
    let n = values.len();
    let mut prefix: usize = 0;
    let mut d: usize = 0;
    while d < nb
        invariant
            counters.len() == nb,
            nb == pow2(w),
            d <= nb,
            n == s.len(),
            s == values@,
            buckets_below(s, w, o, pow2(w)).len() == n,
            forall|e: int| 0 <= e < d ==> counters@[e] == buckets_below(s, w, o, e as nat).len(),
            forall|e: int|
                d <= e < nb ==> counters@[e] == with_digit(s, w, o, e as nat).len(),
            prefix == buckets_below(s, w, o, d as nat).len(),
        decreases nb - d,
    {
        let c = counters[d];
        counters[d] = prefix;
        proof {
            assert(buckets_below(s, w, o, d as nat + 1) == buckets_below(s, w, o, d as nat)
                + with_digit(s, w, o, d as nat));
            lemma_buckets_len_monotone(s, w, o, d as nat + 1, pow2(w));
        }
        prefix = prefix + c;
        d += 1;
    }
    proof {
        assert(s.subrange(0, 0) =~= Seq::<T>::empty());
        assert forall|e: int| 0 <= e < nb implies out@.subrange(
            buckets_below(s, w, o, e as nat).len() as int,
            counters@[e] as int,
        ) == with_digit(s.subrange(0, 0), w, o, e as nat) && (#[trigger] with_digit(
            s.subrange(0, 0),
            w,
            o,
            e as nat,
        )).len() == 0 by {
            reveal(Seq::filter);
            lemma_buckets_len_monotone(s, w, o, e as nat, pow2(w));
            let st = buckets_below(s, w, o, e as nat).len() as int;
            assert(out@.subrange(st, st) =~= Seq::<T>::empty());
            assert(with_digit(s.subrange(0, 0), w, o, e as nat) =~= Seq::<T>::empty());
        }
        assert forall|e: int| 0 <= e < nb implies counters@[e] <= n by {
            lemma_buckets_len_monotone(s, w, o, e as nat, pow2(w));
        }
    }
    let mut k: usize = 0;
    while k < n
        invariant
            counters.len() == nb,
            nb == pow2(w),
            0 < width <= 16,
            offset + width <= T::total_bits(),
            w == width as nat,
            o == offset as nat,
            s == values@,
            n == s.len(),
            out.len() == n,
            k <= n,
            buckets_below(s, w, o, pow2(w)).len() == n,
            forall|e: int|
                0 <= e < nb ==> counters@[e] == buckets_below(s, w, o, e as nat).len()
                    + with_digit(s.subrange(0, k as int), w, o, e as nat).len(),
            forall|e: int|
                0 <= e < nb ==> (#[trigger] with_digit(s.subrange(0, k as int), w, o, e as nat)).len()
                    <= with_digit(s, w, o, e as nat).len(),
            forall|e: int| 0 <= e < nb ==> counters@[e] <= n,
            forall|e: int|
                0 <= e < nb ==> out@.subrange(
                    buckets_below(s, w, o, e as nat).len() as int,
                    counters@[e] as int,
                ) == with_digit(s.subrange(0, k as int), w, o, e as nat),
        decreases n - k,
    {
        let ghost pre = s.subrange(0, k as int);
        let ghost pre1 = s.subrange(0, k as int + 1);
        let x = values[k];
        let idx = x.offset_bits(width, offset);
        proof {
            lemma_digit_bound(x.bits(), w, o);
        }
        let pos = counters[idx];
        proof {
            assert(pre1 =~= pre.push(x));
            lemma_filter_push(pre, digit_pred::<T>(w, o, idx as nat), x);
            assert(with_digit(pre1, w, o, idx as nat).len() == with_digit(pre, w, o, idx as nat).len() + 1);
            lemma_with_digit_prefix_le(s, w, o, idx as nat, k as int + 1);
            assert(buckets_below(s, w, o, idx as nat + 1) == buckets_below(s, w, o, idx as nat)
                + with_digit(s, w, o, idx as nat));
            lemma_buckets_len_monotone(s, w, o, idx as nat + 1, pow2(w));
            assert(pos + 1 <= buckets_below(s, w, o, idx as nat + 1).len());
            assert(pos < n);
        }
        let ghost out_pre = out@;
        let ghost counters_pre = counters@;
        out[pos] = x;
        counters[idx] = pos + 1;
        proof {
            assert(out@ =~= out_pre.update(pos as int, x));
            assert(counters@ =~= counters_pre.update(idx as int, (pos + 1) as usize));
            assert(s.subrange(0, k as int + 1) == s.subrange(0, (k + 1) as int));
            assert forall|e: int|
                0 <= e < nb implies counters@[e] == buckets_below(s, w, o, e as nat).len()
                + with_digit(pre1, w, o, e as nat).len() && (#[trigger] with_digit(
                pre1,
                w,
                o,
                e as nat,
            )).len() <= with_digit(s, w, o, e as nat).len() by {
                lemma_filter_push(pre, digit_pred::<T>(w, o, e as nat), x);
                lemma_with_digit_prefix_le(s, w, o, e as nat, k as int + 1);
                if e != idx as int {
                    assert(counters@[e] == counters_pre[e]);
                    assert(digit_of(x.bits(), w, o) != e as nat);
                    assert(with_digit(pre1, w, o, e as nat) == with_digit(pre, w, o, e as nat));
                }
            }
            assert forall|e: int| 0 <= e < nb implies counters@[e] <= n by {
                if e != idx as int {
                    assert(counters@[e] == counters_pre[e]);
                }
            }
            assert forall|e: int|
                0 <= e < nb implies out@.subrange(
                buckets_below(s, w, o, e as nat).len() as int,
                counters@[e] as int,
            ) == with_digit(pre1, w, o, e as nat) by {
                let st = buckets_below(s, w, o, e as nat).len() as int;
                lemma_filter_push(pre, digit_pred::<T>(w, o, e as nat), x);
                assert(out_pre.subrange(st, counters_pre[e] as int) == with_digit(
                    pre,
                    w,
                    o,
                    e as nat,
                ));
                assert(counters_pre[e] <= n);
                if e == idx as int {
                    assert(st <= pos);
                    assert(out@.subrange(st, pos + 1) =~= out_pre.subrange(st, pos as int).push(
                        x,
                    )) by {
                        assert(forall|q: int| st <= q < pos ==> out@[q] == #[trigger] out_pre[q]);
                        assert(out@[pos as int] == x);
                    }
                    assert(with_digit(pre1, w, o, e as nat) == with_digit(pre, w, o, e as nat).push(
                        x,
                    ));
                } else {
                    assert(counters@[e] == counters_pre[e]);
                    assert(with_digit(pre1, w, o, e as nat) == with_digit(pre, w, o, e as nat));
                    assert(buckets_below(s, w, o, e as nat + 1) == buckets_below(s, w, o, e as nat)
                        + with_digit(s, w, o, e as nat));
                    assert(counters_pre[e] <= buckets_below(s, w, o, e as nat + 1).len());
                    if e < idx as int {
                        lemma_buckets_len_monotone(s, w, o, e as nat + 1, idx as nat);
                        assert(counters_pre[e] <= buckets_below(s, w, o, idx as nat).len());
                        assert(counters_pre[e] <= pos);
                    } else {
                        lemma_buckets_len_monotone(s, w, o, idx as nat + 1, e as nat);
                        assert(pos + 1 <= buckets_below(s, w, o, e as nat).len());
                        assert(pos < st);
                    }
                    assert(out@.subrange(st, counters_pre[e] as int) =~= out_pre.subrange(
                        st,
                        counters_pre[e] as int,
                    ));
                }
            }
        }
        k += 1;
    }
    proof {
        assert(s.subrange(0, n as int) =~= s);
        assert forall|e: nat| e < pow2(w) implies out@.subrange(
            buckets_below(s, w, o, e).len() as int,
            buckets_below(s, w, o, e).len() as int + with_digit(s, w, o, e).len() as int,
        ) == with_digit(s, w, o, e) by {
            assert(counters@[e as int] == buckets_below(s, w, o, e).len() + with_digit(
                s.subrange(0, n as int),
                w,
                o,
                e,
            ).len());
            assert(with_digit(s.subrange(0, n as int), w, o, e) == with_digit(s, w, o, e));
            assert(out@.subrange(
                buckets_below(s, w, o, e).len() as int,
                counters@[e as int] as int,
            ) == with_digit(s.subrange(0, n as int), w, o, e));
        }
        crate::buckets::lemma_blocks_assemble(out@, s, w, o, pow2(w));
        assert(out@.subrange(0, n as int) =~= out@);
        assert forall|e: int| 0 <= e < nb implies counters@[e] == buckets_below(
            s,
            w,
            o,
            (e + 1) as nat,
        ).len() by {
            assert(counters@[e] == buckets_below(s, w, o, e as nat).len() + with_digit(
                s.subrange(0, n as int),
                w,
                o,
                e as nat,
            ).len());
            assert(with_digit(s.subrange(0, n as int), w, o, e as nat) == with_digit(
                s,
                w,
                o,
                e as nat,
            ));
            assert(buckets_below(s, w, o, (e + 1) as nat) == buckets_below(s, w, o, e as nat)
                + with_digit(s, w, o, e as nat));
        }
    }
}

/// One pass advances the sorted range of the bit patterns by `width` bits
/// and permutes nothing.
pub proof fn lemma_pass_advance<T: RadixSortable>(s: Seq<T>, t: Seq<T>, width: nat, offset: nat)
    requires
        low_sorted(s, offset),
        t == buckets_below(s, width, offset, pow2(width)) || (digit_sorted(s, width, offset) && t
            == s),
    ensures
        low_sorted(t, offset + width),
        t.to_multiset() == s.to_multiset(),
        t.len() == s.len(),
{
    if t == buckets_below(s, width, offset, pow2(width)) {
        lemma_buckets_low_sorted(s, width, offset, pow2(width));
        lemma_buckets_multiset(s, width, offset);
    } else {
        lemma_digit_sorted_low_sorted(s, width, offset);
    }
}

} // verus!
