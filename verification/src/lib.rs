//! Least-significant-digit radix sort for fixed-width numeric keys.
//!
//! Elements are sorted by their raw bit patterns, one digit at a time,
//! alternating between the caller's buffer and a scratch buffer; a final
//! fixup restores numeric order for signed and IEEE-float bit patterns.
use vstd::prelude::*;

pub mod model;
pub mod buckets;
pub mod impls;
pub mod pass;
pub mod fixup;
pub mod laws;

verus! {

use vstd::arithmetic::mul::lemma_mul_inequality;
use vstd::arithmetic::power2::lemma2_to64;
use vstd::arithmetic::power2::pow2;
use crate::fixup::apply_sign_fixup;
use crate::fixup::count_nonneg_prefix;
use crate::fixup::lemma_fixup_sorted;
use crate::fixup::lemma_negative_suffix;
use crate::fixup::lemma_unsigned_sorted;
use crate::model::digit_of;
use crate::model::key_of_bits;
use crate::model::lemma_low_sorted_is_bits_sorted;
use crate::model::low_sorted;
use crate::model::sorted_by_key;
use crate::pass::copy_into;
use crate::pass::lemma_pass_advance;
use crate::pass::radix_sort_pass;

/// A fixed-width numeric type whose bit pattern the sort can take apart
/// digit by digit.
///
/// The spec side describes each element by its raw bit pattern (`bits`),
/// the numeric key that pattern stands for (`key`), and its sign
/// (`negative`); the laws tie the three together so that sorting by
/// pattern plus the sign/float fixup yields the numeric order.
pub trait RadixSortable: Copy + Sized {
    /// The width of the bit pattern.
    spec fn total_bits() -> nat;

    /// Whether the pattern carries a sign bit that the fixup must honour.
    spec fn signed() -> bool;

    /// Whether the pattern is IEEE sign-magnitude rather than two's
    /// complement.
    spec fn float() -> bool;

    /// The element's raw bit pattern.
    spec fn bits(self) -> nat;

    /// The numeric value the element stands for, as a totally ordered key.
    spec fn key(self) -> int;

    /// Whether the element is negative.
    spec fn negative(self) -> bool;

    /// The pattern fits the width, the sign is the top bit of a signed
    /// pattern, and the key is the standard reading of the pattern.
    proof fn laws(self)
        ensures
            self.bits() < pow2(Self::total_bits()),
            self.negative() == (Self::signed() && self.bits() >= pow2(
                (Self::total_bits() - 1) as nat,
            )),
            self.key() == key_of_bits(
                Self::signed(),
                Self::float(),
                Self::total_bits(),
                self.bits(),
            ),
    ;

    /// The width is one of the supported machine widths.
    proof fn width_laws()
        ensures
            Self::total_bits() == 8 || Self::total_bits() == 16 || Self::total_bits() == 32
                || Self::total_bits() == 64,
    ;

    /// Elements with equal patterns are equal.
    proof fn bits_injective(a: Self, b: Self)
        requires
            a.bits() == b.bits(),
        ensures
            a == b,
    ;

    /// The width of the bit pattern.
    fn total_bits_exec() -> (r: usize)
        ensures
            r == Self::total_bits(),
    ;

    /// Whether the fixup stage must reorder for a sign bit.
    fn signed_exec() -> (r: bool)
        ensures
            r == Self::signed(),
    ;

    /// Whether the pattern is an IEEE float's.
    fn float_exec() -> (r: bool)
        ensures
            r == Self::float(),
    ;

    /// The `width`-bit digit of the element's pattern at bit `offset`.
    fn offset_bits(&self, width: usize, offset: usize) -> (r: usize)
        requires
            0 < width <= 16,
            offset + width <= Self::total_bits(),
        ensures
            r == digit_of(self.bits(), width as nat, offset as nat),
    ;

    /// Whether the element is negative.
    fn is_negative(&self) -> (r: bool)
        ensures
            r == self.negative(),
    ;

    /// An arbitrary element, used to fill freshly allocated scratch slots.
    fn zeroed() -> Self;
}

/// Allocates a scratch buffer of `len` slots for a sort of sequences of
/// that length; the slots' initial contents carry no meaning.
pub fn make_buf<T: RadixSortable>(len: usize) -> (r: Vec<T>)
    ensures
        r.len() == len,
{
    let filler = T::zeroed();
    vec![filler; len]
}

/// Chooses the narrow digit width: always for single-byte elements, and
/// otherwise whenever the input is small enough that the wide counter
/// table would cost more than the saved passes.
pub fn should_use_small_algo<T: RadixSortable>(len: usize) -> (r: bool)
    ensures
        r == (T::total_bits() == 8 || len * (T::total_bits() / 8) < 8096),
{
    proof {
        T::width_laws();
    }
    let size = T::total_bits_exec() / 8;
    if size == 1 {
        return true;
    }
    if len >= 8096 {
        proof {
            lemma_mul_inequality(8096int, len as int, size as int);
        }
        return false;
    }
    proof {
        lemma_mul_inequality(len as int, 8095int, size as int);
    }
    len * size < 8096
}

/// Sorts `values` ascending by each element's numeric key, using `buf` as
/// scratch space of the same length; `buf` is left holding unspecified
/// leftovers of the passes.
pub fn radix_sort<T: RadixSortable>(values: &mut Vec<T>, buf: &mut Vec<T>)
    requires
        old(values).len() == old(buf).len(),
    ensures
        final(values).len() == old(values).len(),
        final(buf).len() == old(buf).len(),
        sorted_by_key(final(values)@),
        final(values)@.to_multiset() == old(values)@.to_multiset(),
{
    let n = values.len();
    let small = should_use_small_algo::<T>(n);
    let width: usize = if small {
        8
    } else {
        16
    };
    let nb: usize = if small {
        256
    } else {
        65536
    };
    proof {
        lemma2_to64();
        T::width_laws();
        assert(nb == pow2(width as nat));
    }
    let total = T::total_bits_exec();
    let passes = total / width;
    proof {
        assert(passes * width == total);
        assert(1 <= passes <= 8);
    }
    let mut counters: Vec<usize> = vec![0usize; nb];
    proof {
        assert(low_sorted(values@, 0nat)) by {
            assert(pow2(0nat) == 1);
        }
    }
    let mut p: usize = 0;
    while p < passes
        invariant
            counters.len() == nb,
            nb == pow2(width as nat),
            width == 8 || width == 16,
            passes * width == total,
            1 <= passes <= 8,
            total == T::total_bits(),
            p <= passes,
            values.len() == n,
            buf.len() == n,
            p % 2 == 0 ==> values@.to_multiset() == old(values)@.to_multiset() && low_sorted(
                values@,
                (p * width) as nat,
            ),
            p % 2 == 1 ==> buf@.to_multiset() == old(values)@.to_multiset() && low_sorted(
                buf@,
                (p * width) as nat,
            ),
        decreases passes - p,
    {
        proof {
            lemma_mul_inequality(p as int + 1, passes as int, width as int);
            assert((p as int + 1) * (width as int) == p as int * (width as int) + width as int)
                by (nonlinear_arith);
            assert(p * width + width <= total);
        }
        let off = p * width;
        if p % 2 == 0 {
            let ghost before = values@;
            radix_sort_pass(&mut counters, &*values, buf, width, off);
            proof {
                lemma_pass_advance(before, buf@, width as nat, off as nat);
                assert((p + 1) * width == p * width + width) by (nonlinear_arith);
            }
        } else {
            let ghost before = buf@;
            radix_sort_pass(&mut counters, &*buf, values, width, off);
            proof {
                lemma_pass_advance(before, values@, width as nat, off as nat);
                assert((p + 1) * width == p * width + width) by (nonlinear_arith);
            }
        }
        p += 1;
    }
    let odd = passes % 2 == 1;
    proof {
        let cur = if odd {
            buf@
        } else {
            values@
        };
        assert(low_sorted(cur, T::total_bits()));
        assert forall|i: int| 0 <= i < cur.len() implies cur[i].bits() < pow2(
            T::total_bits(),
        ) by {
            cur[i].laws();
        }
        lemma_low_sorted_is_bits_sorted(cur, T::total_bits());
    }
    if !T::signed_exec() {
        if odd {
            copy_into(&*buf, values);
        }
        proof {
            lemma_unsigned_sorted(values@);
        }
    } else {
        if !odd {
            copy_into(&*values, buf);
        }
        let split = count_nonneg_prefix(&*buf);
        proof {
            if split < buf.len() {
                lemma_negative_suffix(buf@, split as int);
            }
        }
        apply_sign_fixup(&*buf, values, split);
        proof {
            lemma_fixup_sorted(buf@, values@, split as int);
        }
    }
}

} // verus!
