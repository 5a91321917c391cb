//! The mathematical model of the sort: digits of a bit pattern, the numeric
//! key a bit pattern stands for, and the orderings the passes establish.
use vstd::prelude::*;

verus! {

use vstd::arithmetic::div_mod::lemma_breakdown;
use vstd::arithmetic::div_mod::lemma_small_mod;
use vstd::arithmetic::mul::lemma_mul_inequality;
use vstd::arithmetic::mul::lemma_mul_is_commutative;
use vstd::arithmetic::power2::lemma_pow2_adds;
use vstd::arithmetic::power2::lemma_pow2_pos;
use vstd::arithmetic::power2::pow2;
use crate::RadixSortable;

/// The `width`-bit digit of the bit pattern `b` starting at bit `offset`.
#[verifier::opaque]
pub open spec fn digit_of(b: nat, width: nat, offset: nat) -> nat {
    (b / pow2(offset)) % pow2(width)
}

/// The numeric value that a raw `width`-bit pattern `b` stands for, as an
/// order-preserving key: the pattern itself for unsigned types, the two's
/// complement reading for signed integers, and for IEEE floats the negated
/// pattern on the negative (sign bit set) half, whose patterns grow as the
/// numbers shrink.
pub open spec fn key_of_bits(signed: bool, float: bool, width: nat, b: nat) -> int {
    if !signed {
        b as int
    } else if b < pow2((width - 1) as nat) {
        b as int
    } else if float {
        -(b as int)
    } else {
        b as int - pow2(width) as int
    }
}

/// The sequence is non-decreasing under the elements' numeric keys.
pub open spec fn sorted_by_key<T: RadixSortable>(s: Seq<T>) -> bool {
    forall|i: int, j: int| 0 <= i < j < s.len() ==> s[i].key() <= s[j].key()
}

/// The sequence is non-decreasing under the low `c` bits of the patterns.
pub open spec fn low_sorted<T: RadixSortable>(s: Seq<T>, c: nat) -> bool {
    forall|i: int, j: int|
        0 <= i < j < s.len() ==> s[i].bits() % pow2(c) <= s[j].bits() % pow2(c)
}

/// The sequence is non-decreasing under the digit at `offset`.
pub open spec fn digit_sorted<T: RadixSortable>(s: Seq<T>, width: nat, offset: nat) -> bool {
    forall|i: int, j: int|
        0 <= i < j < s.len()
            ==> digit_of(s[i].bits(), width, offset) <= digit_of(s[j].bits(), width, offset)
}

/// The sequence is non-decreasing under the whole patterns.
pub open spec fn bits_sorted<T: RadixSortable>(s: Seq<T>) -> bool {
    forall|i: int, j: int| 0 <= i < j < s.len() ==> s[i].bits() <= s[j].bits()
}

/// A digit is always below `pow2(width)`.
pub proof fn lemma_digit_bound(b: nat, width: nat, offset: nat)
    ensures
        digit_of(b, width, offset) < pow2(width),
{
    reveal(digit_of);
    lemma_pow2_pos(width);
    lemma_pow2_pos(offset);
}

/// The low `offset + width` bits of a pattern decompose into the digit at
/// `offset` and the low `offset` bits.
pub proof fn lemma_low_decompose(b: nat, width: nat, offset: nat)
    ensures
        b % pow2(offset + width) == digit_of(b, width, offset) * pow2(offset) + b % pow2(offset),
{
    reveal(digit_of);
    lemma_pow2_pos(offset);
    lemma_pow2_pos(width);
    lemma_pow2_adds(offset, width);
    lemma_breakdown(b as int, pow2(offset) as int, pow2(width) as int);
    lemma_mul_is_commutative(pow2(offset) as int, ((b / pow2(offset)) % pow2(width)) as int);
}

/// Two patterns whose digits at `offset` differ are ordered, on their low
/// `offset + width` bits, as those digits are.
pub proof fn lemma_digit_orders_low(b1: nat, b2: nat, width: nat, offset: nat)
    requires
        digit_of(b1, width, offset) < digit_of(b2, width, offset),
    ensures
        b1 % pow2(offset + width) < b2 % pow2(offset + width),
{
    lemma_pow2_pos(offset);
    lemma_low_decompose(b1, width, offset);
    lemma_low_decompose(b2, width, offset);
    let d1 = digit_of(b1, width, offset);
    let d2 = digit_of(b2, width, offset);
    assert(b1 % pow2(offset) < pow2(offset));
    lemma_mul_inequality(d1 as int + 1, d2 as int, pow2(offset) as int);
    assert((d1 + 1) * pow2(offset) == d1 * pow2(offset) + pow2(offset)) by (nonlinear_arith);
}

/// Patterns whose digits at `offset` are ordered, and whose low `offset`
/// bits are ordered when the digits are equal, are ordered on their low
/// `offset + width` bits.
pub proof fn lemma_low_le(b1: nat, b2: nat, width: nat, offset: nat)
    requires
        digit_of(b1, width, offset) <= digit_of(b2, width, offset),
        digit_of(b1, width, offset) == digit_of(b2, width, offset) ==> b1 % pow2(offset)
            <= b2 % pow2(offset),
    ensures
        b1 % pow2(offset + width) <= b2 % pow2(offset + width),
{
    if digit_of(b1, width, offset) < digit_of(b2, width, offset) {
        lemma_digit_orders_low(b1, b2, width, offset);
    } else {
        lemma_low_decompose(b1, width, offset);
        lemma_low_decompose(b2, width, offset);
        lemma_sum_le(
            b1 % pow2(offset + width),
            b2 % pow2(offset + width),
            digit_of(b1, width, offset) * pow2(offset),
            digit_of(b2, width, offset) * pow2(offset),
            b1 % pow2(offset),
            b2 % pow2(offset),
        );
    }
}

/// Sums of pairwise ordered parts are ordered.
proof fn lemma_sum_le(x1: nat, x2: nat, u1: nat, u2: nat, r1: nat, r2: nat)
    requires
        x1 == u1 + r1,
        x2 == u2 + r2,
        u1 == u2,
        r1 <= r2,
    ensures
        x1 <= x2,
{
}

/// If all patterns are below `pow2(c)`, ordering by the low `c` bits is
/// ordering by the patterns themselves.
pub proof fn lemma_low_sorted_is_bits_sorted<T: RadixSortable>(s: Seq<T>, c: nat)
    requires
        low_sorted(s, c),
        forall|i: int| 0 <= i < s.len() ==> s[i].bits() < pow2(c),
    ensures
        bits_sorted(s),
{
    lemma_pow2_pos(c);
    assert forall|i: int, j: int| 0 <= i < j < s.len() implies s[i].bits() <= s[j].bits() by {
        lemma_small_mod(s[i].bits(), pow2(c));
        lemma_small_mod(s[j].bits(), pow2(c));
    }
}

/// Distinct patterns of `width` bits have distinct keys.
pub proof fn lemma_key_of_bits_injective(signed: bool, float: bool, width: nat, b1: nat, b2: nat)
    requires
        width >= 1,
        b1 < pow2(width),
        b2 < pow2(width),
        key_of_bits(signed, float, width, b1) == key_of_bits(signed, float, width, b2),
    ensures
        b1 == b2,
{
    lemma_pow2_pos((width - 1) as nat);
    lemma_pow2_pos(width);
}


} // verus!
