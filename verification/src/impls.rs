//! `RadixSortable` for the machine integers, and for IEEE float bit
//! patterns carried as plain unsigned integers.
use vstd::prelude::*;

verus! {

use vstd::arithmetic::power2::lemma2_to64;
use vstd::arithmetic::power2::lemma2_to64_rest;
use vstd::arithmetic::power2::lemma_pow2_strictly_increases;
use vstd::arithmetic::power2::pow2;
use vstd::bits::lemma_u64_shr_is_div;
use vstd::bits::lemma_u64_shl_is_mul;
use vstd::bits::lemma_u64_low_bits_mask_is_mod;
use vstd::bits::low_bits_mask;
use crate::model::digit_of;
use crate::RadixSortable;

/// The `width`-bit digit at bit `offset` of a pattern held in a `u64`.
fn extract_digit64(x: u64, width: usize, offset: usize) -> (r: usize)
    requires
        0 < width <= 16,
        offset + width <= 64,
    ensures
        r == digit_of(x as nat, width as nat, offset as nat),
        r < pow2(width as nat),
{
    let shifted: u64 = x >> (offset as u64);
    proof {
        reveal(crate::model::digit_of);
        lemma_u64_shr_is_div(x, offset as u64);
        lemma2_to64();
        if width < 16 {
            lemma_pow2_strictly_increases(width as nat, 16);
        }
    }
    proof {
        lemma_u64_shl_is_mul(1u64, width as u64);
    }
    let mask: u64 = (1u64 << (width as u64)) - 1;
    proof {
        assert(mask == low_bits_mask(width as nat) as u64);
        lemma_u64_low_bits_mask_is_mod(shifted, width as nat);
    }
    (shifted & mask) as usize
}

impl RadixSortable for u8 {
    open spec fn total_bits() -> nat {
        8
    }

    open spec fn signed() -> bool {
        false
    }

    open spec fn float() -> bool {
        false
    }

    open spec fn bits(self) -> nat {
        self as nat
    }

    open spec fn key(self) -> int {
        self as int
    }

    open spec fn negative(self) -> bool {
        false
    }

    proof fn laws(self) {
        lemma2_to64();
    }

    proof fn width_laws() {
    }

    proof fn bits_injective(a: Self, b: Self) {
    }

    fn total_bits_exec() -> usize {
        8
    }

    fn signed_exec() -> bool {
        false
    }

    fn float_exec() -> bool {
        false
    }

    fn offset_bits(&self, width: usize, offset: usize) -> usize {
        extract_digit64(*self as u64, width, offset)
    }

    fn is_negative(&self) -> bool {
        false
    }

    fn zeroed() -> Self {
        0
    }
}

impl RadixSortable for u16 {
    open spec fn total_bits() -> nat {
        16
    }

    open spec fn signed() -> bool {
        false
    }

    open spec fn float() -> bool {
        false
    }

    open spec fn bits(self) -> nat {
        self as nat
    }

    open spec fn key(self) -> int {
        self as int
    }

    open spec fn negative(self) -> bool {
        false
    }

    proof fn laws(self) {
        lemma2_to64();
    }

    proof fn width_laws() {
    }

    proof fn bits_injective(a: Self, b: Self) {
    }

    fn total_bits_exec() -> usize {
        16
    }

    fn signed_exec() -> bool {
        false
    }

    fn float_exec() -> bool {
        false
    }

    fn offset_bits(&self, width: usize, offset: usize) -> usize {
        extract_digit64(*self as u64, width, offset)
    }

    fn is_negative(&self) -> bool {
        false
    }

    fn zeroed() -> Self {
        0
    }
}

impl RadixSortable for u32 {
    open spec fn total_bits() -> nat {
        32
    }

    open spec fn signed() -> bool {
        false
    }

    open spec fn float() -> bool {
        false
    }

    open spec fn bits(self) -> nat {
        self as nat
    }

    open spec fn key(self) -> int {
        self as int
    }

    open spec fn negative(self) -> bool {
        false
    }

    proof fn laws(self) {
        lemma2_to64();
    }

    proof fn width_laws() {
    }

    proof fn bits_injective(a: Self, b: Self) {
    }

    fn total_bits_exec() -> usize {
        32
    }

    fn signed_exec() -> bool {
        false
    }

    fn float_exec() -> bool {
        false
    }

    fn offset_bits(&self, width: usize, offset: usize) -> usize {
        extract_digit64(*self as u64, width, offset)
    }

    fn is_negative(&self) -> bool {
        false
    }

    fn zeroed() -> Self {
        0
    }
}

impl RadixSortable for u64 {
    open spec fn total_bits() -> nat {
        64
    }

    open spec fn signed() -> bool {
        false
    }

    open spec fn float() -> bool {
        false
    }

    open spec fn bits(self) -> nat {
        self as nat
    }

    open spec fn key(self) -> int {
        self as int
    }

    open spec fn negative(self) -> bool {
        false
    }

    proof fn laws(self) {
        lemma2_to64();
    }

    proof fn width_laws() {
    }

    proof fn bits_injective(a: Self, b: Self) {
    }

    fn total_bits_exec() -> usize {
        64
    }

    fn signed_exec() -> bool {
        false
    }

    fn float_exec() -> bool {
        false
    }

    fn offset_bits(&self, width: usize, offset: usize) -> usize {
        extract_digit64(*self, width, offset)
    }

    fn is_negative(&self) -> bool {
        false
    }

    fn zeroed() -> Self {
        0
    }
}

impl RadixSortable for i8 {
    open spec fn total_bits() -> nat {
        8
    }

    open spec fn signed() -> bool {
        true
    }

    open spec fn float() -> bool {
        false
    }

    open spec fn bits(self) -> nat {
        if self >= 0 {
            self as nat
        } else {
            (self + 0x100) as nat
        }
    }

    open spec fn key(self) -> int {
        self as int
    }

    open spec fn negative(self) -> bool {
        self < 0
    }

    proof fn laws(self) {
        lemma2_to64();
    }

    proof fn width_laws() {
    }

    proof fn bits_injective(a: Self, b: Self) {
    }

    fn total_bits_exec() -> usize {
        8
    }

    fn signed_exec() -> bool {
        true
    }

    fn float_exec() -> bool {
        false
    }

    fn offset_bits(&self, width: usize, offset: usize) -> usize {
        let wide: i64 = *self as i64;
        let pat: u64 = if wide >= 0 {
            wide as u64
        } else {
            (wide + 0x100i64) as u64
        };
        extract_digit64(pat, width, offset)
    }

    fn is_negative(&self) -> bool {
        *self < 0
    }

    fn zeroed() -> Self {
        0
    }
}

impl RadixSortable for i16 {
    open spec fn total_bits() -> nat {
        16
    }

    open spec fn signed() -> bool {
        true
    }

    open spec fn float() -> bool {
        false
    }

    open spec fn bits(self) -> nat {
        if self >= 0 {
            self as nat
        } else {
            (self + 0x10000) as nat
        }
    }

    open spec fn key(self) -> int {
        self as int
    }

    open spec fn negative(self) -> bool {
        self < 0
    }

    proof fn laws(self) {
        lemma2_to64();
    }

    proof fn width_laws() {
    }

    proof fn bits_injective(a: Self, b: Self) {
    }

    fn total_bits_exec() -> usize {
        16
    }

    fn signed_exec() -> bool {
        true
    }

    fn float_exec() -> bool {
        false
    }

    fn offset_bits(&self, width: usize, offset: usize) -> usize {
        let wide: i64 = *self as i64;
        let pat: u64 = if wide >= 0 {
            wide as u64
        } else {
            (wide + 0x10000i64) as u64
        };
        extract_digit64(pat, width, offset)
    }

    fn is_negative(&self) -> bool {
        *self < 0
    }

    fn zeroed() -> Self {
        0
    }
}

impl RadixSortable for i32 {
    open spec fn total_bits() -> nat {
        32
    }

    open spec fn signed() -> bool {
        true
    }

    open spec fn float() -> bool {
        false
    }

    open spec fn bits(self) -> nat {
        if self >= 0 {
            self as nat
        } else {
            (self + 0x1_0000_0000) as nat
        }
    }

    open spec fn key(self) -> int {
        self as int
    }

    open spec fn negative(self) -> bool {
        self < 0
    }

    proof fn laws(self) {
        lemma2_to64();
    }

    proof fn width_laws() {
    }

    proof fn bits_injective(a: Self, b: Self) {
    }

    fn total_bits_exec() -> usize {
        32
    }

    fn signed_exec() -> bool {
        true
    }

    fn float_exec() -> bool {
        false
    }

    fn offset_bits(&self, width: usize, offset: usize) -> usize {
        let wide: i64 = *self as i64;
        let pat: u64 = if wide >= 0 {
            wide as u64
        } else {
            (wide + 0x1_0000_0000i64) as u64
        };
        extract_digit64(pat, width, offset)
    }

    fn is_negative(&self) -> bool {
        *self < 0
    }

    fn zeroed() -> Self {
        0
    }
}

impl RadixSortable for i64 {
    open spec fn total_bits() -> nat {
        64
    }

    open spec fn signed() -> bool {
        true
    }

    open spec fn float() -> bool {
        false
    }

    open spec fn bits(self) -> nat {
        if self >= 0 {
            self as nat
        } else {
            (self + 0x1_0000_0000_0000_0000) as nat
        }
    }

    open spec fn key(self) -> int {
        self as int
    }

    open spec fn negative(self) -> bool {
        self < 0
    }

    proof fn laws(self) {
        lemma2_to64();
        lemma2_to64_rest();
    }

    proof fn width_laws() {
    }

    proof fn bits_injective(a: Self, b: Self) {
    }

    fn total_bits_exec() -> usize {
        64
    }

    fn signed_exec() -> bool {
        true
    }

    fn float_exec() -> bool {
        false
    }

    fn offset_bits(&self, width: usize, offset: usize) -> usize {
        let wide: i128 = *self as i128;
        let pat: u64 = if wide >= 0 {
            wide as u64
        } else {
            (wide + 0x1_0000_0000_0000_0000i128) as u64
        };
        extract_digit64(pat, width, offset)
    }

    fn is_negative(&self) -> bool {
        *self < 0
    }

    fn zeroed() -> Self {
        0
    }
}

/// An `f32` value carried as its IEEE-754 bit pattern.
///
/// Holding the pattern as a plain `u32` keeps the element fixed-width and
/// comparison-free; converting an `f32` to and from this type is
/// `f32::to_bits` / `f32::from_bits` at the caller.
#[derive(Clone, Copy, Debug, PartialEq, Eq, Structural)]
pub struct F32Bits {
    /// The IEEE-754 single-precision bit pattern.
    pub raw: u32,
}

impl RadixSortable for F32Bits {
    open spec fn total_bits() -> nat {
        32
    }

    open spec fn signed() -> bool {
        true
    }

    open spec fn float() -> bool {
        true
    }

    open spec fn bits(self) -> nat {
        self.raw as nat
    }

    open spec fn key(self) -> int {
        if self.raw >= 0x8000_0000 {
            -(self.raw as int)
        } else {
            self.raw as int
        }
    }

    open spec fn negative(self) -> bool {
        self.raw >= 0x8000_0000
    }

    proof fn laws(self) {
        lemma2_to64();
    }

    proof fn width_laws() {
    }

    proof fn bits_injective(a: Self, b: Self) {
    }

    fn total_bits_exec() -> usize {
        32
    }

    fn signed_exec() -> bool {
        true
    }

    fn float_exec() -> bool {
        true
    }

    fn offset_bits(&self, width: usize, offset: usize) -> usize {
        extract_digit64(self.raw as u64, width, offset)
    }

    fn is_negative(&self) -> bool {
        self.raw >= 0x8000_0000
    }

    fn zeroed() -> Self {
        F32Bits { raw: 0 }
    }
}

/// An `f64` value carried as its IEEE-754 bit pattern.
///
/// The double-precision counterpart of [`F32Bits`].
#[derive(Clone, Copy, Debug, PartialEq, Eq, Structural)]
pub struct F64Bits {
    /// The IEEE-754 double-precision bit pattern.
    pub raw: u64,
}

impl RadixSortable for F64Bits {
    open spec fn total_bits() -> nat {
        64
    }

    open spec fn signed() -> bool {
        true
    }

    open spec fn float() -> bool {
        true
    }

    open spec fn bits(self) -> nat {
        self.raw as nat
    }

    open spec fn key(self) -> int {
        if self.raw >= 0x8000_0000_0000_0000 {
            -(self.raw as int)
        } else {
            self.raw as int
        }
    }

    open spec fn negative(self) -> bool {
        self.raw >= 0x8000_0000_0000_0000
    }

    proof fn laws(self) {
        lemma2_to64();
        lemma2_to64_rest();
    }

    proof fn width_laws() {
    }

    proof fn bits_injective(a: Self, b: Self) {
    }

    fn total_bits_exec() -> usize {
        64
    }

    fn signed_exec() -> bool {
        true
    }

    fn float_exec() -> bool {
        true
    }

    fn offset_bits(&self, width: usize, offset: usize) -> usize {
        extract_digit64(self.raw, width, offset)
    }

    fn is_negative(&self) -> bool {
        self.raw >= 0x8000_0000_0000_0000
    }

    fn zeroed() -> Self {
        F64Bits { raw: 0 }
    }
}

} // verus!
