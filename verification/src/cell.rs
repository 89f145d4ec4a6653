//! Cell widths: the wrapping unsigned integers a tape can be made of.

use vstd::prelude::*;

verus! {

/// An unsigned cell type with wrapping arithmetic.
///
/// A cell stands for the integer `val()`, which lies in `0..modulus()`.
pub trait BfOptimizable: Copy + Sized {
    /// One more than the largest value a cell can hold.
    spec fn modulus() -> int;

    /// The integer a cell stands for.
    spec fn val(self) -> int;

    /// The cell that stands for `v` reduced to the cell width.
    spec fn of(v: int) -> Self;

    /// The name of the matching unsigned type in emitted C source.
    spec fn c_name() -> Seq<char>;

    /// The modulus is that of one of the three supported widths.
    proof fn lemma_modulus()
        ensures
            Self::modulus() == 0x100 || Self::modulus() == 0x1_0000 || Self::modulus()
                == 0x1_0000_0000,
    ;

    /// Every cell value lies below the modulus.
    proof fn lemma_val_range(self)
        ensures
            0 <= self.val() < Self::modulus(),
    ;

    /// `of` reduces by the modulus.
    proof fn lemma_of(v: int)
        ensures
            Self::of(v).val() == v % Self::modulus(),
    ;

    /// Two cells that stand for the same integer are the same cell.
    proof fn lemma_val_injective(self, other: Self)
        requires
            self.val() == other.val(),
        ensures
            self == other,
    ;

    /// The cell holding zero.
    fn zero() -> (r: Self)
        ensures
            r.val() == 0,
    ;

    /// The cell holding the largest value.
    fn max() -> (r: Self)
        ensures
            r.val() == Self::modulus() - 1,
    ;

    /// The C type name for this width.
    fn c_int_name() -> (r: &'static str)
        ensures
            r@ == Self::c_name(),
    ;

    #[must_use]
    fn wrapping_add(self, other: Self) -> (r: Self)
        ensures
            r.val() == (self.val() + other.val()) % Self::modulus(),
    ;

    #[must_use]
    fn wrapping_sub(self, other: Self) -> (r: Self)
        ensures
            r.val() == (self.val() - other.val()) % Self::modulus(),
    ;

    #[must_use]
    fn wrapping_mul(self, other: Self) -> (r: Self)
        ensures
            r.val() == (self.val() * other.val()) % Self::modulus(),
    ;

    /// The low byte of the cell, as written to the output.
    #[must_use]
    fn truncate_u8(self) -> (r: u8)
        ensures
            r as int == self.val() % 0x100,
    ;

    /// Zero-extends an input byte to a cell.
    fn from_u8(byte: u8) -> (r: Self)
        ensures
            r.val() == byte as int,
    ;

    /// Reduces a run length to the cell width.
    fn truncate_from(v: u32) -> (r: Self)
        ensures
            r == Self::of(v as int),
            r.val() == (v as int) % Self::modulus(),
    ;

    /// The cell's value as a `u32`.
    fn into_u32(self) -> (r: u32)
        ensures
            r as int == self.val(),
    ;
}

impl BfOptimizable for u8 {
    open spec fn modulus() -> int {
        0x100
    }

    open spec fn val(self) -> int {
        self as int
    }

    open spec fn of(v: int) -> Self {
        (v % 0x100) as u8
    }

    open spec fn c_name() -> Seq<char> {
        "unsigned char"@
    }

    proof fn lemma_of(v: int) {
    }

    proof fn lemma_modulus() {
    }

    proof fn lemma_val_range(self) {
    }

    proof fn lemma_val_injective(self, other: Self) {
    }

    fn zero() -> (r: Self) {
        0
    }

    fn max() -> (r: Self) {
        u8::MAX
    }

    fn c_int_name() -> (r: &'static str) {
        "unsigned char"
    }

    fn wrapping_add(self, other: Self) -> (r: Self) {
        u8::wrapping_add(self, other)
    }

    fn wrapping_sub(self, other: Self) -> (r: Self) {
        u8::wrapping_sub(self, other)
    }

    fn wrapping_mul(self, other: Self) -> (r: Self) {
        u8::wrapping_mul(self, other)
    }

    fn truncate_u8(self) -> (r: u8) {
        self
    }

    fn from_u8(byte: u8) -> (r: Self) {
        byte
    }

    fn truncate_from(v: u32) -> (r: Self) {
        (v % 0x100) as u8
    }

    fn into_u32(self) -> (r: u32) {
        self as u32
    }
}

impl BfOptimizable for u16 {
    open spec fn modulus() -> int {
        0x1_0000
    }

    open spec fn val(self) -> int {
        self as int
    }

    open spec fn of(v: int) -> Self {
        (v % 0x1_0000) as u16
    }

    open spec fn c_name() -> Seq<char> {
        "unsigned short"@
    }

    proof fn lemma_of(v: int) {
    }

    proof fn lemma_modulus() {
    }

    proof fn lemma_val_range(self) {
    }

    proof fn lemma_val_injective(self, other: Self) {
    }

    fn zero() -> (r: Self) {
        0
    }

    fn max() -> (r: Self) {
        u16::MAX
    }

    fn c_int_name() -> (r: &'static str) {
        "unsigned short"
    }

    fn wrapping_add(self, other: Self) -> (r: Self) {
        u16::wrapping_add(self, other)
    }

    fn wrapping_sub(self, other: Self) -> (r: Self) {
        u16::wrapping_sub(self, other)
    }

    fn wrapping_mul(self, other: Self) -> (r: Self) {
        u16::wrapping_mul(self, other)
    }

    fn truncate_u8(self) -> (r: u8) {
        (self % 0x100) as u8
    }

    fn from_u8(byte: u8) -> (r: Self) {
        byte as u16
    }

    fn truncate_from(v: u32) -> (r: Self) {
        (v % 0x1_0000) as u16
    }

    fn into_u32(self) -> (r: u32) {
        self as u32
    }
}

impl BfOptimizable for u32 {
    open spec fn modulus() -> int {
        0x1_0000_0000
    }

    open spec fn val(self) -> int {
        self as int
    }

    open spec fn of(v: int) -> Self {
        (v % 0x1_0000_0000) as u32
    }

    open spec fn c_name() -> Seq<char> {
        "unsigned int"@
    }

    proof fn lemma_of(v: int) {
    }

    proof fn lemma_modulus() {
    }

    proof fn lemma_val_range(self) {
    }

    proof fn lemma_val_injective(self, other: Self) {
    }

    fn zero() -> (r: Self) {
        0
    }

    fn max() -> (r: Self) {
        u32::MAX
    }

    fn c_int_name() -> (r: &'static str) {
        "unsigned int"
    }

    fn wrapping_add(self, other: Self) -> (r: Self) {
        u32::wrapping_add(self, other)
    }

    fn wrapping_sub(self, other: Self) -> (r: Self) {
        u32::wrapping_sub(self, other)
    }

    fn wrapping_mul(self, other: Self) -> (r: Self) {
        u32::wrapping_mul(self, other)
    }

    fn truncate_u8(self) -> (r: u8) {
        (self % 0x100) as u8
    }

    fn from_u8(byte: u8) -> (r: Self) {
        byte as u32
    }

    fn truncate_from(v: u32) -> (r: Self) {
        v
    }

    fn into_u32(self) -> (r: u32) {
        self
    }
}

/// A value that fits in a byte is below every modulus.
pub proof fn lemma_byte_fits<C: BfOptimizable>(v: int)
    requires
        0 <= v < 0x100,
    ensures
        v % C::modulus() == v,
{
    C::lemma_modulus();
    let m = C::modulus();
    if m == 0x100 {
        assert(v % 0x100 == v);
    } else if m == 0x1_0000 {
        assert(v % 0x1_0000 == v);
    } else {
        assert(v % 0x1_0000_0000 == v);
    }
}

} // verus!
