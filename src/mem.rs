//! Unsigned registers: the integers that hold a storage element or a value
//! loaded from a bit range.
use vstd::prelude::*;
use vstd::arithmetic::div_mod::lemma_small_mod;
use vstd::arithmetic::power2::{lemma2_to64, lemma2_to64_rest, lemma_pow2_strictly_increases, pow2};

verus! {

/// An unsigned register of a fixed bit width.
pub trait BitMemory: Copy + Sized {
    /// The width of the register, in bits.
    spec fn bits() -> nat;

    /// The integer that a register value holds.
    spec fn val(self) -> nat;

    /// The width of the register, in bits.
    fn width() -> (r: u8)
        ensures
            r as nat == Self::bits(),
    ;

    /// The register value zero.
    fn zero() -> (r: Self)
        ensures
            r.val() == 0,
    ;

    /// Widens a register value into the working width without loss.
    fn widen(self) -> (r: u128)
        ensures
            r as nat == self.val(),
    ;

    /// Truncates a working value to the low bits that this register holds.
    fn narrow(x: u128) -> (r: Self)
        ensures
            r.val() == x as nat % pow2(Self::bits()),
    ;

    /// The register widths are those of the native unsigned integers, and a
    /// value always fits in its width.
    proof fn lemma_register(self)
        ensures
            Self::bits() == 8 || Self::bits() == 16 || Self::bits() == 32 || Self::bits() == 64,
            self.val() < pow2(Self::bits()),
    ;
}

/// Powers of two grow with the exponent.
pub proof fn lemma_pow2_mono(a: nat, b: nat)
    requires
        a <= b,
    ensures
        pow2(a) <= pow2(b),
{
    if a < b {
        lemma_pow2_strictly_increases(a, b);
    }
}

/// Converts a value between two register widths: zero-extends into a wider
/// register, truncates into a narrower one, and keeps the bits it retains in
/// place.
pub fn resize<T: BitMemory, U: BitMemory>(value: T) -> (r: U)
    ensures
        r.val() == value.val() % pow2(U::bits()),
        T::bits() <= U::bits() ==> r.val() == value.val() && r.val() < pow2(T::bits()),
{
    proof {
        value.lemma_register();
        if T::bits() <= U::bits() {
            lemma_pow2_mono(T::bits(), U::bits());
            lemma_small_mod(value.val(), pow2(U::bits()));
        }
    }
    U::narrow(value.widen())
}

impl BitMemory for u8 {
    open spec fn bits() -> nat {
        8
    }

    open spec fn val(self) -> nat {
        self as nat
    }

    fn width() -> (r: u8) {
        8
    }

    fn zero() -> (r: Self) {
        0
    }

    fn widen(self) -> (r: u128) {
        self as u128
    }

    fn narrow(x: u128) -> (r: Self) {
        assert(x as u8 == x % 256) by (bit_vector);
        proof {
            lemma2_to64();
        }
        x as u8
    }

    proof fn lemma_register(self) {
        lemma2_to64();
    }
}

impl BitMemory for u16 {
    open spec fn bits() -> nat {
        16
    }

    open spec fn val(self) -> nat {
        self as nat
    }

    fn width() -> (r: u8) {
        16
    }

    fn zero() -> (r: Self) {
        0
    }

    fn widen(self) -> (r: u128) {
        self as u128
    }

    fn narrow(x: u128) -> (r: Self) {
        assert(x as u16 == x % 0x1_0000) by (bit_vector);
        proof {
            lemma2_to64();
        }
        x as u16
    }

    proof fn lemma_register(self) {
        lemma2_to64();
    }
}

impl BitMemory for u32 {
    open spec fn bits() -> nat {
        32
    }

    open spec fn val(self) -> nat {
        self as nat
    }

    fn width() -> (r: u8) {
        32
    }

    fn zero() -> (r: Self) {
        0
    }

    fn widen(self) -> (r: u128) {
        self as u128
    }

    fn narrow(x: u128) -> (r: Self) {
        assert(x as u32 == x % 0x1_0000_0000) by (bit_vector);
        proof {
            lemma2_to64();
        }
        x as u32
    }

    proof fn lemma_register(self) {
        lemma2_to64();
    }
}

impl BitMemory for u64 {
    open spec fn bits() -> nat {
        64
    }

    open spec fn val(self) -> nat {
        self as nat
    }

    fn width() -> (r: u8) {
        64
    }

    fn zero() -> (r: Self) {
        0
    }

    fn widen(self) -> (r: u128) {
        self as u128
    }

    fn narrow(x: u128) -> (r: Self) {
        assert(x as u64 == x % 0x1_0000_0000_0000_0000) by (bit_vector);
        proof {
            lemma2_to64();
            lemma2_to64_rest();
        }
        x as u64
    }

    proof fn lemma_register(self) {
        lemma2_to64();
        lemma2_to64_rest();
    }
}

} // verus!
