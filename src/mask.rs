//! Element masks: the window of live bits in one storage element, and the
//! arithmetic that reads or replaces the bits of such a window.
use vstd::prelude::*;
use vstd::arithmetic::div_mod::{
    lemma_div_denominator, lemma_fundamental_div_mod_converse, lemma_mod_twice, lemma_small_mod,
};
use vstd::arithmetic::power2::{
    lemma2_to64, lemma_pow2_adds, lemma_pow2_pos, lemma_pow2_strictly_increases, pow2,
};
use vstd::bits::{lemma_u128_shr_is_div, lemma_u64_shl_is_mul, lemma_u64_pow2_no_overflow};

verus! {

/// The bits `lo .. hi` of `e`, moved down to the low edge.
pub open spec fn field(e: nat, lo: nat, hi: nat) -> nat {
    (e / pow2(lo)) % pow2((hi - lo) as nat)
}

/// `e` with its bits `lo .. hi` replaced by the low `hi - lo` bits of `x`.
pub open spec fn insert_field(e: nat, lo: nat, hi: nat, x: nat) -> nat {
    (e - field(e, lo, hi) * pow2(lo) + (x % pow2((hi - lo) as nat)) * pow2(lo)) as nat
}

/// A contiguous window of physical bits, `lo .. hi`, in a storage element.
#[derive(Clone, Copy, Debug, PartialEq, Eq, Structural)]
pub struct BitMask {
    pub lo: u8,
    pub hi: u8,
}

/// The mask of the bits `lo .. hi`, in the working width.
pub open spec fn window(lo: nat, hi: nat) -> u128 {
    ((1u128 << hi) - (1u128 << lo)) as u128
}

/// `1 << k` in the working width is the power of two.
pub proof fn lemma_one_shl(k: nat)
    requires
        k <= 64,
    ensures
        (1u128 << k) as nat == pow2(k),
{
    lemma2_to64();
    if k < 64 {
        lemma_u64_pow2_no_overflow(k);
        lemma_u64_shl_is_mul(1, k as u64);
        let s = k as u64;
        assert((1u128 << s) == (1u64 << s) as u128) by (bit_vector)
            requires
                s < 64,
        ;
    } else {
        assert((1u128 << 64u128) == 0x1_0000_0000_0000_0000u128) by (bit_vector);
    }
}

/// A left shift that stays below the working width is a multiplication.
pub proof fn lemma_shl_mul(y: u128, s: nat)
    requires
        s <= 64,
        y < 0x1_0000_0000_0000_0000,
    ensures
        (y << s) as nat == y * pow2(s),
{
    lemma_one_shl(s);
    let t = s as u128;
    assert((y << t) == y * (1u128 << t)) by (bit_vector)
        requires
            t <= 64,
            y < 0x1_0000_0000_0000_0000,
    ;
}

/// Keeping the low `k` bits of `y` is the remainder by `2^k`.
pub proof fn lemma_low_mask(y: u128, k: nat)
    requires
        k <= 64,
        y < 0x1_0000_0000_0000_0000,
    ensures
        (y & (((1u128 << k) - 1) as u128)) as nat == y as nat % pow2(k),
{
    let s = k as u128;
    let lowk = y & (((1u128 << s) - 1) as u128);
    let q = y >> s;
    assert(y == (q << s) + lowk && lowk < (1u128 << s) && q < 0x1_0000_0000_0000_0000)
        by (bit_vector)
        requires
            s <= 64,
            y < 0x1_0000_0000_0000_0000,
            lowk == y & (((1u128 << s) - 1) as u128),
            q == y >> s,
    ;
    lemma_one_shl(k);
    lemma_u128_shr_is_div(y, s);
    lemma_shl_mul(q, k);
    lemma_pow2_pos(k);
    lemma_fundamental_div_mod_converse(y as int, pow2(k) as int, q as int, lowk as int);
}

/// Masking the window `lo .. hi` and shifting it down by `lo` reads the field.
pub proof fn lemma_extract(v: u128, lo: nat, hi: nat)
    requires
        lo <= hi <= 64,
        v < 0x1_0000_0000_0000_0000,
    ensures
        ((v & window(lo, hi)) >> lo) as nat == field(v as nat, lo, hi),
{
    let l = lo as u128;
    let h = hi as u128;
    let m = window(lo, hi);
    let y = v >> l;
    assert(((v & m) >> l) == y & (((1u128 << ((h - l) as u128)) - 1) as u128) && y
        < 0x1_0000_0000_0000_0000) by (bit_vector)
        requires
            l <= h <= 64,
            v < 0x1_0000_0000_0000_0000,
            m == ((1u128 << h) - (1u128 << l)) as u128,
            y == v >> l,
    ;
    lemma_u128_shr_is_div(v, l);
    lemma_low_mask(y, (hi - lo) as nat);
}

/// Clearing the window `lo .. hi` and merging in the shifted, masked `x`
/// replaces the field.
pub proof fn lemma_insert(old: u128, x: u128, lo: nat, hi: nat)
    requires
        lo <= hi <= 64,
        old < 0x1_0000_0000_0000_0000,
        x < 0x1_0000_0000_0000_0000,
    ensures
        ((old & !window(lo, hi)) | ((x << lo) & window(lo, hi))) as nat == insert_field(
            old as nat,
            lo,
            hi,
            x as nat,
        ),
{
    let l = lo as u128;
    let h = hi as u128;
    let m = window(lo, hi);
    let low = (old & m) >> l;
    let put = x & (((1u128 << ((h - l) as u128)) - 1) as u128);
    assert((old & m) == low << l && low < 0x1_0000_0000_0000_0000) by (bit_vector)
        requires
            l <= h <= 64,
            old < 0x1_0000_0000_0000_0000,
            m == ((1u128 << h) - (1u128 << l)) as u128,
            low == (old & m) >> l,
    ;
    assert((x << l) & m == put << l && put < 0x1_0000_0000_0000_0000) by (bit_vector)
        requires
            l <= h <= 64,
            x < 0x1_0000_0000_0000_0000,
            m == ((1u128 << h) - (1u128 << l)) as u128,
            put == x & (((1u128 << ((h - l) as u128)) - 1) as u128),
    ;
    let a = old & !m;
    let b = (x << l) & m;
    assert((a | b) == a + b && a == old - (old & m)) by (bit_vector)
        requires
            a == old & !m,
            b == (x << l) & m,
    ;
    lemma_extract(old, lo, hi);
    lemma_low_mask(x, (hi - lo) as nat);
    lemma_shl_mul(low, lo);
    lemma_shl_mul(put, lo);
}

/// A value shifted up by `s` bits and one below `2^s` share no bit, so `|`
/// adds them.
pub proof fn lemma_or_disjoint(a: u128, b: u128, s: nat)
    requires
        s <= 64,
        a < 0x1_0000_0000_0000_0000,
        b < pow2(s),
    ensures
        ((a << s) | b) as nat == a * pow2(s) + b,
{
    lemma_one_shl(s);
    lemma_shl_mul(a, s);
    let t = s as u128;
    assert(((a << t) | b) == (a << t) + b) by (bit_vector)
        requires
            t <= 64,
            a < 0x1_0000_0000_0000_0000,
            b < (1u128 << t),
    ;
}

/// Replacing a field leaves a value that fits in `w` bits inside them.
pub proof fn lemma_insert_fits(old: u128, x: u128, lo: nat, hi: nat, w: nat)
    requires
        lo <= hi <= w <= 64,
        old < pow2(w),
    ensures
        ((old & !window(lo, hi)) | ((x << lo) & window(lo, hi))) < pow2(w),
{
    lemma_one_shl(w);
    let l = lo as u128;
    let h = hi as u128;
    let n = w as u128;
    let m = window(lo, hi);
    assert(((old & !m) | ((x << l) & m)) < (1u128 << n)) by (bit_vector)
        requires
            l <= h <= n <= 64,
            old < (1u128 << n),
            m == ((1u128 << h) - (1u128 << l)) as u128,
    ;
}

/// Dividing by `2^a` and then by `2^b` divides by `2^(a + b)`.
pub proof fn lemma_div_pow2(v: nat, a: nat, b: nat)
    ensures
        v / pow2(a) / pow2(b) == v / pow2(a + b),
        v / pow2(0) == v,
{
    lemma_pow2_pos(a);
    lemma_pow2_pos(b);
    lemma_div_denominator(v as int, pow2(a) as int, pow2(b) as int);
    lemma_pow2_adds(a, b);
    lemma2_to64();
}

/// Replacing every bit of a `w`-bit value leaves the low `w` bits of the new
/// one.
pub proof fn lemma_insert_full(x: nat, y: nat, w: nat)
    requires
        x < pow2(w),
    ensures
        insert_field(x, 0, w, y) == y % pow2(w),
{
    lemma2_to64();
    lemma_small_mod(x, pow2(w));
}

/// Reading back a field just replaced gives the low bits that were put in.
pub proof fn lemma_field_of_insert(x: nat, lo: nat, hi: nat, y: nat)
    requires
        lo <= hi <= 64,
        x < 0x1_0000_0000_0000_0000,
    ensures
        field(insert_field(x, lo, hi, y), lo, hi) == y % pow2((hi - lo) as nat),
{
    let k = (hi - lo) as nat;
    lemma_pow2_pos(k);
    lemma_one_shl(k);
    lemma2_to64();
    if k < 64 {
        lemma_u64_pow2_no_overflow(k);
    }
    let yk = y % pow2(k);
    lemma_mod_twice(y as int, pow2(k) as int);
    assert(yk < 0x1_0000_0000_0000_0000) by {
        lemma_pow2_le64(k);
    }
    let xv = x as u128;
    let yv = yk as u128;
    lemma_insert(xv, yv, lo, hi);
    lemma_insert_fits(xv, yv, lo, hi, 64);
    let m = window(lo, hi);
    let u = (xv & !m) | ((yv << lo) & m);
    lemma_extract(u, lo, hi);
    let l = lo as u128;
    let h = hi as u128;
    assert(((u & m) >> l) == yv & (((1u128 << ((h - l) as u128)) - 1) as u128)) by (bit_vector)
        requires
            l <= h <= 64,
            m == ((1u128 << h) - (1u128 << l)) as u128,
            u == (xv & !m) | ((yv << l) & m),
    ;
    lemma_low_mask(yv, k);
}

/// Powers of two up to the 64th fit below `2^64 + 1`.
proof fn lemma_pow2_le64(k: nat)
    requires
        k <= 64,
    ensures
        pow2(k) <= 0x1_0000_0000_0000_0000,
{
    lemma2_to64();
    if k < 64 {
        lemma_pow2_strictly_increases(k, 64);
    }
}

impl BitMask {
    /// The mask as an integer: the bits `lo .. hi` set, the others clear.
    pub fn value(&self) -> (r: u128)
        requires
            self.lo <= self.hi <= 64,
        ensures
            r == window(self.lo as nat, self.hi as nat),
            r as nat == pow2(self.hi as nat) - pow2(self.lo as nat),
    {
        proof {
            lemma_one_shl(self.lo as nat);
            lemma_one_shl(self.hi as nat);
            if self.lo < self.hi {
                lemma_pow2_strictly_increases(self.lo as nat, self.hi as nat);
            }
        }
        (1u128 << self.hi) - (1u128 << self.lo)
    }
}

} // verus!
