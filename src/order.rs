//! Ordering policies: which physical bits of a storage element hold the
//! logical positions of a bit range.
use vstd::prelude::*;
use crate::mask::BitMask;
use crate::mem::BitMemory;

verus! {

/// Maps the logical positions of a storage element to its physical bits.
pub trait BitOrder: Copy + Sized {
    /// The physical low edge of the logical window `lo .. hi` in an element of
    /// `width` bits. The window keeps its length.
    spec fn phys_lo(width: nat, lo: nat, hi: nat) -> nat;

    /// A window stays inside the element, and the full window is the element.
    proof fn lemma_window(width: nat, lo: nat, hi: nat)
        requires
            lo <= hi <= width,
        ensures
            Self::phys_lo(width, lo, hi) + (hi - lo) <= width,
            lo == 0 && hi == width ==> Self::phys_lo(width, lo, hi) == 0,
    ;

    /// The mask of the live bits between a head marker (the first live
    /// logical position, 0 when absent) and a tail marker (one past the last
    /// live logical position, the element width when absent).
    fn mask<T: BitMemory>(head: Option<u8>, tail: Option<u8>) -> (r: BitMask)
        requires
            head_of(head) < tail_of::<T>(tail) <= T::bits(),
        ensures
            r.lo as nat == Self::phys_lo(T::bits(), head_of(head), tail_of::<T>(tail)),
            r.hi as nat == r.lo + (tail_of::<T>(tail) - head_of(head)),
            r.hi <= T::bits(),
    ;
}

/// The first live logical position that a head marker names.
pub open spec fn head_of(head: Option<u8>) -> nat {
    match head {
        Some(h) => h as nat,
        None => 0,
    }
}

/// One past the last live logical position that a tail marker names.
pub open spec fn tail_of<T: BitMemory>(tail: Option<u8>) -> nat {
    match tail {
        Some(t) => t as nat,
        None => T::bits(),
    }
}

fn head_value(head: Option<u8>) -> (r: u8)
    ensures
        r as nat == head_of(head),
{
    match head {
        Some(h) => h,
        None => 0,
    }
}

fn tail_value<T: BitMemory>(tail: Option<u8>) -> (r: u8)
    ensures
        r as nat == tail_of::<T>(tail),
{
    match tail {
        Some(t) => t,
        None => T::width(),
    }
}

/// Logical position 0 is the least significant bit of an element, and
/// positions rise toward the most significant bit.
#[derive(Clone, Copy, Debug, PartialEq, Eq, Structural)]
pub struct Lsb0;

/// Logical position 0 is the most significant bit of an element, and
/// positions fall toward the least significant bit.
#[derive(Clone, Copy, Debug, PartialEq, Eq, Structural)]
pub struct Msb0;

impl BitOrder for Lsb0 {
    open spec fn phys_lo(width: nat, lo: nat, hi: nat) -> nat {
        lo
    }

    proof fn lemma_window(width: nat, lo: nat, hi: nat) {
    }

    fn mask<T: BitMemory>(head: Option<u8>, tail: Option<u8>) -> (r: BitMask) {
        let lo = head_value(head);
        let hi = tail_value::<T>(tail);
        BitMask { lo, hi }
    }
}

impl BitOrder for Msb0 {
    open spec fn phys_lo(width: nat, lo: nat, hi: nat) -> nat {
        (width - hi) as nat
    }

    proof fn lemma_window(width: nat, lo: nat, hi: nat) {
    }

    fn mask<T: BitMemory>(head: Option<u8>, tail: Option<u8>) -> (r: BitMask) {
        let width = T::width();
        let lo = head_value(head);
        let hi = tail_value::<T>(tail);
        BitMask { lo: width - hi, hi: width - lo }
    }
}

} // verus!
