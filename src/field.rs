//! Batched load/store access to bit ranges: the bits of a range move to and
//! from an integer register a whole storage element at a time wherever the
//! range's alignment permits.
use vstd::prelude::*;
use vstd::arithmetic::div_mod::{lemma_mod_mod, lemma_small_mod};
use vstd::arithmetic::power2::{lemma2_to64, lemma_pow2_adds, lemma_pow2_pos, pow2};
use vstd::bits::lemma_u128_shr_is_div;
use crate::mask::{
    field, insert_field, lemma_div_pow2, lemma_extract, lemma_insert, lemma_insert_fits,
    lemma_insert_full, lemma_or_disjoint, BitMask,
};
use crate::mem::{lemma_pow2_mono, resize, BitMemory};
use crate::order::{BitOrder, Lsb0, Msb0};
use crate::slice::{BitSlice, Domain};

verus! {

/// The direction of a transfer between a bit range and a register.
#[derive(Clone, Copy, Debug, PartialEq, Eq, Structural)]
pub enum Transfer {
    Load,
    Store,
}

/// A bit range of a length that the register cannot carry: empty, or wider
/// than the register.
#[derive(Clone, Copy, Debug, PartialEq, Eq, Structural)]
pub struct RangeWidthViolation {
    /// The transfer that was asked for.
    pub action: Transfer,
    /// The width of the register, in bits.
    pub width: u8,
    /// The length of the range, in bits.
    pub len: usize,
}

/// Tests that a range of `len` bits can move to or from a register `M`:
/// it holds at least one bit and no more than `M` is wide. The load and store
/// methods of `BitField` ask exactly this of their range.
pub fn check<M: BitMemory>(action: Transfer, len: usize) -> (r: Result<(), RangeWidthViolation>)
    ensures
        r is Ok <==> 1 <= len <= M::bits(),
        r matches Err(e) ==> e.action == action && e.width as nat == M::bits() && e.len == len,
{
    let width = M::width();
    if 1 <= len && len <= width as usize {
        Ok(())
    } else {
        Err(RangeWidthViolation { action, width, len })
    }
}

/// Reads the masked bits of a storage element, shifted down by `shamt` to the
/// low edge of the register: `resize((elem & mask) >> shamt)`. `shamt` is the
/// low edge of the mask.
pub fn get<T: BitMemory, M: BitMemory>(elem: &T, mask: BitMask, shamt: u8) -> (r: M)
    requires
        mask.lo <= mask.hi <= T::bits(),
        shamt == mask.lo,
    ensures
        r.val() == field(elem.val(), mask.lo as nat, mask.hi as nat) % pow2(M::bits()),
{
    proof {
        elem.lemma_register();
    }
    let v = elem.widen();
    let m = mask.value();
    proof {
        lemma2_to64();
        lemma_pow2_mono(T::bits(), 64);
        lemma_extract(v, mask.lo as nat, mask.hi as nat);
        lemma_pow2_mono((mask.hi - mask.lo) as nat, T::bits());
        lemma_pow2_pos((mask.hi - mask.lo) as nat);
        lemma_small_mod(((v & m) >> shamt) as nat, pow2(T::bits()));
    }
    let live = T::narrow((v & m) >> shamt);
    resize::<T, M>(live)
}

/// Writes the low bits of `value`, shifted up by `shamt`, into the masked
/// bits of a storage element, and leaves its other bits as they were:
/// `*elem &= !mask; *elem |= (resize(value) << shamt) & mask`. `shamt` is the
/// low edge of the mask.
pub fn set<T: BitMemory, M: BitMemory>(elem: &mut T, value: M, mask: BitMask, shamt: u8)
    requires
        mask.lo <= mask.hi <= T::bits(),
        shamt == mask.lo,
    ensures
        final(elem).val() == insert_field(
            old(elem).val(),
            mask.lo as nat,
            mask.hi as nat,
            value.val(),
        ),
{
    proof {
        elem.lemma_register();
        value.lemma_register();
    }
    let v = resize::<M, T>(value).widen();
    let m = mask.value();
    let e = elem.widen();
    let cleared = e & !m;
    let merged = cleared | ((v << shamt) & m);
    proof {
        let lo = mask.lo as nat;
        let hi = mask.hi as nat;
        let k = (hi - lo) as nat;
        lemma2_to64();
        lemma_pow2_mono(T::bits(), 64);
        lemma_insert(e, v, lo, hi);
        lemma_insert_fits(e, v, lo, hi, T::bits());
        lemma_small_mod(merged as nat, pow2(T::bits()));
        lemma_pow2_adds(k, (T::bits() - k) as nat);
        lemma_pow2_pos(k);
        lemma_pow2_pos((T::bits() - k) as nat);
        lemma_mod_mod(value.val() as int, pow2(k) as int, pow2((T::bits() - k) as nat) as int);
    }
    *elem = T::narrow(merged);
}

/// `accum` moved up by `width` bits, with `low` in the bits set free.
fn shift_in<M: BitMemory>(accum: M, width: u8, low: M) -> (r: M)
    requires
        width <= 64,
        low.val() < pow2(width as nat),
        accum.val() * pow2(width as nat) + low.val() < pow2(M::bits()),
    ensures
        r.val() == accum.val() * pow2(width as nat) + low.val(),
{
    let a = accum.widen();
    let b = low.widen();
    proof {
        accum.lemma_register();
        lemma2_to64();
        lemma_pow2_mono(M::bits(), 64);
        lemma_or_disjoint(a, b, width as nat);
        lemma_small_mod(((a << width) | b) as nat, pow2(M::bits()));
    }
    M::narrow((a << width) | b)
}

/// `value` moved down by `width` bits.
fn shift_out<M: BitMemory>(value: M, width: u8) -> (r: M)
    requires
        width <= 64,
    ensures
        r.val() == value.val() / pow2(width as nat),
{
    let v = value.widen();
    proof {
        value.lemma_register();
        lemma_u128_shr_is_div(v, width as u128);
        lemma_pow2_pos(width as nat);
        lemma_small_mod((v >> width) as nat, pow2(M::bits()));
    }
    M::narrow(v >> width)
}

/// C-style bitfield access: moves the bits of a range to and from the low
/// bits of an integer register `M`. A range of `n` bits transfers the low `n`
/// bits of the register; the range must hold at least one bit and no more
/// than `M` is wide.
///
/// The `_le` methods give the lowest-addressed storage element the least
/// significant chunk of the register, the `_be` methods the most significant.
/// Within one element, the bits keep their order of significance whatever the
/// ordering policy. `load` and `store` take the byte order of the machine they
/// run on, and so do not give the same layout everywhere.
pub trait BitField: Sized {
    /// The range is well formed.
    spec fn wf(&self) -> bool;

    /// The number of bits in the range.
    spec fn bit_len(&self) -> nat;

    /// The value of the range, the lowest address the least significant.
    spec fn le_value(&self) -> nat;

    /// The value of the range, the lowest address the most significant.
    spec fn be_value(&self) -> nat;

    /// `after` is this range once `value` is stored, the lowest address the
    /// least significant.
    spec fn stores_le(&self, after: &Self, value: nat) -> bool;

    /// `after` is this range once `value` is stored, the lowest address the
    /// most significant.
    spec fn stores_be(&self, after: &Self, value: nat) -> bool;

    /// Loads the range in the byte order of the machine.
    fn load<M: BitMemory>(&self) -> (r: M)
        requires
            self.wf(),
            1 <= self.bit_len() <= M::bits(),
        ensures
            r.val() == self.le_value() || r.val() == self.be_value(),
    {
        if host_is_little_endian() {
            self.load_le()
        } else {
            self.load_be()
        }
    }

    /// Stores into the range in the byte order of the machine.
    fn store<M: BitMemory>(&mut self, value: M)
        requires
            old(self).wf(),
            1 <= old(self).bit_len() <= M::bits(),
        ensures
            final(self).wf(),
            old(self).stores_le(final(self), value.val()) || old(self).stores_be(
                final(self),
                value.val(),
            ),
    {
        if host_is_little_endian() {
            self.store_le(value)
        } else {
            self.store_be(value)
        }
    }

    /// Loads the range, the lowest address the least significant chunk.
    fn load_le<M: BitMemory>(&self) -> (r: M)
        requires
            self.wf(),
            1 <= self.bit_len() <= M::bits(),
        ensures
            r.val() == self.le_value(),
    ;

    /// Loads the range, the lowest address the most significant chunk.
    fn load_be<M: BitMemory>(&self) -> (r: M)
        requires
            self.wf(),
            1 <= self.bit_len() <= M::bits(),
        ensures
            r.val() == self.be_value(),
    ;

    /// Stores the low bits of `value` into the range, the lowest address the
    /// least significant chunk.
    fn store_le<M: BitMemory>(&mut self, value: M)
        requires
            old(self).wf(),
            1 <= old(self).bit_len() <= M::bits(),
        ensures
            final(self).wf(),
            old(self).stores_le(final(self), value.val()),
    ;

    /// Stores the low bits of `value` into the range, the lowest address the
    /// most significant chunk.
    fn store_be<M: BitMemory>(&mut self, value: M)
        requires
            old(self).wf(),
            1 <= old(self).bit_len() <= M::bits(),
        ensures
            final(self).wf(),
            old(self).stores_be(final(self), value.val()),
    ;
}

/// Relies on u16::to_ne_bytes: the two bytes of an integer in the byte order
/// of the machine, which is little- or big-endian.
#[verifier::external_body]
fn native_bytes(x: u16) -> (r: [u8; 2])
    ensures
        r@ == seq![(x % 256) as u8, (x / 256) as u8] || r@ == seq![
            (x / 256) as u8,
            (x % 256) as u8,
        ],
{
    x.to_ne_bytes()
}

/// Whether the machine stores the least significant byte of an integer at
/// its lowest address.
pub fn host_is_little_endian() -> bool {
    let bytes = native_bytes(1);
    bytes[0] == 1
}

impl<T: BitMemory> BitField for BitSlice<Lsb0, T> {
    open spec fn wf(&self) -> bool {
        BitSlice::wf(self)
    }

    open spec fn bit_len(&self) -> nat {
        BitSlice::bit_len(self)
    }

    open spec fn le_value(&self) -> nat {
        BitSlice::le_value(self)
    }

    open spec fn be_value(&self) -> nat {
        BitSlice::be_value(self)
    }

    open spec fn stores_le(&self, after: &Self, value: nat) -> bool {
        BitSlice::stores_le(self, after, value)
    }

    open spec fn stores_be(&self, after: &Self, value: nat) -> bool {
        BitSlice::stores_be(self, after, value)
    }

    fn load_le<M: BitMemory>(&self) -> (r: M) {
        proof {
            self.lemma_edges();
            self.elems@[0].lemma_register();
            lemma2_to64();
            lemma_pow2_mono(self.bit_len(), M::bits());
        }
        match self.domain() {
            Domain::Enclave { head, elem, tail } => {
                proof {
                    self.lemma_le_push(elem as nat);
                    lemma_small_mod(self.chunk(elem as nat), pow2(M::bits()));
                }
                let mask = Lsb0::mask::<T>(Some(head), Some(tail));
                get::<T, M>(&self.elems[elem], mask, head)
            },
            Domain::Region { head, body_start, body_end, tail } => {
                // The highest address holds the most significant chunk: start there
                // and walk down to the head.
                let mut accum = M::zero();
                if let Some((elem, tail)) = tail {
                    proof {
                        self.lemma_le_push(elem as nat);
                        lemma_small_mod(self.chunk(elem as nat), pow2(M::bits()));
                    }
                    let mask = Lsb0::mask::<T>(None, Some(tail));
                    accum = get::<T, M>(&self.elems[elem], mask, 0);
                }
                proof {
                    self.lemma_le_push(self.first());
                }
                let mut i = body_end;
                while i > body_start
                    invariant
                        self.wf(),
                        self.start < self.end,
                        1 <= self.bit_len() <= M::bits(),
                        T::bits() <= 64,
                        pow2(self.bit_len()) <= pow2(M::bits()),
                        self.first() <= body_start <= i <= body_end <= self.last_end(),
                        self.last_end() <= self.elems@.len(),
                        forall|e: nat|
                            body_start <= e < body_end ==> self.lo(e) == 0 && self.hi(e)
                                == T::bits(),
                        accum.val() == self.le_from(i as nat),
                    decreases i,
                {
                    i -= 1;
                    proof {
                        self.lemma_le_push(i as nat);
                        self.lemma_full(i as nat);
                        lemma_pow2_mono(T::bits(), M::bits());
                    }
                    accum = shift_in(accum, T::width(), resize::<T, M>(self.elems[i]));
                }
                if let Some((head, elem)) = head {
                    proof {
                        self.lemma_le_push(elem as nat);
                        lemma_pow2_mono(self.live(elem as nat), M::bits());
                        lemma_small_mod(self.chunk(elem as nat), pow2(M::bits()));
                    }
                    let mask = Lsb0::mask::<T>(Some(head), None);
                    let low = get::<T, M>(&self.elems[elem], mask, head);
                    accum = shift_in(accum, T::width() - head, low);
                }
                accum
            },
        }
    }

    fn load_be<M: BitMemory>(&self) -> (r: M) {
        proof {
            self.lemma_edges();
            self.elems@[0].lemma_register();
            lemma2_to64();
            lemma_pow2_mono(self.bit_len(), M::bits());
        }
        match self.domain() {
            Domain::Enclave { head, elem, tail } => {
                proof {
                    self.lemma_be_push(elem as nat);
                    lemma_small_mod(self.chunk(elem as nat), pow2(M::bits()));
                }
                let mask = Lsb0::mask::<T>(Some(head), Some(tail));
                get::<T, M>(&self.elems[elem], mask, head)
            },
            Domain::Region { head, body_start, body_end, tail } => {
                // The lowest address holds the most significant chunk: start there
                // and walk up to the tail.
                let mut accum = M::zero();
                if let Some((head, elem)) = head {
                    proof {
                        self.lemma_be_push(elem as nat);
                        lemma_pow2_mono(self.live(elem as nat), M::bits());
                        lemma_small_mod(self.chunk(elem as nat), pow2(M::bits()));
                    }
                    let mask = Lsb0::mask::<T>(Some(head), None);
                    accum = get::<T, M>(&self.elems[elem], mask, head);
                }
                let mut i = body_start;
                while i < body_end
                    invariant
                        self.wf(),
                        self.start < self.end,
                        1 <= self.bit_len() <= M::bits(),
                        T::bits() <= 64,
                        pow2(self.bit_len()) <= pow2(M::bits()),
                        self.first() <= body_start <= i <= body_end <= self.last_end(),
                        self.last_end() <= self.elems@.len(),
                        forall|e: nat|
                            body_start <= e < body_end ==> self.lo(e) == 0 && self.hi(e)
                                == T::bits(),
                        accum.val() == self.be_upto(i as nat),
                    decreases body_end - i,
                {
                    proof {
                        self.lemma_be_push(i as nat);
                        self.lemma_full(i as nat);
                        lemma_pow2_mono(T::bits(), M::bits());
                    }
                    accum = shift_in(accum, T::width(), resize::<T, M>(self.elems[i]));
                    i += 1;
                }
                if let Some((elem, tail)) = tail {
                    proof {
                        self.lemma_be_push(elem as nat);
                        lemma_pow2_mono(self.live(elem as nat), M::bits());
                        lemma_small_mod(self.chunk(elem as nat), pow2(M::bits()));
                    }
                    let mask = Lsb0::mask::<T>(None, Some(tail));
                    let low = get::<T, M>(&self.elems[elem], mask, 0);
                    // A tail as wide as the register follows nothing: the accumulator is
                    // zero, and shifting it in the working width leaves it zero.
                    accum = shift_in(accum, tail, low);
                }
                accum
            },
        }
    }

    fn store_le<M: BitMemory>(&mut self, value: M) {
        let ghost orig = *self;
        let ghost v0 = value.val();
        proof {
            self.lemma_edges();
            self.elems@[0].lemma_register();
            lemma_div_pow2(v0, 0, 0);
        }
        let mut value = value;
        match self.domain() {
            Domain::Enclave { head, elem, tail } => {
                let mut e = self.elems[elem];
                let mask = Lsb0::mask::<T>(Some(head), Some(tail));
                set::<T, M>(&mut e, value, mask, head);
                self.elems.set(elem, e);
                proof {
                    self.lemma_before(elem as nat);
                    assert forall|k: nat| k < self.elems@.len() implies
                        #[trigger] self.elems@[k as int].val() == orig.placed(k, v0, orig.below(k)) by {}
                }
            },
            Domain::Region { head, body_start, body_end, tail } => {
                // The lowest address takes the least significant chunk: start there
                // and walk up to the tail.
                if let Some((head, elem)) = head {
                    let mut e = self.elems[elem];
                    let mask = Lsb0::mask::<T>(Some(head), None);
                    set::<T, M>(&mut e, value, mask, head);
                    self.elems.set(elem, e);
                    value = shift_out(value, T::width() - head);
                    proof {
                        self.lemma_before(elem as nat);
                        lemma_div_pow2(v0, 0, self.live(elem as nat));
                    }
                }
                let mut i = body_start;
                while i < body_end
                    invariant
                        orig.wf(),
                        orig.start < orig.end,
                        self.start == orig.start,
                        self.end == orig.end,
                        self.elems@.len() == orig.elems@.len(),
                        T::bits() <= 64,
                        orig.first() <= body_start <= i <= body_end <= orig.last_end(),
                        orig.last_end() <= orig.elems@.len(),
                        forall|e: nat|
                            body_start <= e < body_end ==> orig.lo(e) == 0 && orig.hi(e)
                                == T::bits(),
                        value.val() == v0 / pow2(orig.before(i as nat)),
                        forall|k: nat|
                            k < self.elems@.len() ==> #[trigger] self.elems@[k as int].val() == if k < i {
                                orig.placed(k, v0, orig.below(k))
                            } else {
                                orig.elems@[k as int].val()
                            },
                    decreases body_end - i,
                {
                    proof {
                        orig.lemma_before(i as nat);
                        orig.lemma_full(i as nat);
                        orig.elems@[i as int].lemma_register();
                        lemma_insert_full(orig.elems@[i as int].val(), value.val(), T::bits());
                        lemma_div_pow2(v0, orig.before(i as nat), T::bits());
                    }
                    self.elems.set(i, resize::<M, T>(value));
                    value = shift_out(value, T::width());
                    i += 1;
                }
                if let Some((elem, tail)) = tail {
                    proof {
                        orig.lemma_before(elem as nat);
                    }
                    let mut e = self.elems[elem];
                    let mask = Lsb0::mask::<T>(None, Some(tail));
                    set::<T, M>(&mut e, value, mask, 0);
                    self.elems.set(elem, e);
                }
                proof {
                    assert forall|k: nat| k < self.elems@.len() implies
                        #[trigger] self.elems@[k as int].val() == orig.placed(k, v0, orig.below(k)) by {}
                }
            },
        }
    }

    fn store_be<M: BitMemory>(&mut self, value: M) {
        let ghost orig = *self;
        let ghost v0 = value.val();
        proof {
            self.lemma_edges();
            self.elems@[0].lemma_register();
            lemma_div_pow2(v0, 0, 0);
        }
        let mut value = value;
        match self.domain() {
            Domain::Enclave { head, elem, tail } => {
                let mut e = self.elems[elem];
                let mask = Lsb0::mask::<T>(Some(head), Some(tail));
                set::<T, M>(&mut e, value, mask, head);
                self.elems.set(elem, e);
                proof {
                    self.lemma_before(elem as nat);
                    assert forall|k: nat| k < self.elems@.len() implies
                        #[trigger] self.elems@[k as int].val() == orig.placed(k, v0, orig.above(k)) by {}
                }
            },
            Domain::Region { head, body_start, body_end, tail } => {
                // The highest address takes the least significant chunk: start there
                // and walk down to the head.
                proof {
                    self.lemma_before(self.first());
                }
                if let Some((elem, tail)) = tail {
                    proof {
                        self.lemma_before(elem as nat);
                        lemma_div_pow2(v0, 0, self.live(elem as nat));
                    }
                    let mut e = self.elems[elem];
                    let mask = Lsb0::mask::<T>(None, Some(tail));
                    set::<T, M>(&mut e, value, mask, 0);
                    self.elems.set(elem, e);
                    value = shift_out(value, tail);
                }
                let mut i = body_end;
                while i > body_start
                    invariant
                        orig.wf(),
                        orig.start < orig.end,
                        self.start == orig.start,
                        self.end == orig.end,
                        self.elems@.len() == orig.elems@.len(),
                        T::bits() <= 64,
                        orig.first() <= body_start <= i <= body_end <= orig.last_end(),
                        orig.last_end() <= orig.elems@.len(),
                        forall|e: nat|
                            body_start <= e < body_end ==> orig.lo(e) == 0 && orig.hi(e)
                                == T::bits(),
                        value.val() == v0 / pow2((orig.bit_len() - orig.before(i as nat)) as nat),
                        forall|k: nat|
                            k < self.elems@.len() ==> #[trigger] self.elems@[k as int].val() == if k >= i {
                                orig.placed(k, v0, orig.above(k))
                            } else {
                                orig.elems@[k as int].val()
                            },
                    decreases i,
                {
                    i -= 1;
                    proof {
                        orig.lemma_before(i as nat);
                        orig.lemma_full(i as nat);
                        orig.elems@[i as int].lemma_register();
                        lemma_insert_full(orig.elems@[i as int].val(), value.val(), T::bits());
                        let above = (orig.bit_len() - orig.before(i as nat + 1)) as nat;
                        lemma_div_pow2(v0, above, T::bits());
                    }
                    self.elems.set(i, resize::<M, T>(value));
                    value = shift_out(value, T::width());
                }
                if let Some((head, elem)) = head {
                    proof {
                        orig.lemma_before(elem as nat);
                    }
                    let mut e = self.elems[elem];
                    let mask = Lsb0::mask::<T>(Some(head), None);
                    set::<T, M>(&mut e, value, mask, head);
                    self.elems.set(elem, e);
                }
                proof {
                    assert forall|k: nat| k < self.elems@.len() implies
                        #[trigger] self.elems@[k as int].val() == orig.placed(k, v0, orig.above(k)) by {}
                }
            },
        }
    }
}


impl<T: BitMemory> BitField for BitSlice<Msb0, T> {
    open spec fn wf(&self) -> bool {
        BitSlice::wf(self)
    }

    open spec fn bit_len(&self) -> nat {
        BitSlice::bit_len(self)
    }

    open spec fn le_value(&self) -> nat {
        BitSlice::le_value(self)
    }

    open spec fn be_value(&self) -> nat {
        BitSlice::be_value(self)
    }

    open spec fn stores_le(&self, after: &Self, value: nat) -> bool {
        BitSlice::stores_le(self, after, value)
    }

    open spec fn stores_be(&self, after: &Self, value: nat) -> bool {
        BitSlice::stores_be(self, after, value)
    }

    fn load_le<M: BitMemory>(&self) -> (r: M) {
        proof {
            self.lemma_edges();
            self.elems@[0].lemma_register();
            lemma2_to64();
            lemma_pow2_mono(self.bit_len(), M::bits());
        }
        match self.domain() {
            Domain::Enclave { head, elem, tail } => {
                proof {
                    self.lemma_le_push(elem as nat);
                    lemma_small_mod(self.chunk(elem as nat), pow2(M::bits()));
                }
                let mask = Msb0::mask::<T>(Some(head), Some(tail));
                get::<T, M>(&self.elems[elem], mask, T::width() - tail)
            },
            Domain::Region { head, body_start, body_end, tail } => {
                // The highest address holds the most significant chunk: start there
                // and walk down to the head.
                let mut accum = M::zero();
                if let Some((elem, tail)) = tail {
                    proof {
                        self.lemma_le_push(elem as nat);
                        lemma_small_mod(self.chunk(elem as nat), pow2(M::bits()));
                    }
                    let mask = Msb0::mask::<T>(None, Some(tail));
                    accum = get::<T, M>(&self.elems[elem], mask, T::width() - tail);
                }
                proof {
                    self.lemma_le_push(self.first());
                }
                let mut i = body_end;
                while i > body_start
                    invariant
                        self.wf(),
                        self.start < self.end,
                        1 <= self.bit_len() <= M::bits(),
                        T::bits() <= 64,
                        pow2(self.bit_len()) <= pow2(M::bits()),
                        self.first() <= body_start <= i <= body_end <= self.last_end(),
                        self.last_end() <= self.elems@.len(),
                        forall|e: nat|
                            body_start <= e < body_end ==> self.lo(e) == 0 && self.hi(e)
                                == T::bits(),
                        accum.val() == self.le_from(i as nat),
                    decreases i,
                {
                    i -= 1;
                    proof {
                        self.lemma_le_push(i as nat);
                        self.lemma_full(i as nat);
                        lemma_pow2_mono(T::bits(), M::bits());
                    }
                    accum = shift_in(accum, T::width(), resize::<T, M>(self.elems[i]));
                }
                if let Some((head, elem)) = head {
                    proof {
                        self.lemma_le_push(elem as nat);
                        lemma_pow2_mono(self.live(elem as nat), M::bits());
                        lemma_small_mod(self.chunk(elem as nat), pow2(M::bits()));
                    }
                    let mask = Msb0::mask::<T>(Some(head), None);
                    let low = get::<T, M>(&self.elems[elem], mask, 0);
                    accum = shift_in(accum, T::width() - head, low);
                }
                accum
            },
        }
    }

    fn load_be<M: BitMemory>(&self) -> (r: M) {
        proof {
            self.lemma_edges();
            self.elems@[0].lemma_register();
            lemma2_to64();
            lemma_pow2_mono(self.bit_len(), M::bits());
        }
        match self.domain() {
            Domain::Enclave { head, elem, tail } => {
                proof {
                    self.lemma_be_push(elem as nat);
                    lemma_small_mod(self.chunk(elem as nat), pow2(M::bits()));
                }
                let mask = Msb0::mask::<T>(Some(head), Some(tail));
                get::<T, M>(&self.elems[elem], mask, T::width() - tail)
            },
            Domain::Region { head, body_start, body_end, tail } => {
                // The lowest address holds the most significant chunk: start there
                // and walk up to the tail.
                let mut accum = M::zero();
                if let Some((head, elem)) = head {
                    proof {
                        self.lemma_be_push(elem as nat);
                        lemma_pow2_mono(self.live(elem as nat), M::bits());
                        lemma_small_mod(self.chunk(elem as nat), pow2(M::bits()));
                    }
                    let mask = Msb0::mask::<T>(Some(head), None);
                    accum = get::<T, M>(&self.elems[elem], mask, 0);
                }
                let mut i = body_start;
                while i < body_end
                    invariant
                        self.wf(),
                        self.start < self.end,
                        1 <= self.bit_len() <= M::bits(),
                        T::bits() <= 64,
                        pow2(self.bit_len()) <= pow2(M::bits()),
                        self.first() <= body_start <= i <= body_end <= self.last_end(),
                        self.last_end() <= self.elems@.len(),
                        forall|e: nat|
                            body_start <= e < body_end ==> self.lo(e) == 0 && self.hi(e)
                                == T::bits(),
                        accum.val() == self.be_upto(i as nat),
                    decreases body_end - i,
                {
                    proof {
                        self.lemma_be_push(i as nat);
                        self.lemma_full(i as nat);
                        lemma_pow2_mono(T::bits(), M::bits());
                    }
                    accum = shift_in(accum, T::width(), resize::<T, M>(self.elems[i]));
                    i += 1;
                }
                if let Some((elem, tail)) = tail {
                    proof {
                        self.lemma_be_push(elem as nat);
                        lemma_pow2_mono(self.live(elem as nat), M::bits());
                        lemma_small_mod(self.chunk(elem as nat), pow2(M::bits()));
                    }
                    let mask = Msb0::mask::<T>(None, Some(tail));
                    let low = get::<T, M>(&self.elems[elem], mask, T::width() - tail);
                    // A tail as wide as the register follows nothing: the accumulator is
                    // zero, and shifting it in the working width leaves it zero.
                    accum = shift_in(accum, tail, low);
                }
                accum
            },
        }
    }

    fn store_le<M: BitMemory>(&mut self, value: M) {
        let ghost orig = *self;
        let ghost v0 = value.val();
        proof {
            self.lemma_edges();
            self.elems@[0].lemma_register();
            lemma_div_pow2(v0, 0, 0);
        }
        let mut value = value;
        match self.domain() {
            Domain::Enclave { head, elem, tail } => {
                let mut e = self.elems[elem];
                let mask = Msb0::mask::<T>(Some(head), Some(tail));
                set::<T, M>(&mut e, value, mask, T::width() - tail);
                self.elems.set(elem, e);
                proof {
                    self.lemma_before(elem as nat);
                    assert forall|k: nat| k < self.elems@.len() implies
                        #[trigger] self.elems@[k as int].val() == orig.placed(k, v0, orig.below(k)) by {}
                }
            },
            Domain::Region { head, body_start, body_end, tail } => {
                // The lowest address takes the least significant chunk: start there
                // and walk up to the tail.
                if let Some((head, elem)) = head {
                    let mut e = self.elems[elem];
                    let mask = Msb0::mask::<T>(Some(head), None);
                    set::<T, M>(&mut e, value, mask, 0);
                    self.elems.set(elem, e);
                    value = shift_out(value, T::width() - head);
                    proof {
                        self.lemma_before(elem as nat);
                        lemma_div_pow2(v0, 0, self.live(elem as nat));
                    }
                }
                let mut i = body_start;
                while i < body_end
                    invariant
                        orig.wf(),
                        orig.start < orig.end,
                        self.start == orig.start,
                        self.end == orig.end,
                        self.elems@.len() == orig.elems@.len(),
                        T::bits() <= 64,
                        orig.first() <= body_start <= i <= body_end <= orig.last_end(),
                        orig.last_end() <= orig.elems@.len(),
                        forall|e: nat|
                            body_start <= e < body_end ==> orig.lo(e) == 0 && orig.hi(e)
                                == T::bits(),
                        value.val() == v0 / pow2(orig.before(i as nat)),
                        forall|k: nat|
                            k < self.elems@.len() ==> #[trigger] self.elems@[k as int].val() == if k < i {
                                orig.placed(k, v0, orig.below(k))
                            } else {
                                orig.elems@[k as int].val()
                            },
                    decreases body_end - i,
                {
                    proof {
                        orig.lemma_before(i as nat);
                        orig.lemma_full(i as nat);
                        orig.elems@[i as int].lemma_register();
                        lemma_insert_full(orig.elems@[i as int].val(), value.val(), T::bits());
                        lemma_div_pow2(v0, orig.before(i as nat), T::bits());
                    }
                    self.elems.set(i, resize::<M, T>(value));
                    value = shift_out(value, T::width());
                    i += 1;
                }
                if let Some((elem, tail)) = tail {
                    proof {
                        orig.lemma_before(elem as nat);
                    }
                    let mut e = self.elems[elem];
                    let mask = Msb0::mask::<T>(None, Some(tail));
                    set::<T, M>(&mut e, value, mask, T::width() - tail);
                    self.elems.set(elem, e);
                }
                proof {
                    assert forall|k: nat| k < self.elems@.len() implies
                        #[trigger] self.elems@[k as int].val() == orig.placed(k, v0, orig.below(k)) by {}
                }
            },
        }
    }

    fn store_be<M: BitMemory>(&mut self, value: M) {
        let ghost orig = *self;
        let ghost v0 = value.val();
        proof {
            self.lemma_edges();
            self.elems@[0].lemma_register();
            lemma_div_pow2(v0, 0, 0);
        }
        let mut value = value;
        match self.domain() {
            Domain::Enclave { head, elem, tail } => {
                let mut e = self.elems[elem];
                let mask = Msb0::mask::<T>(Some(head), Some(tail));
                set::<T, M>(&mut e, value, mask, T::width() - tail);
                self.elems.set(elem, e);
                proof {
                    self.lemma_before(elem as nat);
                    assert forall|k: nat| k < self.elems@.len() implies
                        #[trigger] self.elems@[k as int].val() == orig.placed(k, v0, orig.above(k)) by {}
                }
            },
            Domain::Region { head, body_start, body_end, tail } => {
                // The highest address takes the least significant chunk: start there
                // and walk down to the head.
                proof {
                    self.lemma_before(self.first());
                }
                if let Some((elem, tail)) = tail {
                    proof {
                        self.lemma_before(elem as nat);
                        lemma_div_pow2(v0, 0, self.live(elem as nat));
                    }
                    let mut e = self.elems[elem];
                    let mask = Msb0::mask::<T>(None, Some(tail));
                    set::<T, M>(&mut e, value, mask, T::width() - tail);
                    self.elems.set(elem, e);
                    value = shift_out(value, tail);
                }
                let mut i = body_end;
                while i > body_start
                    invariant
                        orig.wf(),
                        orig.start < orig.end,
                        self.start == orig.start,
                        self.end == orig.end,
                        self.elems@.len() == orig.elems@.len(),
                        T::bits() <= 64,
                        orig.first() <= body_start <= i <= body_end <= orig.last_end(),
                        orig.last_end() <= orig.elems@.len(),
                        forall|e: nat|
                            body_start <= e < body_end ==> orig.lo(e) == 0 && orig.hi(e)
                                == T::bits(),
                        value.val() == v0 / pow2((orig.bit_len() - orig.before(i as nat)) as nat),
                        forall|k: nat|
                            k < self.elems@.len() ==> #[trigger] self.elems@[k as int].val() == if k >= i {
                                orig.placed(k, v0, orig.above(k))
                            } else {
                                orig.elems@[k as int].val()
                            },
                    decreases i,
                {
                    i -= 1;
                    proof {
                        orig.lemma_before(i as nat);
                        orig.lemma_full(i as nat);
                        orig.elems@[i as int].lemma_register();
                        lemma_insert_full(orig.elems@[i as int].val(), value.val(), T::bits());
                        let above = (orig.bit_len() - orig.before(i as nat + 1)) as nat;
                        lemma_div_pow2(v0, above, T::bits());
                    }
                    self.elems.set(i, resize::<M, T>(value));
                    value = shift_out(value, T::width());
                }
                if let Some((head, elem)) = head {
                    proof {
                        orig.lemma_before(elem as nat);
                    }
                    let mut e = self.elems[elem];
                    let mask = Msb0::mask::<T>(Some(head), None);
                    set::<T, M>(&mut e, value, mask, 0);
                    self.elems.set(elem, e);
                }
                proof {
                    assert forall|k: nat| k < self.elems@.len() implies
                        #[trigger] self.elems@[k as int].val() == orig.placed(k, v0, orig.above(k)) by {}
                }
            },
        }
    }
}

/// Storing a value into a range and loading it back, both with the lowest
/// address the least significant, gives the value back, for every register
/// that the range fits and every value whose set bits lie within the range's
/// length.
pub proof fn lemma_round_trip_le<O: BitOrder, T: BitMemory, M: BitMemory>(
    range: BitSlice<O, T>,
    after: BitSlice<O, T>,
    value: M,
)
    requires
        range.wf(),
        1 <= range.bit_len() <= M::bits(),
        value.val() < pow2(range.bit_len()),
        range.stores_le(&after, value.val()),
    ensures
        after.wf(),
        after.bit_len() == range.bit_len(),
        after.le_value() == value.val(),
{
    range.lemma_edges();
    range.lemma_before(range.first());
    range.lemma_le_stored(&after, value.val(), range.first());
    lemma_div_pow2(value.val(), 0, 0);
    lemma_small_mod(value.val(), pow2(range.bit_len()));
}

/// Storing a value into a range and loading it back, both with the lowest
/// address the most significant, gives the value back, for every register
/// that the range fits and every value whose set bits lie within the range's
/// length.
pub proof fn lemma_round_trip_be<O: BitOrder, T: BitMemory, M: BitMemory>(
    range: BitSlice<O, T>,
    after: BitSlice<O, T>,
    value: M,
)
    requires
        range.wf(),
        1 <= range.bit_len() <= M::bits(),
        value.val() < pow2(range.bit_len()),
        range.stores_be(&after, value.val()),
    ensures
        after.wf(),
        after.bit_len() == range.bit_len(),
        after.be_value() == value.val(),
{
    range.lemma_edges();
    range.lemma_before(range.first());
    range.lemma_be_stored(&after, value.val(), range.last_end());
    lemma_div_pow2(value.val(), 0, 0);
    lemma_small_mod(value.val(), pow2(range.bit_len()));
}

/// Within one storage element the byte order does not matter: both loads
/// read the same value, and both stores write the same memory.
pub proof fn lemma_enclave_endian<O: BitOrder, T: BitMemory>(range: BitSlice<O, T>, value: nat)
    requires
        range.wf(),
        1 <= range.bit_len(),
        range.first() + 1 == range.last_end(),
    ensures
        range.le_value() == range.be_value(),
        forall|after: BitSlice<O, T>|
            #[trigger] range.stores_le(&after, value) <==> range.stores_be(&after, value),
{
    range.lemma_edges();
    let f = range.first();
    range.lemma_le_push(f);
    range.lemma_be_push(f);
    range.lemma_before(f);
    lemma2_to64();
    assert forall|k: nat| #[trigger] range.placed(k, value, range.below(k)) == range.placed(
        k,
        value,
        range.above(k),
    ) by {
        if f <= k < range.last_end() {
            assert(k == f);
        }
    }
}

/// An element-aligned range of whole elements covers each element it
/// touches completely.
proof fn lemma_aligned<O: BitOrder, T: BitMemory>(range: BitSlice<O, T>)
    requires
        range.wf(),
        range.start < range.end,
        range.start as nat % T::bits() == 0,
        range.end as nat % T::bits() == 0,
    ensures
        forall|e: nat|
            range.first() <= e < range.last_end() ==> #[trigger] range.lo(e) == 0 && range.hi(e)
                == T::bits() && range.phys(e) == 0,
{
    range.lemma_edges();
    let w = T::bits();
    let l = range.last_end();
    let n = range.end as nat;
    assert(n == l * w) by (nonlinear_arith)
        requires
            (l - 1) * w < n <= l * w,
            n % w == 0,
            w > 0,
    ;
    assert forall|e: nat| range.first() <= e < range.last_end() implies #[trigger] range.lo(e) == 0
        && range.hi(e) == T::bits() && range.phys(e) == 0 by {
        if e + 1 == l {
            assert(range.hi(e) == w) by (nonlinear_arith)
                requires
                    e + 1 == l,
                    n == l * w,
                    range.hi(e) == if n < (e + 1) * w { (n - e * w) as nat } else { w },
            ;
        }
        O::lemma_window(w, 0, w);
    }
}

/// Aligned ranges of whole elements assemble alike under both orderings.
proof fn lemma_same_chunks<T: BitMemory>(lsb: BitSlice<Lsb0, T>, msb: BitSlice<Msb0, T>, e: nat)
    requires
        lsb.wf(),
        lsb.start < lsb.end,
        lsb.start == msb.start,
        lsb.end == msb.end,
        lsb.elems@ == msb.elems@,
        forall|k: nat|
            lsb.first() <= k < lsb.last_end() ==> #[trigger] lsb.phys(k) == 0 && msb.phys(k) == 0,
        lsb.first() <= e <= lsb.last_end(),
    ensures
        lsb.le_from(e) == msb.le_from(e),
        lsb.be_upto(e) == msb.be_upto(e),
    decreases lsb.last_end() - e,
{
    if e < lsb.last_end() {
        lemma_same_chunks(lsb, msb, e + 1);
    }
    lemma_same_chunks_be(lsb, msb, e);
}

proof fn lemma_same_chunks_be<T: BitMemory>(lsb: BitSlice<Lsb0, T>, msb: BitSlice<Msb0, T>, e: nat)
    requires
        lsb.wf(),
        lsb.start < lsb.end,
        lsb.start == msb.start,
        lsb.end == msb.end,
        lsb.elems@ == msb.elems@,
        forall|k: nat|
            lsb.first() <= k < lsb.last_end() ==> #[trigger] lsb.phys(k) == 0 && msb.phys(k) == 0,
        lsb.first() <= e <= lsb.last_end(),
    ensures
        lsb.be_upto(e) == msb.be_upto(e),
    decreases e,
{
    if lsb.first() < e {
        lemma_same_chunks_be(lsb, msb, (e - 1) as nat);
    }
}

/// For a range that starts and ends on element boundaries, the two ordering
/// policies agree: both read the same values and both write the same memory.
pub proof fn lemma_order_symmetry<T: BitMemory>(
    lsb: BitSlice<Lsb0, T>,
    msb: BitSlice<Msb0, T>,
    value: nat,
)
    requires
        lsb.wf(),
        1 <= lsb.bit_len(),
        lsb.start == msb.start,
        lsb.end == msb.end,
        lsb.elems@ == msb.elems@,
        lsb.start as nat % T::bits() == 0,
        lsb.end as nat % T::bits() == 0,
    ensures
        lsb.le_value() == msb.le_value(),
        lsb.be_value() == msb.be_value(),
        forall|a: BitSlice<Lsb0, T>, b: BitSlice<Msb0, T>|
            #[trigger] lsb.stores_le(&a, value) && #[trigger] msb.stores_le(&b, value) ==> forall|
                k: int,
            |
                0 <= k < a.elems@.len() ==> #[trigger] a.elems@[k].val() == b.elems@[k].val(),
        forall|a: BitSlice<Lsb0, T>, b: BitSlice<Msb0, T>|
            #[trigger] lsb.stores_be(&a, value) && #[trigger] msb.stores_be(&b, value) ==> forall|
                k: int,
            |
                0 <= k < a.elems@.len() ==> #[trigger] a.elems@[k].val() == b.elems@[k].val(),
{
    lemma_aligned(lsb);
    lemma_aligned(msb);
    lsb.lemma_edges();
    lemma_same_chunks(lsb, msb, lsb.first());
    lemma_same_chunks(lsb, msb, lsb.last_end());
    assert forall|a: BitSlice<Lsb0, T>, b: BitSlice<Msb0, T>|
        #[trigger] lsb.stores_le(&a, value) && #[trigger] msb.stores_le(&b, value) implies forall|
            k: int,
        | 0 <= k < a.elems@.len() ==> #[trigger] a.elems@[k].val() == b.elems@[k].val() by {
        assert forall|k: int| 0 <= k < a.elems@.len() implies #[trigger] a.elems@[k].val()
            == b.elems@[k].val() by {
            let e = k as nat;
            assert(a.elems@[e as int].val() == lsb.placed(e, value, lsb.below(e)));
            assert(b.elems@[e as int].val() == msb.placed(e, value, msb.below(e)));
        }
    }
    assert forall|a: BitSlice<Lsb0, T>, b: BitSlice<Msb0, T>|
        #[trigger] lsb.stores_be(&a, value) && #[trigger] msb.stores_be(&b, value) implies forall|
            k: int,
        | 0 <= k < a.elems@.len() ==> #[trigger] a.elems@[k].val() == b.elems@[k].val() by {
        assert forall|k: int| 0 <= k < a.elems@.len() implies #[trigger] a.elems@[k].val()
            == b.elems@[k].val() by {
            let e = k as nat;
            assert(a.elems@[e as int].val() == lsb.placed(e, value, lsb.above(e)));
            assert(b.elems@[e as int].val() == msb.placed(e, value, msb.above(e)));
        }
    }
}

} // verus!
