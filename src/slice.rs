//! Bit ranges over a region of storage elements, their mathematical model,
//! and their decomposition into a partial head, fully covered interior
//! elements and a partial tail.
use vstd::prelude::*;
use vstd::arithmetic::power2::{lemma2_to64, lemma_pow2_adds, lemma_pow2_pos, pow2};
use crate::mask::{field, insert_field, lemma_div_pow2, lemma_field_of_insert};
use crate::mem::{lemma_pow2_mono, BitMemory};
use vstd::arithmetic::div_mod::{lemma_breakdown, lemma_small_mod};
use crate::order::BitOrder;

verus! {

/// The bits `start .. end` of a region of storage elements. Bit `i` of the
/// region is logical position `i % W` of element `i / W`, where `W` is the
/// element width; the ordering policy `O` places that position on a physical
/// bit of the element.
pub struct BitSlice<O, T> {
    pub order: O,
    pub elems: Vec<T>,
    pub start: usize,
    pub end: usize,
}

/// How a bit range lies over its storage elements. Elements are named by
/// their index in the region.
#[derive(Clone, Copy, Debug)]
#[allow(inconsistent_fields)]
pub enum Domain {
    /// The range lies inside one element, away from both of its edges:
    /// logical positions `head .. tail` of element `elem`.
    Enclave { head: u8, elem: usize, tail: u8 },
    /// The range reaches an edge of each element it touches. `head` is the
    /// first live position and the index of a partially covered leading
    /// element; `body_start .. body_end` are the fully covered elements;
    /// `tail` is the index of a partially covered trailing element and one
    /// past its last live position.
    Region {
        head: Option<(u8, usize)>,
        body_start: usize,
        body_end: usize,
        tail: Option<(usize, u8)>,
    },
}

/// Putting `low` below `high` shifted up by `k` bits stays below `2^(n + k)`.
pub proof fn lemma_push_bound(high: nat, low: nat, n: nat, k: nat)
    requires
        high < pow2(n),
        low < pow2(k),
    ensures
        high * pow2(k) + low < pow2(n + k),
        low + pow2(k) * high < pow2(k + n),
{
    lemma_pow2_adds(n, k);
    assert(high * pow2(k) + low < pow2(n) * pow2(k)) by (nonlinear_arith)
        requires
            high < pow2(n),
            low < pow2(k),
    ;
}

impl<O: BitOrder, T: BitMemory> BitSlice<O, T> {
    /// The bits `start .. end` of `elems`, under the ordering `order`; `None`
    /// where they do not lie inside the region.
    pub fn new(order: O, elems: Vec<T>, start: usize, end: usize) -> (r: Option<Self>)
        ensures
            r is Some <==> start <= end && end <= elems@.len() * T::bits(),
            r matches Some(s) ==> s.wf() && s.order == order && s.elems@ == elems@ && s.start
                == start && s.end == end,
    {
        let width = T::width();
        let count = elems.len();
        proof {
            assert(count as nat * width as nat <= 0x1_0000_0000_0000_0000 * 255)
                by (nonlinear_arith)
                requires
                    width <= 255,
                    count < 0x1_0000_0000_0000_0000,
            ;
        }
        let capacity = count as u128 * width as u128;
        if start <= end && (end as u128) <= capacity {
            Some(BitSlice { order, elems, start, end })
        } else {
            None
        }
    }

    /// The number of bits in the range.
    pub fn len(&self) -> (r: usize)
        requires
            self.wf(),
        ensures
            r as nat == self.bit_len(),
    {
        self.end - self.start
    }

    /// The range lies inside the region.
    pub open spec fn wf(&self) -> bool {
        self.start <= self.end && self.end <= self.elems.len() * T::bits()
    }

    /// The number of bits in the range.
    pub open spec fn bit_len(&self) -> nat {
        (self.end - self.start) as nat
    }

    /// The index of the first element that the range touches.
    pub open spec fn first(&self) -> nat {
        self.start as nat / T::bits()
    }

    /// One past the index of the last element that the range touches.
    pub open spec fn last_end(&self) -> nat {
        if self.end == 0 {
            0
        } else {
            (self.end - 1) as nat / T::bits() + 1
        }
    }

    /// The first live logical position of element `e`.
    pub open spec fn lo(&self, e: nat) -> nat {
        if e * T::bits() < self.start {
            (self.start - e * T::bits()) as nat
        } else {
            0
        }
    }

    /// One past the last live logical position of element `e`.
    pub open spec fn hi(&self, e: nat) -> nat {
        if self.end < (e + 1) * T::bits() {
            (self.end - e * T::bits()) as nat
        } else {
            T::bits()
        }
    }

    /// The number of live bits of element `e`.
    pub open spec fn live(&self, e: nat) -> nat {
        (self.hi(e) - self.lo(e)) as nat
    }

    /// The physical low edge of the live bits of element `e`.
    pub open spec fn phys(&self, e: nat) -> nat {
        O::phys_lo(T::bits(), self.lo(e), self.hi(e))
    }

    /// The live bits of element `e`, read as an integer whose least
    /// significant bit is the lowest live physical bit.
    pub open spec fn chunk(&self, e: nat) -> nat {
        field(self.elems@[e as int].val(), self.phys(e), self.phys(e) + self.live(e))
    }

    /// The chunks of elements `e ..`, the lowest address the least
    /// significant.
    pub open spec fn le_from(&self, e: nat) -> nat
        decreases self.last_end() - e,
    {
        if e < self.last_end() {
            self.chunk(e) + pow2(self.live(e)) * self.le_from(e + 1)
        } else {
            0
        }
    }

    /// The chunks of the touched elements before `e`, the lowest address the
    /// most significant.
    pub open spec fn be_upto(&self, e: nat) -> nat
        decreases e,
    {
        if self.first() < e {
            self.be_upto((e - 1) as nat) * pow2(self.live((e - 1) as nat)) + self.chunk(
                (e - 1) as nat,
            )
        } else {
            0
        }
    }

    /// The value of the range when the lowest address holds the least
    /// significant chunk.
    pub open spec fn le_value(&self) -> nat {
        self.le_from(self.first())
    }

    /// The value of the range when the lowest address holds the most
    /// significant chunk.
    pub open spec fn be_value(&self) -> nat {
        self.be_upto(self.last_end())
    }

    /// How many bits of the range lie in elements before `e`.
    pub open spec fn below(&self, e: nat) -> nat {
        (e * T::bits() + self.lo(e) - self.start) as nat
    }

    /// How many bits of the range lie in elements after `e`.
    pub open spec fn above(&self, e: nat) -> nat {
        (self.end - (e * T::bits() + self.hi(e))) as nat
    }

    /// Element `e` once its live bits hold the chunk of `value` that starts
    /// `offset` bits up.
    pub open spec fn placed(&self, e: nat, value: nat, offset: nat) -> nat {
        if self.first() <= e < self.last_end() {
            insert_field(
                self.elems@[e as int].val(),
                self.phys(e),
                self.phys(e) + self.live(e),
                value / pow2(offset),
            )
        } else {
            self.elems@[e as int].val()
        }
    }

    /// `after` is this range with `value` stored in it, the lowest address
    /// the least significant.
    pub open spec fn stores_le(&self, after: &Self, value: nat) -> bool {
        &&& after.start == self.start
        &&& after.end == self.end
        &&& after.elems@.len() == self.elems@.len()
        &&& forall|e: nat|
            e < self.elems@.len() ==> #[trigger] after.elems@[e as int].val() == self.placed(
                e,
                value,
                self.below(e),
            )
    }

    /// `after` is this range with `value` stored in it, the lowest address
    /// the most significant.
    pub open spec fn stores_be(&self, after: &Self, value: nat) -> bool {
        &&& after.start == self.start
        &&& after.end == self.end
        &&& after.elems@.len() == self.elems@.len()
        &&& forall|e: nat|
            e < self.elems@.len() ==> #[trigger] after.elems@[e as int].val() == self.placed(
                e,
                value,
                self.above(e),
            )
    }
    /// Where the range starts and ends among the elements it touches.
    pub proof fn lemma_edges(&self)
        requires
            self.wf(),
            self.start < self.end,
        ensures
            self.first() * T::bits() <= self.start < (self.first() + 1) * T::bits(),
            (self.last_end() - 1) * T::bits() < self.end <= self.last_end() * T::bits(),
            self.first() < self.last_end() <= self.elems@.len(),
            self.lo(self.first()) == self.start as nat % T::bits(),
            self.lo(self.first()) < self.hi(self.first()) || self.first() + 1 < self.last_end(),
            forall|e: nat| self.first() < e ==> #[trigger] self.lo(e) == 0,
            forall|e: nat| e + 1 < self.last_end() ==> #[trigger] self.hi(e) == T::bits(),
            forall|e: nat|
                self.first() <= e < self.last_end() ==> #[trigger] self.lo(e) < self.hi(e)
                    <= T::bits(),
    {
        let w = T::bits();
        let f = self.first();
        let l = self.last_end();
        let s = self.start as nat;
        let n = self.end as nat;
        self.elems@[0].lemma_register();
        assert(w > 0);
        assert(f * w <= s < (f + 1) * w) by (nonlinear_arith)
            requires
                f == s / w,
                w > 0,
        ;
        assert((l - 1) * w < n <= l * w) by (nonlinear_arith)
            requires
                l == (n - 1) as nat / w + 1,
                n >= 1,
                w > 0,
        ;
        assert(l <= self.elems@.len()) by (nonlinear_arith)
            requires
                (l - 1) * w < n,
                n <= self.elems@.len() * w,
                w > 0,
        ;
        assert(f < l) by (nonlinear_arith)
            requires
                f * w <= s,
                s < n,
                n <= l * w,
                w > 0,
        ;
        assert forall|e: nat| f < e implies #[trigger] self.lo(e) == 0 by {
            assert(e * w >= (f + 1) * w) by (nonlinear_arith)
                requires
                    e >= f + 1,
            ;
        }
        assert forall|e: nat| e + 1 < l implies #[trigger] self.hi(e) == w by {
            assert((e + 1) * w <= (l - 1) * w) by (nonlinear_arith)
                requires
                    e + 1 <= l - 1,
            ;
        }
        assert forall|e: nat| f <= e < l implies #[trigger] self.lo(e) < self.hi(e) <= w by {
            assert(e * w <= (l - 1) * w) by (nonlinear_arith)
                requires
                    e <= l - 1,
            ;
            assert((e + 1) * w >= (f + 1) * w) by (nonlinear_arith)
                requires
                    e >= f,
            ;
            assert((e + 1) * w == e * w + w) by (nonlinear_arith);
        }
        assert(s % w == s - f * w) by (nonlinear_arith)
            requires
                f == s / w,
                w > 0,
        ;
    }

    /// Splits the range into its partial head, its fully covered elements
    /// and its partial tail.
    pub fn domain(&self) -> (r: Domain)
        requires
            self.wf(),
            self.start < self.end,
        ensures
            match r {
                Domain::Enclave { head, elem, tail } => {
                    &&& elem as nat == self.first()
                    &&& elem + 1 == self.last_end()
                    &&& head as nat == self.lo(self.first())
                    &&& tail as nat == self.hi(self.first())
                    &&& 0 < head < tail < T::bits()
                },
                Domain::Region { head, body_start, body_end, tail } => {
                    &&& (head is Some <==> self.lo(self.first()) != 0)
                    &&& (head matches Some((h, e)) ==> h as nat == self.lo(self.first()) && e
                        == self.first())
                    &&& body_start == self.first() + (if head is Some {
                        1nat
                    } else {
                        0nat
                    })
                    &&& (tail is Some <==> self.hi((self.last_end() - 1) as nat) != T::bits())
                    &&& (tail matches Some((e, t)) ==> e == self.last_end() - 1 && t as nat
                        == self.hi(e as nat))
                    &&& body_end + (if tail is Some {
                        1nat
                    } else {
                        0nat
                    }) == self.last_end()
                    &&& body_start <= body_end
                },
            },
    {
        proof {
            self.lemma_edges();
        }
        let w = T::width() as usize;
        let first = self.start / w;
        let head = (self.start % w) as u8;
        let last = (self.end - 1) / w;
        let tail = (self.end - last * w) as u8;
        proof {
            assert(last + 1 == self.last_end());
            assert((last + 1) * w == last * w + w) by (nonlinear_arith);
        }
        if first == last && head != 0 && (tail as usize) != w {
            Domain::Enclave { head, elem: first, tail }
        } else {
            Domain::Region {
                head: if head != 0 {
                    Some((head, first))
                } else {
                    None
                },
                body_start: if head != 0 {
                    first + 1
                } else {
                    first
                },
                body_end: if (tail as usize) != w {
                    last
                } else {
                    last + 1
                },
                tail: if (tail as usize) != w {
                    Some((last, tail))
                } else {
                    None
                },
            }
        }
    }
    /// How many bits of the range lie in the elements before `e`.
    pub open spec fn before(&self, e: nat) -> nat {
        if e <= self.first() {
            0
        } else if self.end < e * T::bits() {
            self.bit_len()
        } else {
            (e * T::bits() - self.start) as nat
        }
    }

    /// The live bits of each touched element are the bits of the range
    /// between those before it and those before its successor.
    pub proof fn lemma_before(&self, e: nat)
        requires
            self.wf(),
            self.start < self.end,
            self.first() <= e < self.last_end(),
        ensures
            self.before(self.first()) == 0,
            self.before(self.last_end()) == self.bit_len(),
            self.before(e) < self.before(e + 1) <= self.bit_len(),
            self.live(e) == self.before(e + 1) - self.before(e),
            self.below(e) == self.before(e),
            self.above(e) == self.bit_len() - self.before(e + 1),
    {
        self.lemma_edges();
        let w = T::bits();
        assert((e + 1) * w == e * w + w) by (nonlinear_arith);
        assert(e * w < self.end) by (nonlinear_arith)
            requires
                e <= self.last_end() - 1,
                (self.last_end() - 1) * w < self.end,
        ;
        assert(self.end <= self.last_end() * w);
        if self.first() < e {
            assert(e * w >= (self.first() + 1) * w) by (nonlinear_arith)
                requires
                    e >= self.first() + 1,
            ;
        }
    }

    /// The chunks from element `e` on fit in the bits of the range from `e`
    /// on.
    pub proof fn lemma_le_bound(&self, e: nat)
        requires
            self.wf(),
            self.start < self.end,
            self.first() <= e <= self.last_end(),
        ensures
            self.le_from(e) < pow2((self.bit_len() - self.before(e)) as nat),
        decreases self.last_end() - e,
    {
        if e < self.last_end() {
            self.lemma_before(e);
            self.lemma_le_bound(e + 1);
            self.lemma_chunk_bound(e);
            lemma_push_bound(
                self.le_from(e + 1),
                self.chunk(e),
                (self.bit_len() - self.before(e + 1)) as nat,
                self.live(e),
            );
        } else {
            self.lemma_edges();
            assert(self.before(e) == self.bit_len());
            lemma2_to64();
        }
    }

    /// The chunks before element `e` fit in the bits of the range before `e`.
    pub proof fn lemma_be_bound(&self, e: nat)
        requires
            self.wf(),
            self.start < self.end,
            self.first() <= e <= self.last_end(),
        ensures
            self.be_upto(e) < pow2(self.before(e)),
        decreases e,
    {
        if self.first() < e {
            let p = (e - 1) as nat;
            self.lemma_before(p);
            self.lemma_be_bound(p);
            self.lemma_chunk_bound(p);
            lemma_push_bound(self.be_upto(p), self.chunk(p), self.before(p), self.live(p));
        } else {
            lemma2_to64();
        }
    }

    /// A chunk fits in the live bits of its element.
    pub proof fn lemma_chunk_bound(&self, e: nat)
        requires
            self.wf(),
            self.start < self.end,
            self.first() <= e < self.last_end(),
        ensures
            self.chunk(e) < pow2(self.live(e)),
            self.phys(e) + self.live(e) <= T::bits(),
    {
        self.lemma_edges();
        O::lemma_window(T::bits(), self.lo(e), self.hi(e));
        lemma_pow2_pos(self.live(e));
    }



    /// One step of the little-endian assembly: the chunk of `e` below the
    /// chunks of the elements after it.
    pub proof fn lemma_le_push(&self, e: nat)
        requires
            self.wf(),
            self.start < self.end,
            self.first() <= e < self.last_end(),
        ensures
            self.le_from(e) == self.le_from(e + 1) * pow2(self.live(e)) + self.chunk(e),
            self.le_from(self.last_end()) == 0,
            e + 1 == self.last_end() ==> self.le_from(e) == self.chunk(e),
            self.le_from(e) < pow2(self.bit_len()),
            self.le_from(e + 1) * pow2(self.live(e)) + self.chunk(e) < pow2(self.bit_len()),
            self.chunk(e) < pow2(self.live(e)),
            self.live(e) <= self.bit_len(),
            self.live(e) <= T::bits(),
    {
        self.lemma_before(e);
        self.lemma_le_bound(e);
        self.lemma_chunk_bound(e);
        lemma_pow2_mono(
            (self.bit_len() - self.before(e)) as nat,
            self.bit_len(),
        );
        assert(pow2(self.live(e)) * self.le_from(e + 1) == self.le_from(e + 1) * pow2(self.live(e)))
            by (nonlinear_arith);
        assert(self.le_from(self.last_end()) == 0);
        if e + 1 == self.last_end() {
            let z = self.le_from(e + 1);
            assert(z == 0);
            assert(z * pow2(self.live(e)) == 0) by (nonlinear_arith)
                requires
                    z == 0,
            ;
        }
    }

    /// One step of the big-endian assembly: the chunk of `e` below the
    /// chunks of the touched elements before it.
    pub proof fn lemma_be_push(&self, e: nat)
        requires
            self.wf(),
            self.start < self.end,
            self.first() <= e < self.last_end(),
        ensures
            self.be_upto(self.first()) == 0,
            self.be_upto(e + 1) == self.be_upto(e) * pow2(self.live(e)) + self.chunk(e),
            self.be_upto(e + 1) < pow2(self.bit_len()),
            self.chunk(e) < pow2(self.live(e)),
            self.live(e) <= self.bit_len(),
            self.live(e) <= T::bits(),
    {
        self.lemma_before(e);
        self.lemma_be_bound(e + 1);
        self.lemma_chunk_bound(e);
        lemma_pow2_mono(self.before(e + 1), self.bit_len());
    }

    /// A fully covered element is its own chunk.
    pub proof fn lemma_full(&self, e: nat)
        requires
            self.wf(),
            self.start < self.end,
            self.first() <= e < self.last_end(),
            self.lo(e) == 0,
            self.hi(e) == T::bits(),
        ensures
            self.chunk(e) == self.elems@[e as int].val(),
            self.live(e) == T::bits(),
            self.phys(e) == 0,
    {
        self.lemma_edges();
        O::lemma_window(T::bits(), 0, T::bits());
        self.elems@[e as int].lemma_register();
        lemma2_to64();
        lemma_small_mod(self.elems@[e as int].val(), pow2(T::bits()));
    }

    /// The little-endian assembly of a range just stored, from element `e`
    /// on, is the matching window of the stored value.
    pub proof fn lemma_le_stored(&self, after: &Self, value: nat, e: nat)
        requires
            self.wf(),
            self.start < self.end,
            self.stores_le(after, value),
            self.first() <= e <= self.last_end(),
        ensures
            after.le_from(e) == (value / pow2(self.before(e))) % pow2(
                (self.bit_len() - self.before(e)) as nat,
            ),
        decreases self.last_end() - e,
    {
        let b = self.before(e);
        let x = value / pow2(b);
        if e < self.last_end() {
            self.lemma_before(e);
            self.lemma_chunk_bound(e);
            self.lemma_le_stored(after, value, e + 1);
            let l = self.live(e);
            let r = (self.bit_len() - self.before(e + 1)) as nat;
            self.elems@[e as int].lemma_register();
            lemma2_to64();
            lemma_pow2_mono(T::bits(), 64);
            lemma_field_of_insert(
                self.elems@[e as int].val(),
                self.phys(e),
                self.phys(e) + l,
                x,
            );
            assert(after.elems@[e as int].val() == self.placed(e, value, self.below(e)));
            assert(after.chunk(e) == x % pow2(l));
            lemma_div_pow2(value, b, l);
            lemma_pow2_pos(b);
            lemma_pow2_pos(l);
            lemma_pow2_pos(r);
            lemma_breakdown(x as int, pow2(l) as int, pow2(r) as int);
            lemma_pow2_adds(l, r);
        } else {
            self.lemma_edges();
            self.lemma_before(self.first());
            lemma2_to64();
        }
    }

    /// The big-endian assembly of a range just stored, up to element `e`, is
    /// the matching window of the stored value.
    pub proof fn lemma_be_stored(&self, after: &Self, value: nat, e: nat)
        requires
            self.wf(),
            self.start < self.end,
            self.stores_be(after, value),
            self.first() <= e <= self.last_end(),
        ensures
            after.be_upto(e) == (value / pow2((self.bit_len() - self.before(e)) as nat)) % pow2(
                self.before(e),
            ),
        decreases e,
    {
        if self.first() < e {
            let p = (e - 1) as nat;
            self.lemma_before(p);
            self.lemma_chunk_bound(p);
            self.lemma_be_stored(after, value, p);
            let l = self.live(p);
            let a = (self.bit_len() - self.before(e)) as nat;
            let x = value / pow2(a);
            let bb = self.before(p);
            self.elems@[p as int].lemma_register();
            lemma2_to64();
            lemma_pow2_mono(T::bits(), 64);
            lemma_field_of_insert(
                self.elems@[p as int].val(),
                self.phys(p),
                self.phys(p) + l,
                x,
            );
            assert(after.elems@[p as int].val() == self.placed(p, value, self.above(p)));
            assert(after.chunk(p) == x % pow2(l));
            lemma_div_pow2(value, a, l);
            lemma_pow2_pos(a);
            assert(a + l == (self.bit_len() - bb) as nat);
            lemma_pow2_pos(l);
            lemma_pow2_pos(bb);
            lemma_breakdown(x as int, pow2(l) as int, pow2(bb) as int);
            lemma_pow2_adds(l, bb);
            assert(pow2(l) * ((x / pow2(l)) % pow2(bb)) == ((x / pow2(l)) % pow2(bb)) * pow2(l))
                by (nonlinear_arith);
        } else {
            self.lemma_edges();
            self.lemma_before(self.first());
            lemma2_to64();
        }
    }
}

} // verus!
