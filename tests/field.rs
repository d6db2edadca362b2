use bitfield::field::{
    check, get, host_is_little_endian, BitField, RangeWidthViolation, Transfer,
};
use bitfield::mask::BitMask;
use bitfield::mem::resize;
use bitfield::order::{Lsb0, Msb0};
use bitfield::slice::BitSlice;

fn lsb<T>(elems: Vec<T>, start: usize, end: usize) -> BitSlice<Lsb0, T> {
    BitSlice { order: Lsb0, elems, start, end }
}

fn msb<T>(elems: Vec<T>, start: usize, end: usize) -> BitSlice<Msb0, T> {
    BitSlice { order: Msb0, elems, start, end }
}

#[test]
fn store_le_across_byte_boundary() {
    let mut s = lsb(vec![0b0000_0000u8, 0b0000_0000], 4, 12);
    s.store_le(0xABu8);
    assert_eq!(s.elems, vec![0b1011_0000u8, 0b0000_1010]);
    assert_eq!(s.load_le::<u8>(), 0xAB);
}

#[test]
fn store_le_single_byte_enclave() {
    let mut s = lsb(vec![0u8], 2, 6);
    s.store_le(0b1101u8);
    assert_eq!(s.elems, vec![0b0011_0100u8]);
    assert_eq!(s.load_le::<u8>(), 0b1101);
}

#[test]
fn store_be_across_byte_boundary() {
    let mut s = lsb(vec![0u8, 0], 4, 12);
    s.store_be(0xABu8);
    assert_eq!(s.elems, vec![0xA0u8, 0x0B]);
    assert_eq!(s.load_be::<u8>(), 0xAB);
}

#[test]
fn msb0_store_le_across_byte_boundary() {
    let mut s = msb(vec![0u8, 0], 4, 12);
    s.store_le(0xABu8);
    assert_eq!(s.elems, vec![0x0Bu8, 0xA0]);
    assert_eq!(s.load_le::<u8>(), 0xAB);
}

#[test]
fn msb0_store_be_across_byte_boundary() {
    let mut s = msb(vec![0u8, 0], 4, 12);
    s.store_be(0xABu8);
    assert_eq!(s.elems, vec![0x0Au8, 0xB0]);
    assert_eq!(s.load_be::<u8>(), 0xAB);
}

#[test]
fn orderings_place_an_enclave_differently() {
    let mut a = lsb(vec![0u8], 1, 4);
    a.store_le(0b101u8);
    assert_eq!(a.elems, vec![0b0000_1010u8]);
    let mut b = msb(vec![0u8], 1, 4);
    b.store_le(0b101u8);
    assert_eq!(b.elems, vec![0b0101_0000u8]);
    assert_eq!(b.load_le::<u8>(), 0b101);
}

#[test]
fn store_keeps_bits_outside_the_range() {
    let mut s = lsb(vec![0xFFu8, 0xFF], 4, 12);
    s.store_le(0u8);
    assert_eq!(s.elems, vec![0x0Fu8, 0xF0]);
    let mut m = msb(vec![0xFFu8, 0xFF, 0xFF], 3, 13);
    m.store_be(0u16);
    assert_eq!(m.elems, vec![0b1110_0000u8, 0b0000_0111, 0xFF]);
}

#[test]
fn store_le_with_full_interior_elements() {
    let mut s = lsb(vec![0u8; 4], 4, 28);
    s.store_le(0x123456u32);
    assert_eq!(s.elems, vec![0x60u8, 0x45, 0x23, 0x01]);
    assert_eq!(s.load_le::<u32>(), 0x123456);
}

#[test]
fn store_be_with_full_interior_elements() {
    let mut s = lsb(vec![0u8; 4], 4, 28);
    s.store_be(0x123456u32);
    assert_eq!(s.elems, vec![0x10u8, 0x23, 0x45, 0x06]);
    assert_eq!(s.load_be::<u32>(), 0x123456);
}

#[test]
fn wide_elements_into_wide_register() {
    let mut s = lsb(vec![0u16; 3], 8, 40);
    s.store_le(0xDEADBEEFu64);
    assert_eq!(s.elems, vec![0xEF00u16, 0xADBE, 0x00DE]);
    assert_eq!(s.load_le::<u64>(), 0xDEADBEEF);
}

#[test]
fn register_narrower_than_element() {
    let mut s = lsb(vec![0u16], 4, 12);
    s.store_le(0xABu8);
    assert_eq!(s.elems, vec![0x0AB0u16]);
    assert_eq!(s.load_le::<u8>(), 0xAB);
    let mut m = msb(vec![0u16], 0, 8);
    m.store_be(0xABu8);
    assert_eq!(m.elems, vec![0xAB00u16]);
    assert_eq!(m.load_be::<u8>(), 0xAB);
}

#[test]
fn tail_that_fills_the_register() {
    let mut s = lsb(vec![0u16, 0u16], 16, 24);
    s.store_be(0xC3u8);
    assert_eq!(s.elems, vec![0u16, 0x00C3]);
    assert_eq!(s.load_be::<u8>(), 0xC3);
    assert_eq!(s.load_le::<u8>(), 0xC3);
}

#[test]
fn whole_register_of_bytes() {
    let mut s = lsb(vec![0u8; 8], 0, 64);
    s.store_le(0x0102030405060708u64);
    assert_eq!(s.elems, vec![8u8, 7, 6, 5, 4, 3, 2, 1]);
    s.store_be(0x0102030405060708u64);
    assert_eq!(s.elems, vec![1u8, 2, 3, 4, 5, 6, 7, 8]);
    assert_eq!(s.load_be::<u64>(), 0x0102030405060708);
    assert_eq!(s.load_le::<u64>(), 0x0807060504030201);
}

#[test]
fn orderings_agree_on_aligned_ranges() {
    for &(start, end) in &[(0usize, 8usize), (8, 24), (0, 32)] {
        let mut a = lsb(vec![0x5Au8; 4], start, end);
        let mut b = msb(vec![0x5Au8; 4], start, end);
        a.store_le(0xC0FFEE11u32);
        b.store_le(0xC0FFEE11u32);
        assert_eq!(a.elems, b.elems);
        assert_eq!(a.load_le::<u32>(), b.load_le::<u32>());
        a.store_be(0x12345678u32);
        b.store_be(0x12345678u32);
        assert_eq!(a.elems, b.elems);
        assert_eq!(a.load_be::<u32>(), b.load_be::<u32>());
    }
}

#[test]
fn enclave_ignores_byte_order() {
    for start in 0..8usize {
        for end in (start + 1)..=8usize {
            let mut a = lsb(vec![0x96u8, 0x3C], start + 4, end + 4);
            let mut b = lsb(vec![0x96u8, 0x3C], start + 4, end + 4);
            if (start + 4) / 8 != (end + 3) / 8 {
                continue;
            }
            assert_eq!(a.load_le::<u8>(), a.load_be::<u8>());
            a.store_le(0xA5u8);
            b.store_be(0xA5u8);
            assert_eq!(a.elems, b.elems);
            let mut c = msb(vec![0x96u8], start, end);
            let mut d = msb(vec![0x96u8], start, end);
            assert_eq!(c.load_le::<u8>(), c.load_be::<u8>());
            c.store_le(0x3Cu8);
            d.store_be(0x3Cu8);
            assert_eq!(c.elems, d.elems);
        }
    }
}

fn lsb_bit(elems: &[u8], i: usize) -> u8 {
    (elems[i / 8] >> (i % 8)) & 1
}

fn msb_bit(elems: &[u8], i: usize) -> u8 {
    (elems[i / 8] >> (7 - i % 8)) & 1
}

#[test]
fn round_trip_over_every_short_range() {
    let fill = vec![0xA5u8, 0x3C, 0x96];
    for start in 0..24usize {
        for end in (start + 1)..=24usize {
            let len = end - start;
            if len > 16 {
                continue;
            }
            let value: u16 = (0xB6D3u32 & ((1u32 << len) - 1)) as u16;
            let mut a = lsb(fill.clone(), start, end);
            a.store_le(value);
            assert_eq!(a.load_le::<u16>(), value);
            let mut b = lsb(fill.clone(), start, end);
            b.store_be(value);
            assert_eq!(b.load_be::<u16>(), value);
            let mut c = msb(fill.clone(), start, end);
            c.store_le(value);
            assert_eq!(c.load_le::<u16>(), value);
            let mut d = msb(fill.clone(), start, end);
            d.store_be(value);
            assert_eq!(d.load_be::<u16>(), value);
            for i in (0..start).chain(end..24) {
                assert_eq!(lsb_bit(&a.elems, i), lsb_bit(&fill, i));
                assert_eq!(lsb_bit(&b.elems, i), lsb_bit(&fill, i));
                assert_eq!(msb_bit(&c.elems, i), msb_bit(&fill, i));
                assert_eq!(msb_bit(&d.elems, i), msb_bit(&fill, i));
            }
        }
    }
}

#[test]
fn store_consumes_only_the_low_bits() {
    let mut s = lsb(vec![0u8, 0], 4, 12);
    s.store_le(0xFFABu16);
    assert_eq!(s.elems, vec![0xB0u8, 0x0A]);
    assert_eq!(s.load_le::<u16>(), 0xAB);
}

#[test]
fn native_order_matches_one_of_the_explicit_orders() {
    let mut s = lsb(vec![0u8, 0], 4, 12);
    s.store(0xABu8);
    assert_eq!(s.load::<u8>(), 0xAB);
    if host_is_little_endian() {
        assert_eq!(s.elems, vec![0xB0u8, 0x0A]);
    } else {
        assert_eq!(s.elems, vec![0xA0u8, 0x0B]);
    }
}

#[test]
fn host_byte_order_is_detected() {
    assert_eq!(host_is_little_endian(), u16::from_ne_bytes([1, 0]) == 1);
}

#[test]
fn resize_keeps_extends_and_truncates() {
    assert_eq!(resize::<u16, u16>(0xBEEF), 0xBEEF);
    assert_eq!(resize::<u8, u32>(0xAB), 0xAB);
    assert_eq!(resize::<u16, u64>(0xFFFF), 0xFFFF);
    assert_eq!(resize::<u32, u8>(0x12345678), 0x78);
    assert_eq!(resize::<u64, u16>(0x1122334455667788), 0x7788);
}

fn violation(action: Transfer, width: u8, len: usize) -> Result<(), RangeWidthViolation> {
    Err(RangeWidthViolation { action, width, len })
}

#[test]
fn check_rejects_empty_and_too_wide_ranges() {
    assert_eq!(check::<u8>(Transfer::Load, 0), violation(Transfer::Load, 8, 0));
    assert_eq!(check::<u8>(Transfer::Store, 9), violation(Transfer::Store, 8, 9));
    assert_eq!(check::<u8>(Transfer::Load, 8), Ok(()));
    assert_eq!(check::<u8>(Transfer::Store, 1), Ok(()));
    assert_eq!(check::<u64>(Transfer::Load, 64), Ok(()));
    assert_eq!(check::<u64>(Transfer::Store, 65), violation(Transfer::Store, 64, 65));
    assert_eq!(check::<u16>(Transfer::Load, 0), violation(Transfer::Load, 16, 0));
    assert_eq!(check::<u32>(Transfer::Store, 33), violation(Transfer::Store, 32, 33));
}

#[test]
fn get_reads_a_masked_window() {
    assert_eq!(get::<u8, u8>(&0b1011_0110, BitMask { lo: 2, hi: 6 }, 2), 0b1101);
    assert_eq!(get::<u16, u8>(&0xABCD, BitMask { lo: 4, hi: 16 }, 4), 0xBC);
    assert_eq!(get::<u16, u32>(&0xABCD, BitMask { lo: 4, hi: 16 }, 4), 0xABC);
    assert_eq!(get::<u64, u64>(&u64::MAX, BitMask { lo: 0, hi: 64 }, 0), u64::MAX);
}

#[test]
fn set_writes_a_masked_window() {
    let mut e = 0xFFu8;
    bitfield::field::set(&mut e, 0u8, BitMask { lo: 2, hi: 6 }, 2);
    assert_eq!(e, 0b1100_0011);
    let mut w = 0u16;
    bitfield::field::set(&mut w, 0xFFu8, BitMask { lo: 4, hi: 8 }, 4);
    assert_eq!(w, 0x00F0);
    let mut x = 0x1234u16;
    bitfield::field::set(&mut x, 0xABCDu32, BitMask { lo: 0, hi: 16 }, 0);
    assert_eq!(x, 0xABCD);
    let mut y = 0u64;
    bitfield::field::set(&mut y, u64::MAX, BitMask { lo: 60, hi: 64 }, 60);
    assert_eq!(y, 0xF000_0000_0000_0000);
}

#[test]
fn new_checks_the_range_lies_inside() {
    assert!(BitSlice::new(Lsb0, vec![0u8, 0], 4, 12).is_some());
    assert!(BitSlice::new(Lsb0, vec![0u8, 0], 4, 17).is_none());
    assert!(BitSlice::new(Msb0, vec![0u8], 3, 2).is_none());
    let s = BitSlice::new(Msb0, vec![0u16], 3, 16).unwrap();
    assert_eq!(s.len(), 13);
}

#[test]
fn resize_across_every_width_pair() {
    let x8: u8 = 0xF1;
    let x16: u16 = 0xE2F1;
    let x32: u32 = 0xC4D3_E2F1;
    let x64: u64 = 0x8897_A6B5_C4D3_E2F1;
    assert_eq!(resize::<u8, u8>(x8), 0xF1);
    assert_eq!(resize::<u8, u16>(x8), 0xF1);
    assert_eq!(resize::<u8, u32>(x8), 0xF1);
    assert_eq!(resize::<u8, u64>(x8), 0xF1);
    assert_eq!(resize::<u16, u8>(x16), 0xF1);
    assert_eq!(resize::<u16, u16>(x16), 0xE2F1);
    assert_eq!(resize::<u16, u32>(x16), 0xE2F1);
    assert_eq!(resize::<u16, u64>(x16), 0xE2F1);
    assert_eq!(resize::<u32, u8>(x32), 0xF1);
    assert_eq!(resize::<u32, u16>(x32), 0xE2F1);
    assert_eq!(resize::<u32, u32>(x32), 0xC4D3_E2F1);
    assert_eq!(resize::<u32, u64>(x32), 0xC4D3_E2F1);
    assert_eq!(resize::<u64, u8>(x64), 0xF1);
    assert_eq!(resize::<u64, u16>(x64), 0xE2F1);
    assert_eq!(resize::<u64, u32>(x64), 0xC4D3_E2F1);
    assert_eq!(resize::<u64, u64>(x64), 0x8897_A6B5_C4D3_E2F1);
}
