use thesislib::oblivious::{find_order, integer_sqrt, leading_bit_shift};
use thesislib::ops::{Plain, ValueOps};
use thesislib::sqrt::{find_m_recursive, fsqrt64, isqrt, isqrt64, m64};

fn plain_root(x: u64) -> u64 {
    let mut p = Plain::new();
    let m = find_order(&mut p, &x, 16);
    integer_sqrt(&mut p, &x, m as u32)
}

#[test]
fn find_order_of_thirty_six() {
    let mut p = Plain::new();
    assert_eq!(find_order(&mut p, &36, 16), 2);
}

#[test]
fn integer_sqrt_of_thirty_six() {
    let mut p = Plain::new();
    assert_eq!(integer_sqrt(&mut p, &36, 2), 6);
}

#[test]
fn integer_sqrt_of_twenty_five() {
    let mut p = Plain::new();
    assert_eq!(find_order(&mut p, &25, 16), 2);
    assert_eq!(integer_sqrt(&mut p, &25, 2), 5);
}

#[test]
fn find_order_edges() {
    let mut p = Plain::new();
    assert_eq!(find_order(&mut p, &0, 16), 0);
    assert_eq!(find_order(&mut p, &1, 16), 0);
    assert_eq!(find_order(&mut p, &3, 16), 0);
    assert_eq!(find_order(&mut p, &4, 16), 1);
    assert_eq!(find_order(&mut p, &15, 16), 1);
    assert_eq!(find_order(&mut p, &16, 16), 2);
    assert_eq!(find_order(&mut p, &0xFFFF_FFFF, 16), 15);
    // The bound caps the order.
    assert_eq!(find_order(&mut p, &0xFFFF_FFFF, 3), 3);
}

#[test]
fn root_bound_holds_across_the_range() {
    let mut samples: Vec<u64> = (1..5000).collect();
    samples.extend([
        0xFFFF_FFFF,
        0xFFFE_0001,
        0xFFFE_0000,
        0x4000_0000,
        0x3FFF_FFFF,
        123_456_789,
        1 << 31,
        (1 << 31) + 1,
    ]);
    for x in samples {
        let r = plain_root(x);
        assert!(r * r <= x, "x = {}", x);
        assert!(x < (r + 1) * (r + 1), "x = {}", x);
    }
}

#[test]
fn exact_roots_are_found() {
    for n in 1u64..3000 {
        assert_eq!(plain_root(n * n), n);
    }
    assert_eq!(plain_root(65535 * 65535), 65535);
}

#[test]
fn operation_count_does_not_depend_on_the_input() {
    let mut first = Plain::new();
    let mut second = Plain::new();
    find_order(&mut first, &36, 16);
    find_order(&mut second, &0xFFFF_FFFF, 16);
    assert_eq!(first.ops(), 16);
    assert_eq!(second.ops(), 16);

    let mut first = Plain::new();
    let mut second = Plain::new();
    leading_bit_shift(&mut first, &1, 23);
    leading_bit_shift(&mut second, &0xFF_FFFF, 23);
    assert_eq!(first.ops(), 24);
    assert_eq!(second.ops(), 24);

    // 36 meets an exact root in the first round, 35 never does.
    let mut first = Plain::new();
    let mut second = Plain::new();
    integer_sqrt(&mut first, &36, 2);
    integer_sqrt(&mut second, &35, 2);
    assert_eq!(first.ops(), 16);
    assert_eq!(second.ops(), 16);
}

#[test]
fn leading_bit_shift_counts() {
    let mut p = Plain::new();
    assert_eq!(leading_bit_shift(&mut p, &1, 23), 23);
    assert_eq!(leading_bit_shift(&mut p, &36, 23), 18);
    assert_eq!(leading_bit_shift(&mut p, &0x80_0000, 23), 0);
    assert_eq!(leading_bit_shift(&mut p, &0xFF_FFFF, 23), 0);
    assert_eq!(leading_bit_shift(&mut p, &1, 31), 31);
    assert_eq!(leading_bit_shift(&mut p, &0x8000_0000, 31), 0);
    assert_eq!(leading_bit_shift(&mut p, &1, 63), 63);
    assert_eq!(leading_bit_shift(&mut p, &u64::MAX, 63), 0);
    assert_eq!(leading_bit_shift(&mut p, &(1 << 40), 63), 23);
}

#[test]
fn oblivious_root_at_order_thirty_one() {
    let mut p = Plain::new();
    assert_eq!(integer_sqrt(&mut p, &u64::MAX, 31), 0xFFFF_FFFF);
    assert_eq!(integer_sqrt(&mut p, &0xFFFF_FFFE_0000_0001, 31), 0xFFFF_FFFF);
    assert_eq!(integer_sqrt(&mut p, &(1 << 62), 31), 1 << 31);
    assert_eq!(p.ops(), 3 * 8 * 31);
}

#[test]
fn scaled_square_root() {
    assert_eq!(fsqrt64(4, 3, 2), 6);
    assert_eq!(fsqrt64(6, 3, 2), 12);
    assert_eq!(fsqrt64(50, 2, 23), 11_863_283 << 2);
    assert_eq!(fsqrt64(51, 1, 23), 11_863_283 << 2);
    assert_eq!(fsqrt64(46, 1, 23), 1 << 23);
}

#[test]
fn plain_order_search() {
    assert_eq!(find_m_recursive(36, 0), 2);
    assert_eq!(find_m_recursive(25, 0), 2);
    assert_eq!(find_m_recursive(1, 0), 0);
    assert_eq!(find_m_recursive(0x3FFF_FFFF, 0), 14);
    // Starting above the order gives one less than the start.
    assert_eq!(find_m_recursive(5, 3), 2);
    assert_eq!(m64(36, 0), 2);
    assert_eq!(m64(0x3FFF_FFFF_FFFF_FFFF, 0), 30);
    // Every 32-bit and 64-bit word is reached.
    assert_eq!(find_m_recursive(0x4000_0000, 0), 15);
    assert_eq!(find_m_recursive(u32::MAX, 0), 15);
    assert_eq!(m64(0x4000_0000_0000_0000, 0), 31);
    assert_eq!(m64(u64::MAX, 0), 31);
}

#[test]
fn plain_square_roots() {
    assert_eq!(isqrt(36, 2), 6);
    assert_eq!(isqrt(25, 2), 5);
    assert_eq!(isqrt(35, 2), 5);
    assert_eq!(isqrt(0xFFFF_FFFF, 15), 65535);
    assert_eq!(isqrt64(36, 2), 6);
    assert_eq!(isqrt64(1 << 46, 23), 1 << 23);
    assert_eq!(isqrt64(0x3FFF_FFFF_FFFF_FFFF, 30), 0x7FFF_FFFF);
    assert_eq!(isqrt64(u64::MAX, 31), 0xFFFF_FFFF);
    assert_eq!(isqrt64(1 << 62, 31), 1 << 31);
    assert_eq!(isqrt64(0xFFFF_FFFE_0000_0001, 31), 0xFFFF_FFFF);
    for x in 1u32..2000 {
        let r = isqrt(x, find_m_recursive(x, 0));
        assert!(r * r <= x && x < (r + 1) * (r + 1));
    }
}

#[test]
fn plain_backend_operations() {
    let mut p = Plain::new();
    assert_eq!(p.ops(), 0);
    assert_eq!(p.constant(7), 7);
    assert_eq!(p.and(&0b1100, &0b1010), 0b1000);
    assert_eq!(p.or(&0b1100, &0b1010), 0b1110);
    assert_eq!(p.xor(&0b1100, &0b1010), 0b0110);
    assert_eq!(p.not(&0), u64::MAX);
    assert_eq!(p.shl(&3, 4), 48);
    assert_eq!(p.shr(&48, 4), 3);
    assert_eq!(p.add(&40, &2), 42);
    assert_eq!(p.sub(&44, &2), 42);
    assert!(p.equal(&5, &5));
    assert!(p.greater(&6, &5));
    assert_eq!(p.select(&false, &1, &2), 2);
    assert_eq!(p.ops(), 3);
    assert!(!p.both(&true, &false));
    assert!(p.negate(&false));
    assert_eq!(p.flag_value(&true), 1);
    assert!(p.flag_constant(true));
}
