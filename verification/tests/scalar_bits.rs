use succinct_work::bits::{bitrev, derange_helper, log2};
use succinct_work::msm::window_bits;
use succinct_work::scalar::Scalar;

#[test]
fn xxxxxx() {
    let str = "110101011100100011111011011111000000011110111001010010000000000000000000000000000000000000000000000000000000000000000000000000000000000000000000000000000000000000000000000000000000000000000000000000000000000000000000000000000000000000000000000000000000";
    println!("{}", str.len());
    assert_eq!(str.len(), 252);
    assert!(str.len() <= Scalar::BITS as usize);

    // the scalar whose bits the string writes, the most significant first
    let mut limbs = [0u64; 4];
    for (i, c) in str.chars().rev().enumerate() {
        if c == '1' {
            limbs[i / 64] |= 1 << (i % 64);
        }
    }
    let scalar = Scalar::new(limbs);
    let bits = scalar.to_bits_be();
    assert_eq!(bits.len(), 256);
    assert!(bits[..4].iter().all(|b| !b));
    let written = bits[4..].iter().map(|b| if *b { '1' } else { '0' }).collect::<String>();
    assert_eq!(written, str);
    assert!(scalar.bit(251));
    assert!(!scalar.bit(0));
}

#[test]
fn log2_is_the_ceiling() {
    assert_eq!(log2(0), 0);
    assert_eq!(log2(1), 0);
    assert_eq!(log2(2), 1);
    assert_eq!(log2(3), 2);
    assert_eq!(log2(4), 2);
    assert_eq!(log2(5), 3);
    assert_eq!(log2(511), 9);
    assert_eq!(log2(512), 9);
    assert_eq!(log2(513), 10);
    assert_eq!(log2(usize::MAX), usize::BITS);
}

#[test]
fn bitrev_reverses_the_low_bits() {
    assert_eq!(bitrev(0b001, 3), 0b100);
    assert_eq!(bitrev(0b110, 3), 0b011);
    assert_eq!(bitrev(1, 9), 256);
    assert_eq!(bitrev(1, 64), 1 << 63);
    // bits from `log_len` upwards play no part
    assert_eq!(bitrev(0b1001, 3), 0b100);
    for a in 0..512u64 {
        assert_eq!(bitrev(bitrev(a, 9), 9), a);
    }
}

#[test]
fn derange_on_a_power_of_two() {
    let mut v = (0..8).collect::<Vec<u32>>();
    derange_helper(&mut v, 3);
    assert_eq!(v, vec![0, 4, 2, 6, 1, 5, 3, 7]);
    derange_helper(&mut v, 3);
    assert_eq!(v, (0..8).collect::<Vec<u32>>());
}

#[test]
fn derange_of_short_vectors() {
    let mut v: Vec<u8> = vec![];
    derange_helper(&mut v, 1);
    assert!(v.is_empty());
    let mut v = vec![7u8];
    derange_helper(&mut v, 1);
    assert_eq!(v, vec![7]);
    // one entry, with its own logarithm
    assert_eq!(log2(v.len()), 0);
    derange_helper(&mut v, 0);
    assert_eq!(v, vec![7]);
    let mut v = vec![7u8, 9];
    derange_helper(&mut v, 1);
    assert_eq!(v, vec![7, 9]);
    let mut v = vec![1u8, 2, 3];
    derange_helper(&mut v, 2);
    assert_eq!(v, vec![1, 3, 2]);
}

#[test]
fn digits_of_a_scalar() {
    let s = Scalar::new([0x0123_4567_89ab_cdef, 0xffff_0000_ffff_0000, 5, 1 << 63]);
    assert_eq!(s.digit(0, 4), 0xf);
    assert_eq!(s.digit(4, 4), 0xe);
    assert_eq!(s.digit(60, 4), 0x0);
    assert_eq!(s.digit(56, 8), 0x01);
    assert_eq!(s.digit(0, 64), 0x0123_4567_89ab_cdef);
    assert_eq!(s.digit(64, 16), 0);
    assert_eq!(s.digit(80, 16), 0xffff);
    assert_eq!(s.digit(128, 8), 5);
    assert_eq!(s.digit(255, 1), 1);
    assert_eq!(s.digit(254, 1), 0);
    assert_eq!(s.digit(240, 16), 0x8000);
}

#[test]
fn scalars_from_small_numbers() {
    assert_eq!(Scalar::from_u64(0).limbs, [0, 0, 0, 0]);
    assert_eq!(Scalar::from_u64(u64::MAX).limbs, [u64::MAX, 0, 0, 0]);
    assert_eq!(Scalar::new([1, 2, 3, 4]).limbs, [1, 2, 3, 4]);
}

#[test]
fn products_in_the_scalar_field() {
    // the modulus less one is -1, whose square is 1
    let minus_one = Scalar::new([725501752471715840, 6461107452199829505, 6968279316240510977, 1345280370688173398]);
    assert_eq!(minus_one.mul_mod(&minus_one), Scalar::from_u64(1));
    assert_eq!(Scalar::from_u64(6).mul_mod(&Scalar::from_u64(7)), Scalar::from_u64(42));
    assert_eq!(Scalar::from_u64(0).mul_mod(&minus_one), Scalar::from_u64(0));
    let two_to_63 = Scalar::from_u64(1 << 63);
    assert_eq!(two_to_63.mul_mod(&Scalar::from_u64(4)), Scalar::new([0, 2, 0, 0]));
}

#[test]
fn bytes_reduced_into_the_scalar_field() {
    assert_eq!(Scalar::from_bytes_le_mod_order(&[]), Scalar::from_u64(0));
    assert_eq!(Scalar::from_bytes_le_mod_order(&[1, 2]), Scalar::from_u64(0x0201));
    // the modulus itself reduces to 0, and the modulus and one to 1
    let mut modulus = Vec::new();
    for limb in [725501752471715841u64, 6461107452199829505, 6968279316240510977, 1345280370688173398] {
        modulus.extend_from_slice(&limb.to_le_bytes());
    }
    assert_eq!(Scalar::from_bytes_le_mod_order(&modulus), Scalar::from_u64(0));
    modulus[0] += 1;
    assert_eq!(Scalar::from_bytes_le_mod_order(&modulus), Scalar::from_u64(1));
    // 2^256 = 64 bytes with the byte 32 set
    let mut wide = [0u8; 64];
    wide[32] = 1;
    let two_to_128 = Scalar::new([0, 0, 1, 0]);
    assert_eq!(Scalar::from_bytes_le_mod_order(&wide), two_to_128.mul_mod(&two_to_128));
}

#[test]
fn window_widths_are_steps() {
    assert_eq!(window_bits(0), 1);
    assert_eq!(window_bits(2), 1);
    assert_eq!(window_bits(3), 2);
    assert_eq!(window_bits(16), 2);
    assert_eq!(window_bits(17), 4);
    assert_eq!(window_bits(512), 4);
    assert_eq!(window_bits(513), 8);
    assert_eq!(window_bits(65536), 8);
    assert_eq!(window_bits(65537), 16);
    let mut last = 0;
    for n in 0..70000 {
        let c = window_bits(n);
        assert!(c >= last);
        last = c;
    }
}
