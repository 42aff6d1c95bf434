use glwe_core::polynomial::{
    polynomial_list_multisum_coefficient, polynomial_wrapping_add_assign,
    polynomial_wrapping_add_multisum_assign, polynomial_wrapping_sub_assign,
    polynomial_wrapping_sub_multisum_assign,
};
use glwe_core::torus::{power_of_two_u128, zero, UnsignedTorus};

#[test]
fn polynomial_add_wraps_coefficient_by_coefficient() {
    let mut lhs = vec![1u8, 200, 255];
    polynomial_wrapping_add_assign(&mut lhs, &[2, 100, 1]);
    assert_eq!(lhs, vec![3, 44, 0]);
}

#[test]
fn polynomial_sub_wraps_coefficient_by_coefficient() {
    let mut lhs = vec![1u16, 200, 0];
    polynomial_wrapping_sub_assign(&mut lhs, &[2, 100, 1]);
    assert_eq!(lhs, vec![65535, 100, 65535]);
}

#[test]
fn product_follows_the_negacyclic_rule() {
    // (1 + 2X)(3 + 4X) = 3 + 10X + 8X^2 = -5 + 10X modulo X^2 + 1.
    let mut output = vec![0u64, 0];
    polynomial_wrapping_add_multisum_assign(&mut output, &[1, 2], &[3, 4]);
    assert_eq!(output, vec![5u64.wrapping_neg(), 10]);
    // X^3 * X = X^4 = -1 modulo X^4 + 1.
    let mut output = vec![7u64, 0, 0, 0];
    polynomial_wrapping_add_multisum_assign(&mut output, &[0, 0, 0, 1], &[0, 1, 0, 0]);
    assert_eq!(output, vec![6, 0, 0, 0]);
}

#[test]
fn multisum_adds_the_products_of_the_pairs() {
    // (1 + 2X)(3 + 4X) + (5 + 6X)(7 + 8X)
    //   = (-5 + 10X) + (35 + 82X + 48X^2) = (-5 + 10X) + (-13 + 82X).
    let mut output = vec![100u32, 1000];
    polynomial_wrapping_add_multisum_assign(&mut output, &[1, 2, 5, 6], &[3, 4, 7, 8]);
    assert_eq!(output, vec![82, 1092]);
    let mut output = vec![100u32, 1000];
    polynomial_wrapping_sub_multisum_assign(&mut output, &[1, 2, 5, 6], &[3, 4, 7, 8]);
    assert_eq!(output, vec![118, 908]);
    assert_eq!(
        polynomial_list_multisum_coefficient::<u32>(&[1, 2, 5, 6], &[3, 4, 7, 8], 2, 0),
        18u32.wrapping_neg()
    );
    assert_eq!(
        polynomial_list_multisum_coefficient::<u32>(&[1, 2, 5, 6], &[3, 4, 7, 8], 2, 1),
        92
    );
}

#[test]
fn multisum_of_no_polynomial_is_zero() {
    let mut output = vec![9u64, 8, 7];
    polynomial_wrapping_add_multisum_assign(&mut output, &[], &[]);
    assert_eq!(output, vec![9, 8, 7]);
}

#[test]
fn product_wraps_modulo_the_width() {
    let mut output = vec![0u8];
    polynomial_wrapping_add_multisum_assign(&mut output, &[16], &[17]);
    assert_eq!(output, vec![16]);
}

#[test]
fn scalars_of_every_width() {
    assert_eq!(<u8 as UnsignedTorus>::bit_width(), 8);
    assert_eq!(<u16 as UnsignedTorus>::bit_width(), 16);
    assert_eq!(<u32 as UnsignedTorus>::bit_width(), 32);
    assert_eq!(<u64 as UnsignedTorus>::bit_width(), 64);
    assert_eq!(<u128 as UnsignedTorus>::bit_width(), 128);
    assert_eq!(UnsignedTorus::wrapping_add(250u8, 10u8), 4);
    assert_eq!(UnsignedTorus::wrapping_sub(3u16, 5u16), 65534);
    assert_eq!(UnsignedTorus::wrapping_mul(0x8000_0001u32, 2u32), 2);
    assert_eq!(UnsignedTorus::wrapping_add(u128::MAX, 2u128), 1);
    assert_eq!(UnsignedTorus::into_signed(255u8), -1i8);
    assert_eq!(UnsignedTorus::into_signed(127u8), 127i8);
    assert_eq!(UnsignedTorus::into_signed(0x8000u16), i16::MIN);
    assert_eq!(UnsignedTorus::into_signed(u64::MAX - 1), -2i64);
    assert_eq!(UnsignedTorus::into_signed(1u128 << 127), i128::MIN);
    assert_eq!(<u32 as UnsignedTorus>::from_u128(77), 77u32);
    assert_eq!(UnsignedTorus::to_u128(77u64), 77u128);
    assert_eq!(zero::<u64>(), 0);
    assert_eq!(power_of_two_u128(0), 1);
    assert_eq!(power_of_two_u128(127), 1u128 << 127);
}
