use glwe_core::entities::{GlweCiphertext, GlweSize, PlaintextCount, PlaintextList, PolynomialSize};
use glwe_core::glwe_encryption::trivially_encrypt_glwe_ciphertext;
use glwe_core::wire::{scalars_from_le_bytes, scalars_to_le_bytes};

#[test]
fn scalars_are_written_least_significant_byte_first() {
    assert_eq!(scalars_to_le_bytes::<u16>(&[0x1234, 0xabcd]), vec![0x34, 0x12, 0xcd, 0xab]);
    assert_eq!(scalars_to_le_bytes::<u8>(&[1, 2, 3]), vec![1, 2, 3]);
    assert_eq!(
        scalars_to_le_bytes::<u64>(&[0x0102_0304_0506_0708]),
        vec![8, 7, 6, 5, 4, 3, 2, 1]
    );
    assert_eq!(scalars_to_le_bytes::<u32>(&[]), Vec::<u8>::new());
    let wide = 0x0f0e_0d0c_0b0a_0908_0706_0504_0302_0100u128;
    assert_eq!(scalars_to_le_bytes::<u128>(&[wide]), (0u8..16).collect::<Vec<u8>>());
}

#[test]
fn scalars_are_read_back_bit_for_bit() {
    assert_eq!(
        scalars_from_le_bytes::<u16>(&[0x34, 0x12, 0xcd, 0xab]),
        Some(vec![0x1234, 0xabcd])
    );
    assert_eq!(scalars_from_le_bytes::<u16>(&[0x34, 0x12, 0xcd]), None);
    assert_eq!(scalars_from_le_bytes::<u64>(&[0; 9]), None);
    assert_eq!(scalars_from_le_bytes::<u32>(&[]), Some(vec![]));
    let scalars: Vec<u64> = (0..50u64).map(|i| i.wrapping_mul(0x9e37_79b9_7f4a_7c15)).collect();
    assert_eq!(scalars_from_le_bytes::<u64>(&scalars_to_le_bytes(&scalars)), Some(scalars));
    let scalars: Vec<u128> = (0..9u128).map(|i| (i << 120) + i).collect();
    assert_eq!(scalars_from_le_bytes::<u128>(&scalars_to_le_bytes(&scalars)), Some(scalars));
}

#[test]
fn ciphertext_is_written_mask_first_and_body_last() {
    let plaintext = PlaintextList::from_container(vec![0x0102u16, 0x0304]);
    let mut glwe = GlweCiphertext::new(0xffffu16, GlweSize(3), PolynomialSize(2));
    trivially_encrypt_glwe_ciphertext(&mut glwe, &plaintext);
    assert_eq!(plaintext.plaintext_count(), PlaintextCount(2));
    let bytes = scalars_to_le_bytes(&glwe.data);
    assert_eq!(bytes, vec![0, 0, 0, 0, 0, 0, 0, 0, 0x02, 0x01, 0x04, 0x03]);
    let read = scalars_from_le_bytes::<u16>(&bytes).map(|data| {
        GlweCiphertext::from_container(data, PolynomialSize(2))
    });
    assert_eq!(read.map(|ciphertext| ciphertext.into_container()), Some(glwe.into_container()));
}
