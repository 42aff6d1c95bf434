use glwe_core::csprng::SoftwareRandomGenerator;
use glwe_core::decomposition::{
    closest_representable, decomposition_fits_torus, signed_decomposition, DecompositionBaseLog,
    DecompositionLevelCount,
};
use glwe_core::lwe::{
    allocate_and_generate_new_binary_lwe_secret_key, decrypt_lwe_ciphertext, encrypt_lwe_ciphertext,
    slice_wrapping_dot_product, CiphertextModulus, LweCiphertext, LweDimension, LweSecretKey,
    LweSize,
};
use glwe_core::lwe_keyswitch::{
    allocate_and_generate_new_lwe_keyswitch_key, keyswitch_lwe_ciphertext, LweKeyswitchKey,
};
use glwe_core::random::{EncryptionRandomGenerator, NoiseDistribution, RandomGenerator, Seed};
use glwe_core::t_uniform::TUniform;

type Generator = SoftwareRandomGenerator;

fn lwe_key(seed: u128, dimension: usize) -> LweSecretKey<u64> {
    let mut generator = RandomGenerator::<Generator>::new(Seed(seed));
    allocate_and_generate_new_binary_lwe_secret_key(LweDimension(dimension), &mut generator)
}

#[test]
fn binary_key_is_the_low_bits_of_the_stream() {
    let key = lwe_key(0, 8);
    assert_eq!(key.lwe_dimension(), LweDimension(8));
    // 76 b8 e0 ad a0 f1 3d 90
    assert_eq!(key.data, vec![0, 0, 0, 1, 0, 1, 1, 0]);
}

#[test]
fn dot_product_wraps() {
    assert_eq!(slice_wrapping_dot_product::<u64>(&[], &[]), 0);
    assert_eq!(slice_wrapping_dot_product::<u64>(&[1, 2, 3], &[4, 5, 6]), 32);
    assert_eq!(slice_wrapping_dot_product::<u8>(&[100, 100], &[3, 3]), 88);
}

#[test]
fn lwe_encrypt_decrypt() {
    let key = lwe_key(1, 32);
    let noise = TUniform::<u64>::new(10);
    let mut generator = EncryptionRandomGenerator::<Generator>::new(Seed(2), Seed(3));
    let mut replay = RandomGenerator::<Generator>::new(Seed(3));
    for message in 0..16u64 {
        let mut ct = LweCiphertext::new(0u64, LweSize(33), CiphertextModulus::new_native());
        encrypt_lwe_ciphertext(&key, &mut ct, message << 60, &noise, &mut generator);
        assert_eq!(ct.lwe_size(), LweSize(33));
        let decrypted = decrypt_lwe_ciphertext(&key, &ct);
        let expected_noise: u64 = noise.generate_one(&mut replay);
        assert_eq!(decrypted, (message << 60).wrapping_add(expected_noise));
        assert_eq!(decrypted.wrapping_add(1 << 59) >> 60, message);
    }
}

fn recompose(digits: &[u64], base_log: usize) -> u64 {
    let mut value = 0u64;
    for (index, &digit) in digits.iter().enumerate() {
        value = value.wrapping_add(digit << (64 - base_log * (index + 1)));
    }
    value
}

fn rounded_by_hand(x: u64, base_log: usize, level_count: usize) -> u64 {
    let dropped = 64 - base_log * level_count;
    let rounded = (x >> dropped).wrapping_add((x >> (dropped - 1)) & 1);
    rounded << dropped
}

#[test]
fn decomposition_digits_are_small_and_recompose_to_the_rounded_scalar() {
    let mut generator = RandomGenerator::<Generator>::new(Seed(4));
    for (base_log, level_count) in [(4usize, 8usize), (1, 1), (1, 63), (7, 9), (8, 7), (21, 3)] {
        for _ in 0..200 {
            let x: u64 = generator.random_uniform();
            let digits = signed_decomposition(
                x,
                DecompositionBaseLog(base_log),
                DecompositionLevelCount(level_count),
            );
            assert_eq!(digits.len(), level_count);
            let half = 1i64 << (base_log - 1);
            for &digit in digits.iter() {
                let signed = digit as i64;
                assert!(-half <= signed && signed < half);
            }
            assert_eq!(recompose(&digits, base_log), rounded_by_hand(x, base_log, level_count));
            assert_eq!(
                closest_representable(
                    x,
                    DecompositionBaseLog(base_log),
                    DecompositionLevelCount(level_count)
                ),
                rounded_by_hand(x, base_log, level_count)
            );
        }
    }
}

#[test]
fn decomposition_of_given_scalars() {
    let base_log = DecompositionBaseLog(4);
    let level_count = DecompositionLevelCount(2);
    // 0x1234.. rounds to 0x12: the digits 1 and 2.
    assert_eq!(signed_decomposition(0x1234_0000_0000_0000u64, base_log, level_count), vec![1, 2]);
    // 0x1a.. : the digit 10 is lowered to -6, and one is carried.
    assert_eq!(
        signed_decomposition(0x1a00_0000_0000_0000u64, base_log, level_count),
        vec![2, 6u64.wrapping_neg()]
    );
    // 0x1280.. rounds up to 0x13.
    assert_eq!(signed_decomposition(0x1280_0000_0000_0000u64, base_log, level_count), vec![1, 3]);
    // 0xff80.. rounds up to 0x100, which is 0 modulo 2^8.
    assert_eq!(signed_decomposition(0xff80_0000_0000_0000u64, base_log, level_count), vec![0, 0]);
    // 0x88.. : both digits are lowered.
    assert_eq!(
        signed_decomposition(0x8800_0000_0000_0000u64, base_log, level_count),
        vec![7u64.wrapping_neg(), 8u64.wrapping_neg()]
    );
    assert_eq!(
        signed_decomposition(0xc0u8, DecompositionBaseLog(2), DecompositionLevelCount(1)),
        vec![255]
    );
}

#[test]
fn keyswitch_key_has_the_shape_of_its_keys() {
    let input_key = lwe_key(5, 6);
    let output_key = lwe_key(6, 9);
    let noise = TUniform::<u64>::new(3);
    let mut generator = EncryptionRandomGenerator::<Generator>::new(Seed(7), Seed(8));
    let ksk = allocate_and_generate_new_lwe_keyswitch_key(
        &input_key,
        &output_key,
        DecompositionBaseLog(3),
        DecompositionLevelCount(5),
        &noise,
        CiphertextModulus::new_native(),
        &mut generator,
    );
    assert!(ksk.is_well_formed());
    assert_eq!(ksk.data.len(), 6 * 5 * 10);
    assert_eq!(ksk.input_key_lwe_dimension(), LweDimension(6));
    assert_eq!(ksk.output_key_lwe_dimension(), LweDimension(9));
    assert_eq!(ksk.decomposition_base_log(), DecompositionBaseLog(3));
    assert_eq!(ksk.decomposition_level_count(), DecompositionLevelCount(5));
    assert_eq!(ksk.ciphertext_modulus(), CiphertextModulus::new_native());
    assert_eq!(generator.remaining_mask_bytes(), (1u128 << 70) - 6 * 5 * 9 * 8);
    assert_eq!(generator.remaining_noise_bytes(), (1u128 << 70) - 6 * 5);
    // The ciphertext of the scalar i and the level l encrypts s_i * 2^(64 - 3 l).
    for i in 0..6 {
        for level in 1..=5 {
            let start = (i * 5 + level - 1) * 10;
            let ct = LweCiphertext::from_container(
                ksk.data[start..start + 10].to_vec(),
                CiphertextModulus::new_native(),
            );
            let decrypted = decrypt_lwe_ciphertext(&output_key, &ct);
            let expected = input_key.data[i] << (64 - 3 * level);
            let error = decrypted.wrapping_sub(expected) as i64;
            assert!(-8 <= error && error <= 8);
        }
    }
}

#[test]
fn keyswitch_keeps_the_message() {
    let input_key = lwe_key(5, 40);
    let output_key = lwe_key(6, 24);
    let noise = TUniform::<u64>::new(10);
    let mut generator = EncryptionRandomGenerator::<Generator>::new(Seed(7), Seed(8));
    let ksk: LweKeyswitchKey<u64> = allocate_and_generate_new_lwe_keyswitch_key(
        &input_key,
        &output_key,
        DecompositionBaseLog(4),
        DecompositionLevelCount(6),
        &noise,
        CiphertextModulus::new_native(),
        &mut generator,
    );
    for message in 0..16u64 {
        let mut input = LweCiphertext::new(0u64, LweSize(41), CiphertextModulus::new_native());
        encrypt_lwe_ciphertext(&input_key, &mut input, message << 60, &noise, &mut generator);
        let mut output = LweCiphertext::new(7u64, LweSize(25), CiphertextModulus::new_native());
        keyswitch_lwe_ciphertext(&ksk, &input, &mut output);
        let decrypted = decrypt_lwe_ciphertext(&output_key, &output);
        assert_eq!(decrypted.wrapping_add(1 << 59) >> 60, message);
        let error = decrypted.wrapping_sub(message << 60) as i64;
        assert!(error.abs() < 1 << 46);
    }
}

#[test]
fn keyswitch_of_a_trivial_ciphertext_keeps_the_body() {
    let input_key = lwe_key(5, 4);
    let output_key = lwe_key(6, 3);
    let noise = TUniform::<u64>::new(2);
    let mut generator = EncryptionRandomGenerator::<Generator>::new(Seed(7), Seed(8));
    let ksk: LweKeyswitchKey<u64> = allocate_and_generate_new_lwe_keyswitch_key(
        &input_key,
        &output_key,
        DecompositionBaseLog(2),
        DecompositionLevelCount(3),
        &noise,
        CiphertextModulus::new_native(),
        &mut generator,
    );
    let input = LweCiphertext::from_container(
        vec![0u64, 0, 0, 0, 0x1234],
        CiphertextModulus::new_native(),
    );
    let mut output = LweCiphertext::new(9u64, LweSize(4), CiphertextModulus::new_native());
    keyswitch_lwe_ciphertext(&ksk, &input, &mut output);
    assert_eq!(output.data, vec![0, 0, 0, 0x1234]);
}

fn digits_by_hand(x: u64, base_log: usize, level_count: usize) -> Vec<u64> {
    let dropped = 64 - base_log * level_count;
    let mut state = (x >> dropped) + ((x >> (dropped - 1)) & 1);
    let base = 1u64 << base_log;
    let mut digits = vec![0u64; level_count];
    for level in (1..=level_count).rev() {
        let mut digit = state % base;
        state /= base;
        if digit >= base / 2 {
            digit = digit.wrapping_sub(base);
            state += 1;
        }
        digits[level - 1] = digit;
    }
    digits
}

#[test]
fn keyswitch_follows_its_formula() {
    let input_key = lwe_key(15, 5);
    let output_key = lwe_key(16, 7);
    let noise = TUniform::<u64>::new(6);
    let mut generator = EncryptionRandomGenerator::<Generator>::new(Seed(17), Seed(18));
    let (base_log, level_count) = (5usize, 4usize);
    let ksk: LweKeyswitchKey<u64> = allocate_and_generate_new_lwe_keyswitch_key(
        &input_key,
        &output_key,
        DecompositionBaseLog(base_log),
        DecompositionLevelCount(level_count),
        &noise,
        CiphertextModulus::new_native(),
        &mut generator,
    );
    let mut input = LweCiphertext::new(0u64, LweSize(6), CiphertextModulus::new_native());
    encrypt_lwe_ciphertext(&input_key, &mut input, 5 << 60, &noise, &mut generator);
    let mut output = LweCiphertext::new(0u64, LweSize(8), CiphertextModulus::new_native());
    keyswitch_lwe_ciphertext(&ksk, &input, &mut output);
    let mut expected = vec![0u64; 8];
    expected[7] = input.data[5];
    for i in 0..5 {
        let digits = digits_by_hand(input.data[i], base_log, level_count);
        assert_eq!(
            digits,
            signed_decomposition(
                input.data[i],
                DecompositionBaseLog(base_log),
                DecompositionLevelCount(level_count)
            )
        );
        for level in 1..=level_count {
            let start = (i * level_count + level - 1) * 8;
            for j in 0..8 {
                expected[j] =
                    expected[j].wrapping_sub(digits[level - 1].wrapping_mul(ksk.data[start + j]));
            }
        }
    }
    assert_eq!(output.data, expected);
}

#[test]
fn keyswitch_error_stays_within_its_bound() {
    let (dimension, base_log, level_count, bound_log2) = (40usize, 4usize, 6usize, 10u32);
    let input_key = lwe_key(5, dimension);
    let output_key = lwe_key(6, 24);
    let noise = TUniform::<u64>::new(bound_log2);
    let mut generator = EncryptionRandomGenerator::<Generator>::new(Seed(7), Seed(8));
    let ksk: LweKeyswitchKey<u64> = allocate_and_generate_new_lwe_keyswitch_key(
        &input_key,
        &output_key,
        DecompositionBaseLog(base_log),
        DecompositionLevelCount(level_count),
        &noise,
        CiphertextModulus::new_native(),
        &mut generator,
    );
    let dropped = 64 - base_log * level_count;
    let bound = (dimension as i64) * (1i64 << (dropped - 1))
        + ((dimension * level_count) as i64) * ((1i64 << (base_log - 1)) * (1i64 << bound_log2));
    for message in 0..64u64 {
        let mut input = LweCiphertext::new(0u64, LweSize(41), CiphertextModulus::new_native());
        encrypt_lwe_ciphertext(&input_key, &mut input, message << 58, &noise, &mut generator);
        let before = decrypt_lwe_ciphertext(&input_key, &input);
        let mut output = LweCiphertext::new(0u64, LweSize(25), CiphertextModulus::new_native());
        keyswitch_lwe_ciphertext(&ksk, &input, &mut output);
        let after = decrypt_lwe_ciphertext(&output_key, &output);
        let error = after.wrapping_sub(before) as i64;
        assert!(-bound <= error && error <= bound);
    }
}

#[test]
fn decomposition_has_to_leave_a_bit_out() {
    let fits = |base_log: usize, level_count: usize| {
        decomposition_fits_torus::<u64>(
            DecompositionBaseLog(base_log),
            DecompositionLevelCount(level_count),
        )
    };
    assert!(fits(4, 6));
    assert!(fits(1, 63));
    assert!(fits(63, 1));
    assert!(!fits(8, 8));
    assert!(!fits(64, 1));
    assert!(!fits(0, 3));
    assert!(!fits(3, 0));
    assert!(!fits(usize::MAX, 2));
    assert!(decomposition_fits_torus::<u8>(DecompositionBaseLog(7), DecompositionLevelCount(1)));
    assert!(!decomposition_fits_torus::<u8>(DecompositionBaseLog(4), DecompositionLevelCount(2)));
    assert!(decomposition_fits_torus::<u128>(
        DecompositionBaseLog(127),
        DecompositionLevelCount(1)
    ));
}

#[test]
fn sizes_and_dimensions() {
    assert_eq!(LweSize(11).to_lwe_dimension(), LweDimension(10));
    assert_eq!(LweDimension(10).to_lwe_size(), LweSize(11));
    let ciphertext = LweCiphertext::from_container(vec![1u32, 2, 3], CiphertextModulus(1 << 20));
    assert_eq!(ciphertext.lwe_size(), LweSize(3));
    assert_eq!(ciphertext.ciphertext_modulus(), CiphertextModulus(1 << 20));
    let key = LweSecretKey::from_container(vec![1u32, 0]);
    assert_eq!(key.lwe_dimension(), LweDimension(2));
    assert_eq!(decrypt_lwe_ciphertext(&key, &ciphertext), 2);
}

#[test]
fn closest_representable_rounds_to_the_bits_that_are_kept() {
    let base_log = DecompositionBaseLog(4);
    let level_count = DecompositionLevelCount(2);
    let round = |x: u64| closest_representable(x, base_log, level_count);
    assert_eq!(round(0x1234_0000_0000_0000), 0x1200_0000_0000_0000);
    assert_eq!(round(0x127f_ffff_ffff_ffff), 0x1200_0000_0000_0000);
    assert_eq!(round(0x1280_0000_0000_0000), 0x1300_0000_0000_0000);
    assert_eq!(round(0xff7f_ffff_ffff_ffff), 0xff00_0000_0000_0000);
    assert_eq!(round(0xff80_0000_0000_0000), 0);
    assert_eq!(round(0), 0);
    assert_eq!(
        closest_representable(0xc0u8, DecompositionBaseLog(1), DecompositionLevelCount(1)),
        0
    );
    assert_eq!(
        closest_representable(0xbfu8, DecompositionBaseLog(1), DecompositionLevelCount(1)),
        0x80
    );
    assert_eq!(
        closest_representable(u128::MAX, DecompositionBaseLog(127), DecompositionLevelCount(1)),
        0
    );
    assert_eq!(
        closest_representable(
            (1u128 << 127) + 1,
            DecompositionBaseLog(127),
            DecompositionLevelCount(1)
        ),
        (1u128 << 127) + 2
    );
}
