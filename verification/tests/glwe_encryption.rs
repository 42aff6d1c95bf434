use glwe_core::csprng::SoftwareRandomGenerator;
use glwe_core::decomposition::{
    closest_representable, DecompositionBaseLog, DecompositionLevelCount,
};
use glwe_core::entities::{
    allocate_and_generate_new_binary_glwe_secret_key, GlweCiphertext, GlweCiphertextCount,
    GlweCiphertextList, GlweDimension, GlweSecretKey, GlweSize, PlaintextCount, PlaintextList,
    PolynomialSize,
};
use glwe_core::glwe_encryption::{
    allocate_and_trivially_encrypt_new_glwe_ciphertext, decrypt_glwe_ciphertext,
    decrypt_glwe_ciphertext_list, encrypt_glwe_ciphertext, encrypt_glwe_ciphertext_assign,
    encrypt_glwe_ciphertext_list, trivially_encrypt_glwe_ciphertext,
};
use glwe_core::random::{
    EncryptionRandomGenerator, FunctionDistribution, NoiseDistribution, RandomGenerator, Seed,
};
use glwe_core::t_uniform::TUniform;
use glwe_core::torus::UnsignedTorus;

type Generator = SoftwareRandomGenerator;

const STANDARD_DEVIATION: f64 = 0.00000000000000029403601535432533;

fn gaussian_from_bytes(bytes: Vec<u8>) -> u64 {
    let mut first = [0u8; 8];
    let mut second = [0u8; 8];
    first.copy_from_slice(&bytes[0..8]);
    second.copy_from_slice(&bytes[8..16]);
    let u1 = (u64::from_le_bytes(first) as f64 + 1.0) / 18446744073709551616.0;
    let u2 = u64::from_le_bytes(second) as f64 / 18446744073709551616.0;
    let normal = (-2.0 * u1.ln()).sqrt() * (2.0 * std::f64::consts::PI * u2).cos();
    let scaled = normal * STANDARD_DEVIATION * 18446744073709551616.0;
    (scaled as i64) as u64
}

fn round_to_top_four_bits(x: u64) -> u64 {
    closest_representable(x, DecompositionBaseLog(4), DecompositionLevelCount(1)) >> 60
}

fn secret_key(seed: u128, dimension: usize, size: usize) -> GlweSecretKey<u64> {
    let mut generator = RandomGenerator::<Generator>::new(Seed(seed));
    allocate_and_generate_new_binary_glwe_secret_key(
        GlweDimension(dimension),
        PolynomialSize(size),
        &mut generator,
    )
}

#[test]
fn glwe_encrypt_decrypt_with_gaussian_noise() {
    let glwe_size = GlweSize(2);
    let polynomial_size = PolynomialSize(1024);
    let key = secret_key(0, 1, 1024);
    let mut generator = EncryptionRandomGenerator::<Generator>::new(Seed(0), Seed(1));
    let noise = FunctionDistribution::new(16, gaussian_from_bytes);
    let msg = 3u64;
    let plaintext = PlaintextList::new(msg << 60, PlaintextCount(1024));
    let mut glwe = GlweCiphertext::new(0u64, glwe_size, polynomial_size);
    encrypt_glwe_ciphertext(&key, &plaintext, &mut glwe, &noise, &mut generator);
    let mut output = PlaintextList::new(0u64, plaintext.plaintext_count());
    decrypt_glwe_ciphertext(&key, &glwe, &mut output);
    let decrypted = output.into_container();
    assert_eq!(decrypted.len(), 1024);
    assert!(decrypted.iter().any(|&x| x != msg << 60));
    for x in decrypted {
        assert_eq!(round_to_top_four_bits(x), msg);
    }
}

#[test]
fn glwe_encrypt_assign_encrypts_the_body() {
    let key = secret_key(7, 1, 1024);
    let mut generator = EncryptionRandomGenerator::<Generator>::new(Seed(0), Seed(1));
    let noise = FunctionDistribution::new(16, gaussian_from_bytes);
    let msg = 3u64;
    let mut container = vec![0u64; 2048];
    for x in container[1024..].iter_mut() {
        *x = msg << 60;
    }
    let mut glwe = GlweCiphertext::from_container(container, PolynomialSize(1024));
    encrypt_glwe_ciphertext_assign(&key, &mut glwe, &noise, &mut generator);
    let mut output = PlaintextList::new(0u64, PlaintextCount(1024));
    decrypt_glwe_ciphertext(&key, &glwe, &mut output);
    for x in output.into_container() {
        assert_eq!(round_to_top_four_bits(x), msg);
    }
}

#[test]
fn encrypt_and_encrypt_assign_agree() {
    let key = secret_key(7, 2, 16);
    let noise = TUniform::<u64>::new(12);
    let values: Vec<u64> = (0..16u64).map(|i| i << 58).collect();
    let plaintext = PlaintextList::from_container(values.clone());
    let mut first = GlweCiphertext::new(0u64, GlweSize(3), PolynomialSize(16));
    let mut generator = EncryptionRandomGenerator::<Generator>::new(Seed(3), Seed(4));
    encrypt_glwe_ciphertext(&key, &plaintext, &mut first, &noise, &mut generator);
    let mut container = vec![0u64; 48];
    container[32..].copy_from_slice(&values);
    let mut second = GlweCiphertext::from_container(container, PolynomialSize(16));
    let mut generator = EncryptionRandomGenerator::<Generator>::new(Seed(3), Seed(4));
    encrypt_glwe_ciphertext_assign(&key, &mut second, &noise, &mut generator);
    assert_eq!(first.into_container(), second.into_container());
}

#[test]
fn decryption_is_plaintext_plus_noise() {
    let key = secret_key(11, 2, 8);
    let noise = TUniform::<u64>::new(5);
    let values: Vec<u64> = (0..8u64).map(|i| i.wrapping_mul(0x0123_4567_89ab_cdef)).collect();
    let plaintext = PlaintextList::from_container(values.clone());
    let mut glwe = GlweCiphertext::new(0u64, GlweSize(3), PolynomialSize(8));
    let mut generator = EncryptionRandomGenerator::<Generator>::new(Seed(5), Seed(6));
    encrypt_glwe_ciphertext(&key, &plaintext, &mut glwe, &noise, &mut generator);
    let mut output = PlaintextList::new(0u64, PlaintextCount(8));
    decrypt_glwe_ciphertext(&key, &glwe, &mut output);
    let mut replay = RandomGenerator::<Generator>::new(Seed(6));
    let decrypted = output.into_container();
    for i in 0..8 {
        let expected_noise: u64 = noise.generate_one(&mut replay);
        assert_eq!(decrypted[i], values[i].wrapping_add(expected_noise));
        let error = decrypted[i].wrapping_sub(values[i]) as i64;
        assert!(-32 <= error && error <= 32);
    }
}

#[test]
fn mask_is_the_uniform_stream_of_the_mask_generator() {
    let key = secret_key(11, 2, 4);
    let noise = TUniform::<u64>::new(5);
    let plaintext = PlaintextList::new(0u64, PlaintextCount(4));
    let mut glwe = GlweCiphertext::new(0u64, GlweSize(3), PolynomialSize(4));
    let mut generator = EncryptionRandomGenerator::<Generator>::new(Seed(5), Seed(6));
    encrypt_glwe_ciphertext(&key, &plaintext, &mut glwe, &noise, &mut generator);
    let mut replay = RandomGenerator::<Generator>::new(Seed(5));
    let bytes = replay.generate_bytes(64);
    let mask = glwe.get_mask();
    assert_eq!(mask.len(), 8);
    for i in 0..8 {
        let mut word = [0u8; 8];
        word.copy_from_slice(&bytes[8 * i..8 * i + 8]);
        assert_eq!(mask[i], u64::from_le_bytes(word));
    }
}

#[test]
fn trivial_encryption_has_zero_mask_and_plain_body() {
    let glwe_size = GlweSize(2);
    let polynomial_size = PolynomialSize(1024);
    let plaintext = PlaintextList::new(3u64 << 60, PlaintextCount(1024));
    let mut glwe = GlweCiphertext::new(5u64, glwe_size, polynomial_size);
    trivially_encrypt_glwe_ciphertext(&mut glwe, &plaintext);
    assert!(glwe.get_mask().iter().all(|&x| x == 0));
    assert_eq!(glwe.get_body().to_vec(), vec![3u64 << 60; 1024]);
    for seed in 0..3u128 {
        let key = secret_key(seed, 1, 1024);
        let mut output = PlaintextList::new(0u64, PlaintextCount(1024));
        decrypt_glwe_ciphertext(&key, &glwe, &mut output);
        assert_eq!(output.into_container(), vec![3u64 << 60; 1024]);
    }
}

#[test]
fn trivial_encryption_round_trip_is_bit_exact() {
    let values: Vec<u64> = (0..32u64).map(|i| i.wrapping_mul(0x9e37_79b9_7f4a_7c15)).collect();
    let plaintext = PlaintextList::from_container(values.clone());
    let mut glwe = GlweCiphertext::new(1u64, GlweSize(4), PolynomialSize(32));
    trivially_encrypt_glwe_ciphertext(&mut glwe, &plaintext);
    let key = secret_key(42, 3, 32);
    let mut output = PlaintextList::new(0u64, PlaintextCount(32));
    decrypt_glwe_ciphertext(&key, &glwe, &mut output);
    assert_eq!(output.into_container(), values);
}

#[test]
fn allocate_and_trivially_encrypt_makes_a_trivial_ciphertext() {
    let plaintext = PlaintextList::new(3u64 << 60, PlaintextCount(1024));
    let glwe = allocate_and_trivially_encrypt_new_glwe_ciphertext(GlweSize(2), &plaintext);
    assert_eq!(glwe.glwe_size(), GlweSize(2));
    assert_eq!(glwe.polynomial_size(), PolynomialSize(1024));
    assert!(glwe.get_mask().iter().all(|&x| x == 0));
    assert_eq!(glwe.get_body().to_vec(), vec![3u64 << 60; 1024]);
    let key = secret_key(9, 1, 1024);
    let mut output = PlaintextList::new(0u64, PlaintextCount(1024));
    decrypt_glwe_ciphertext(&key, &glwe, &mut output);
    assert_eq!(output.into_container(), glwe.get_body().to_vec());
}

#[test]
fn glwe_list_encrypt_decrypt() {
    let glwe_size = GlweSize(2);
    let polynomial_size = PolynomialSize(1024);
    let glwe_count = GlweCiphertextCount(2);
    let key = secret_key(0, 1, 1024);
    let mut generator = EncryptionRandomGenerator::<Generator>::new(Seed(0), Seed(1));
    let noise = FunctionDistribution::new(16, gaussian_from_bytes);
    let msg = 3u64;
    let plaintext = PlaintextList::new(msg << 60, PlaintextCount(2048));
    let mut list = GlweCiphertextList::new(0u64, glwe_size, polynomial_size, glwe_count);
    encrypt_glwe_ciphertext_list(&key, &plaintext, &mut list, &noise, &mut generator);
    assert_eq!(list.glwe_ciphertext_count(), glwe_count);
    let mut output = PlaintextList::new(0u64, PlaintextCount(2048));
    decrypt_glwe_ciphertext_list(&key, &list, &mut output);
    let decrypted = output.into_container();
    assert_eq!(decrypted.len(), 2048);
    for x in decrypted {
        assert_eq!(round_to_top_four_bits(x), msg);
    }
}

#[test]
fn list_encryption_is_chunk_by_chunk_encryption() {
    let key = secret_key(21, 2, 8);
    let noise = TUniform::<u64>::new(7);
    let values: Vec<u64> = (0..24u64).map(|i| i << 56).collect();
    let plaintext = PlaintextList::from_container(values.clone());
    let mut list =
        GlweCiphertextList::new(0u64, GlweSize(3), PolynomialSize(8), GlweCiphertextCount(3));
    let mut generator = EncryptionRandomGenerator::<Generator>::new(Seed(8), Seed(9));
    encrypt_glwe_ciphertext_list(&key, &plaintext, &mut list, &noise, &mut generator);
    let mut one_by_one: Vec<u64> = Vec::new();
    let mut generator = EncryptionRandomGenerator::<Generator>::new(Seed(8), Seed(9));
    for chunk in values.chunks_exact(8) {
        let chunk = PlaintextList::from_container(chunk.to_vec());
        let mut glwe = GlweCiphertext::new(0u64, GlweSize(3), PolynomialSize(8));
        encrypt_glwe_ciphertext(&key, &chunk, &mut glwe, &noise, &mut generator);
        one_by_one.extend(glwe.into_container());
    }
    let list = list.into_container();
    assert_eq!(list.len(), 72);
    assert_eq!(list, one_by_one);
    let first = list[0..24].to_vec();
    let second = list[24..48].to_vec();
    assert_ne!(first, second);
}

#[test]
fn same_seeds_give_the_same_ciphertext() {
    let key = secret_key(21, 1, 32);
    let noise = TUniform::<u64>::new(7);
    let plaintext = PlaintextList::new(1u64 << 62, PlaintextCount(32));
    let mut ciphertexts: Vec<Vec<u64>> = Vec::new();
    for (mask_seed, noise_seed) in [(1u128, 2u128), (1, 2), (3, 2), (1, 4)] {
        let mut generator =
            EncryptionRandomGenerator::<Generator>::new(Seed(mask_seed), Seed(noise_seed));
        let mut glwe = GlweCiphertext::new(0u64, GlweSize(2), PolynomialSize(32));
        encrypt_glwe_ciphertext(&key, &plaintext, &mut glwe, &noise, &mut generator);
        ciphertexts.push(glwe.into_container());
    }
    assert_eq!(ciphertexts[0], ciphertexts[1]);
    assert_ne!(ciphertexts[0][..32], ciphertexts[2][..32]);
    assert_eq!(ciphertexts[0][..32], ciphertexts[3][..32]);
    assert_ne!(ciphertexts[0][32..], ciphertexts[3][32..]);
}

fn round_trip_on<T: UnsignedTorus + PartialEq + std::fmt::Debug>(message: T, bound_log2: u32) {
    let mut secret_generator = RandomGenerator::<Generator>::new(Seed(5));
    let key: GlweSecretKey<T> = allocate_and_generate_new_binary_glwe_secret_key(
        GlweDimension(2),
        PolynomialSize(16),
        &mut secret_generator,
    );
    let noise = TUniform::<T>::new(bound_log2);
    let plaintext = PlaintextList::new(message, PlaintextCount(16));
    let mut glwe = GlweCiphertext::new(T::from_u128(0), GlweSize(3), PolynomialSize(16));
    let mut generator = EncryptionRandomGenerator::<Generator>::new(Seed(6), Seed(7));
    encrypt_glwe_ciphertext(&key, &plaintext, &mut glwe, &noise, &mut generator);
    let mut output = PlaintextList::new(T::from_u128(0), PlaintextCount(16));
    decrypt_glwe_ciphertext(&key, &glwe, &mut output);
    let bound = 1u128 << bound_log2;
    for x in output.into_container() {
        let error = UnsignedTorus::wrapping_sub(x, message).to_u128();
        let negated = UnsignedTorus::wrapping_sub(message, x).to_u128();
        assert!(error <= bound || negated <= bound);
    }
}

#[test]
fn encryption_works_on_every_width() {
    round_trip_on::<u8>(3 << 5, 2);
    round_trip_on::<u16>(3 << 12, 6);
    round_trip_on::<u32>(3 << 28, 10);
    round_trip_on::<u64>(3 << 60, 20);
    round_trip_on::<u128>(3 << 124, 40);
}

#[test]
fn body_is_noise_plus_plaintext_plus_mask_times_key() {
    let key = secret_key(31, 2, 8);
    let noise = TUniform::<u64>::new(9);
    let values: Vec<u64> = (0..8u64).map(|i| (i + 1) << 59).collect();
    let plaintext = PlaintextList::from_container(values.clone());
    let mut glwe = GlweCiphertext::new(0u64, GlweSize(3), PolynomialSize(8));
    let mut generator = EncryptionRandomGenerator::<Generator>::new(Seed(32), Seed(33));
    encrypt_glwe_ciphertext(&key, &plaintext, &mut glwe, &noise, &mut generator);
    let mut replay = RandomGenerator::<Generator>::new(Seed(33));
    let mask = glwe.get_mask().to_vec();
    let body = glwe.get_body().to_vec();
    for i in 0..8 {
        let product = glwe_core::polynomial::polynomial_list_multisum_coefficient::<u64>(
            &mask, &key.data, 8, i,
        );
        let sample: u64 = noise.generate_one(&mut replay);
        assert_eq!(body[i], sample.wrapping_add(values[i]).wrapping_add(product));
    }
    // One coefficient by hand: the products of the degrees that add up to 0,
    // with a minus sign where the degrees wrap around.
    let mut expected = 0u64;
    for polynomial in 0..2 {
        let a = &mask[8 * polynomial..8 * polynomial + 8];
        let s = &key.data[8 * polynomial..8 * polynomial + 8];
        expected = expected.wrapping_add(a[0].wrapping_mul(s[0]));
        for t in 1..8 {
            expected = expected.wrapping_sub(a[t].wrapping_mul(s[8 - t]));
        }
    }
    assert_eq!(
        glwe_core::polynomial::polynomial_list_multisum_coefficient::<u64>(&mask, &key.data, 8, 0),
        expected
    );
}

#[test]
fn shapes_of_the_entities() {
    assert_eq!(GlweSize(3).to_glwe_dimension(), GlweDimension(2));
    assert_eq!(GlweDimension(2).to_glwe_size(), GlweSize(3));
    let key = secret_key(1, 3, 4);
    assert_eq!(key.glwe_dimension(), GlweDimension(3));
    assert_eq!(key.polynomial_size(), PolynomialSize(4));
    assert!(key.data.iter().all(|&x| x == 0 || x == 1));
    let key = GlweSecretKey::from_container(vec![1u64, 0, 1, 1, 0, 0], PolynomialSize(3));
    assert_eq!(key.glwe_dimension(), GlweDimension(2));
    assert_eq!(key.into_container(), vec![1, 0, 1, 1, 0, 0]);
    let ciphertext = GlweCiphertext::from_container(vec![1u64, 2, 3, 4, 5, 6], PolynomialSize(2));
    assert_eq!(ciphertext.glwe_size(), GlweSize(3));
    assert_eq!(ciphertext.get_mask().to_vec(), vec![1, 2, 3, 4]);
    assert_eq!(ciphertext.get_body().to_vec(), vec![5, 6]);
    let list = GlweCiphertextList::from_container(vec![0u64; 24], GlweSize(2), PolynomialSize(4));
    assert_eq!(list.glwe_ciphertext_count(), GlweCiphertextCount(3));
    assert_eq!(list.glwe_size(), GlweSize(2));
    assert_eq!(list.polynomial_size(), PolynomialSize(4));
    let list =
        GlweCiphertextList::new(7u8, GlweSize(2), PolynomialSize(4), GlweCiphertextCount(0));
    assert_eq!(list.glwe_ciphertext_count(), GlweCiphertextCount(0));
    assert_eq!(list.into_container(), Vec::<u8>::new());
    let plaintexts = PlaintextList::new(9u16, PlaintextCount(3));
    assert_eq!(plaintexts.plaintext_count(), PlaintextCount(3));
    assert_eq!(plaintexts.into_container(), vec![9, 9, 9]);
}

#[test]
fn rounding_takes_t_uniform_noise_away_bit_for_bit() {
    let key = secret_key(77, 2, 32);
    let noise = TUniform::<u64>::new(40);
    let values: Vec<u64> = (0..32u64).map(|i| i.wrapping_mul(11) << 48).collect();
    let plaintext = PlaintextList::from_container(values.clone());
    let mut glwe = GlweCiphertext::new(0u64, GlweSize(3), PolynomialSize(32));
    let mut generator = EncryptionRandomGenerator::<Generator>::new(Seed(78), Seed(79));
    encrypt_glwe_ciphertext(&key, &plaintext, &mut glwe, &noise, &mut generator);
    let mut output = PlaintextList::new(0u64, PlaintextCount(32));
    decrypt_glwe_ciphertext(&key, &glwe, &mut output);
    let decrypted = output.into_container();
    assert_ne!(decrypted, values);
    let rounded: Vec<u64> = decrypted
        .iter()
        .map(|&x| closest_representable(x, DecompositionBaseLog(8), DecompositionLevelCount(2)))
        .collect();
    assert_eq!(rounded, values);
}
