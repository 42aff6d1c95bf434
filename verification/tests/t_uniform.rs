use glwe_core::csprng::SoftwareRandomGenerator;
use glwe_core::random::{NoiseDistribution, RandomGenerator, Seed};
use glwe_core::t_uniform::TUniform;

type Generator = SoftwareRandomGenerator;

#[test]
fn t_uniform_keeps_its_bound() {
    assert_eq!(TUniform::<u64>::new(0).bound_log2(), 0);
    assert_eq!(TUniform::<u64>::new(62).bound_log2(), 62);
    assert_eq!(TUniform::<u8>::new(6).bound_log2(), 6);
    assert_eq!(TUniform::<u128>::new(126).bound_log2(), 126);
}

#[test]
fn t_uniform_counts_its_values() {
    assert_eq!(TUniform::<u64>::new(0).distinct_value_count(), 3);
    assert_eq!(TUniform::<u64>::new(2).distinct_value_count(), 9);
    assert_eq!(TUniform::<u32>::new(10).distinct_value_count(), 2049);
    assert_eq!(TUniform::<u32>::new(30).distinct_value_count(), (1usize << 31) + 1);
}

#[test]
fn t_uniform_end_points() {
    assert_eq!(TUniform::<u64>::new(2).min_value_inclusive(), -4i64);
    assert_eq!(TUniform::<u64>::new(2).max_value_inclusive(), 4i64);
    assert_eq!(TUniform::<u8>::new(6).min_value_inclusive(), -64i8);
    assert_eq!(TUniform::<u8>::new(6).max_value_inclusive(), 64i8);
    assert_eq!(TUniform::<u16>::new(0).min_value_inclusive(), -1i16);
    assert_eq!(TUniform::<u16>::new(0).max_value_inclusive(), 1i16);
    assert_eq!(TUniform::<u32>::new(30).min_value_inclusive(), -(1i32 << 30));
    assert_eq!(TUniform::<u128>::new(126).max_value_inclusive(), 1i128 << 126);
    assert_eq!(TUniform::<u128>::new(126).min_value_inclusive(), -(1i128 << 126));
}

#[test]
fn t_uniform_takes_whole_bytes() {
    assert_eq!(NoiseDistribution::<u64>::bytes_per_sample(&TUniform::<u64>::new(0)), 1);
    assert_eq!(NoiseDistribution::<u64>::bytes_per_sample(&TUniform::<u64>::new(6)), 1);
    assert_eq!(NoiseDistribution::<u64>::bytes_per_sample(&TUniform::<u64>::new(7)), 2);
    assert_eq!(NoiseDistribution::<u64>::bytes_per_sample(&TUniform::<u64>::new(62)), 8);
    assert_eq!(NoiseDistribution::<u128>::bytes_per_sample(&TUniform::<u128>::new(126)), 16);
    let mut generator = RandomGenerator::<Generator>::new(Seed(1));
    let before = generator.remaining_bytes();
    let _: u64 = TUniform::<u64>::new(17).generate_one(&mut generator);
    assert_eq!(before - generator.remaining_bytes(), 3);
}

fn sample_by_the_recipe(bound_log2: u32, bytes: &[u8]) -> u64 {
    let mut buffer = [0u8; 8];
    buffer[..bytes.len()].copy_from_slice(bytes);
    let native = u64::from_le_bytes(buffer);
    let required_bits = bound_log2 + 2;
    let candidate = native & (u64::MAX >> (64 - required_bits));
    let carry = candidate & 1;
    let halved = (candidate >> 1).wrapping_add(carry);
    halved.wrapping_sub(1 << bound_log2)
}

#[test]
fn t_uniform_sample_follows_the_recipe_bit_for_bit() {
    for bound_log2 in [0u32, 1, 5, 6, 7, 14, 15, 30, 61, 62] {
        let distribution = TUniform::<u64>::new(bound_log2);
        let mut generator = RandomGenerator::<Generator>::new(Seed(bound_log2 as u128));
        let mut replay = RandomGenerator::<Generator>::new(Seed(bound_log2 as u128));
        let count = ((bound_log2 + 2 + 7) / 8) as usize;
        for _ in 0..200 {
            let sample: u64 = distribution.generate_one(&mut generator);
            let bytes = replay.generate_bytes(count);
            assert_eq!(sample, sample_by_the_recipe(bound_log2, &bytes));
            let signed = sample as i64;
            assert!(-(1i64 << bound_log2) <= signed && signed <= 1i64 << bound_log2);
        }
    }
}

#[test]
fn t_uniform_sample_of_given_bits() {
    // b = 2: the four bits 0b0111 are halved to 3, the bit shifted out brings
    // them to 4, and 4 - 4 = 0.
    assert_eq!(sample_by_the_recipe(2, &[0b0111]), 0);
    assert_eq!(sample_by_the_recipe(2, &[0b0000]), (-4i64) as u64);
    assert_eq!(sample_by_the_recipe(2, &[0b1111]), 4);
    assert_eq!(sample_by_the_recipe(2, &[0b1111_0001]), (-3i64) as u64);
}

#[test]
fn t_uniform_samples_on_the_widest_torus() {
    let distribution = TUniform::<u128>::new(126);
    let mut generator = RandomGenerator::<Generator>::new(Seed(3));
    let mut replay = RandomGenerator::<Generator>::new(Seed(3));
    for _ in 0..100 {
        let sample: u128 = distribution.generate_one(&mut generator);
        let bytes = replay.generate_bytes(16);
        let mut buffer = [0u8; 16];
        buffer.copy_from_slice(&bytes);
        let candidate = u128::from_le_bytes(buffer);
        let expected = ((candidate >> 1) + (candidate & 1)).wrapping_sub(1 << 126);
        assert_eq!(sample, expected);
    }
}

#[test]
fn t_uniform_frequencies_have_the_shape_of_the_distribution() {
    let bound_log2 = 2u32;
    let draws = 1usize << 20;
    let distribution = TUniform::<u64>::new(bound_log2);
    let mut generator = RandomGenerator::<Generator>::new(Seed(0));
    let mut counts = [0usize; 9];
    for _ in 0..draws {
        let sample: u64 = distribution.generate_one(&mut generator);
        counts[((sample as i64) + 4) as usize] += 1;
    }
    assert_eq!(counts.iter().sum::<usize>(), draws);
    for (index, &count) in counts.iter().enumerate() {
        let probability = if index == 0 || index == 8 { 1.0 / 16.0 } else { 1.0 / 8.0 };
        let expected = draws as f64 * probability;
        let sigma = (draws as f64 * probability * (1.0 - probability)).sqrt();
        assert!((count as f64 - expected).abs() <= 3.0 * sigma);
    }
}
