use glwe_core::csprng::{generate_block, SoftwareRandomGenerator};
use glwe_core::random::{
    le_bytes_to_u128, ByteRandomGenerator, EncryptionRandomGenerator, FunctionDistribution,
    NoiseDistribution, RandomGenerator, Seed,
};

type Generator = SoftwareRandomGenerator;

const FIRST_BLOCK_OF_SEED_ZERO: [u8; 64] = [
    0x76, 0xb8, 0xe0, 0xad, 0xa0, 0xf1, 0x3d, 0x90, 0x40, 0x5d, 0x6a, 0xe5, 0x53, 0x86, 0xbd, 0x28,
    0xbd, 0xd2, 0x19, 0xb8, 0xa0, 0x8d, 0xed, 0x1a, 0xa8, 0x36, 0xef, 0xcc, 0x8b, 0x77, 0x0d, 0xc7,
    0xda, 0x41, 0x59, 0x7c, 0x51, 0x57, 0x48, 0x8d, 0x77, 0x24, 0xe0, 0x3f, 0xb8, 0xd8, 0x4a, 0x37,
    0x6a, 0x43, 0xb8, 0xf4, 0x15, 0x18, 0xa1, 0x1c, 0xc3, 0x87, 0xb6, 0x69, 0xb2, 0xee, 0x65, 0x86,
];

const SECOND_BLOCK_OF_SEED_ZERO_START: [u8; 8] = [0x9f, 0x07, 0xe7, 0xbe, 0x55, 0x51, 0x38, 0x7a];

#[test]
fn keystream_of_seed_zero_is_the_chacha20_keystream() {
    let mut generator = RandomGenerator::<Generator>::new(Seed(0));
    let bytes = generator.generate_bytes(64);
    assert_eq!(bytes, FIRST_BLOCK_OF_SEED_ZERO.to_vec());
    assert_eq!(generate_block(0, 0), FIRST_BLOCK_OF_SEED_ZERO.to_vec());
    let next = generator.generate_bytes(8);
    assert_eq!(next, SECOND_BLOCK_OF_SEED_ZERO_START.to_vec());
    assert_eq!(generate_block(0, 1)[..8], SECOND_BLOCK_OF_SEED_ZERO_START);
}

#[test]
fn generator_gives_its_stream_byte_by_byte() {
    let mut generator = <Generator as ByteRandomGenerator>::new(Seed(0));
    assert_eq!(generator.remaining_bytes(), 1u128 << 70);
    for (index, &expected) in FIRST_BLOCK_OF_SEED_ZERO.iter().enumerate() {
        assert_eq!(generator.next_byte(), Some(expected));
        assert_eq!(generator.remaining_bytes(), (1u128 << 70) - index as u128 - 1);
    }
    assert_eq!(generator.next_byte(), Some(0x9f));
    assert_eq!(generator.remaining_bytes(), (1u128 << 70) - 65);
}

#[test]
fn streams_of_different_seeds_differ() {
    let mut first = RandomGenerator::<Generator>::new(Seed(1));
    let mut second = RandomGenerator::<Generator>::new(Seed(2));
    let mut high = RandomGenerator::<Generator>::new(Seed(1 << 100));
    let a = first.generate_bytes(32);
    let b = second.generate_bytes(32);
    let c = high.generate_bytes(32);
    assert_ne!(a, b);
    assert_ne!(a, c);
    assert_ne!(b, c);
    assert_ne!(a, FIRST_BLOCK_OF_SEED_ZERO[..32].to_vec());
    assert_ne!(c, FIRST_BLOCK_OF_SEED_ZERO[..32].to_vec());
}

#[test]
fn bytes_are_read_least_significant_first() {
    assert_eq!(le_bytes_to_u128(&[]), 0);
    assert_eq!(le_bytes_to_u128(&[0x34, 0x12]), 0x1234);
    assert_eq!(le_bytes_to_u128(&[0xff; 16]), u128::MAX);
    assert_eq!(le_bytes_to_u128(&[1, 0, 0, 0, 0, 0, 0, 0, 2]), 1 + (2u128 << 64));
}

#[test]
fn uniform_scalars_are_the_stream_in_little_endian_words() {
    let mut generator = RandomGenerator::<Generator>::new(Seed(0));
    let first: u64 = generator.random_uniform();
    assert_eq!(first, 0x903d_f1a0_ade0_b876);
    let second: u16 = generator.random_uniform();
    assert_eq!(second, 0x5d40);
    let third: u8 = generator.random_uniform();
    assert_eq!(third, 0x6a);
    let mut output = [0u32; 2];
    generator.fill_slice_with_random_uniform(&mut output);
    assert_eq!(output, [0xbd86_53e5, 0x19d2_bd28]);
    let mut generator = RandomGenerator::<Generator>::new(Seed(0));
    let wide: u128 = generator.random_uniform();
    assert_eq!(wide, 0x28bd_8653_e56a_5d40_903d_f1a0_ade0_b876);
}

#[test]
fn mask_and_noise_come_from_their_own_generators() {
    let mut generator = EncryptionRandomGenerator::<Generator>::new(Seed(0), Seed(1));
    let mut mask = [0u64; 2];
    generator.fill_slice_with_random_mask(&mut mask);
    assert_eq!(mask, [0x903d_f1a0_ade0_b876, 0x28bd_8653_e56a_5d40]);
    assert_eq!(generator.remaining_mask_bytes(), (1u128 << 70) - 16);
    assert_eq!(generator.remaining_noise_bytes(), 1u128 << 70);
    let low_byte = FunctionDistribution::new(2, |bytes: Vec<u8>| bytes[0] as u64);
    let mut replay = RandomGenerator::<Generator>::new(Seed(1));
    let expected = replay.generate_bytes(6);
    let mut noise = [0u64; 3];
    generator.fill_slice_with_random_noise(&mut noise, &low_byte);
    assert_eq!(noise, [expected[0] as u64, expected[2] as u64, expected[4] as u64]);
    assert_eq!(generator.remaining_mask_bytes(), (1u128 << 70) - 16);
    assert_eq!(generator.remaining_noise_bytes(), (1u128 << 70) - 6);
    let mut body = [10u64, 20, 30];
    let mut replay = RandomGenerator::<Generator>::new(Seed(1));
    let expected = replay.generate_bytes(12);
    generator.unsigned_torus_slice_wrapping_add_random_noise_assign(&mut body, &low_byte);
    assert_eq!(
        body,
        [10 + expected[6] as u64, 20 + expected[8] as u64, 30 + expected[10] as u64]
    );
}

#[test]
fn function_distribution_hands_the_bytes_of_one_sample_to_its_function() {
    let distribution = FunctionDistribution::new(3, |bytes: Vec<u8>| {
        assert_eq!(bytes.len(), 3);
        bytes[0] as u32 + 256 * bytes[1] as u32 + 65536 * bytes[2] as u32
    });
    assert_eq!(NoiseDistribution::<u32>::bytes_per_sample(&distribution), 3);
    let mut generator = RandomGenerator::<Generator>::new(Seed(0));
    let sample: u32 = distribution.generate_one(&mut generator);
    assert_eq!(sample, 0xe0_b876);
    let sample: u32 = distribution.generate_one(&mut generator);
    assert_eq!(sample, 0xf1_a0ad);
}
