use glwe_core::csprng::SoftwareRandomGenerator;
use glwe_core::decomposition::{DecompositionBaseLog, DecompositionLevelCount};
use glwe_core::key_switching_key::{raw_parts_are_compatible, CastFunction, KeySwitchingKey};
use glwe_core::lwe::{
    allocate_and_generate_new_binary_lwe_secret_key, CiphertextModulus, LweCiphertext, LweDimension,
    LweSize,
};
use glwe_core::lwe_keyswitch::keyswitch_lwe_ciphertext;
use glwe_core::random::{EncryptionRandomGenerator, RandomGenerator, Seed};
use glwe_core::shortint::{
    checked_log2, full_message_modulus, CarryModulus, Ciphertext, ClientKey, MessageModulus,
    ServerKey, ShortintKeySwitchingParameters, ShortintParameters,
};
use glwe_core::t_uniform::TUniform;

type Generator = SoftwareRandomGenerator;

fn keys(seed: u128, dimension: usize, message: usize, carry: usize) -> (ClientKey, ServerKey) {
    let mut generator = RandomGenerator::<Generator>::new(Seed(seed));
    let lwe_secret_key =
        allocate_and_generate_new_binary_lwe_secret_key(LweDimension(dimension), &mut generator);
    let parameters = ShortintParameters {
        message_modulus: MessageModulus(message),
        carry_modulus: CarryModulus(carry),
        ciphertext_modulus: CiphertextModulus::new_native(),
    };
    let server_key = ServerKey {
        message_modulus: parameters.message_modulus,
        carry_modulus: parameters.carry_modulus,
        lwe_dimension: LweDimension(dimension),
        ciphertext_modulus: parameters.ciphertext_modulus,
    };
    (ClientKey { lwe_secret_key, parameters }, server_key)
}

fn keyswitch_parameters() -> ShortintKeySwitchingParameters {
    ShortintKeySwitchingParameters {
        ks_base_log: DecompositionBaseLog(4),
        ks_level: DecompositionLevelCount(6),
    }
}

/// Evaluates a lookup table the way a bootstrap does, but with the secret
/// key in hand: decrypts, applies the function, and encodes the outcome
/// afresh.
fn evaluate_with(client_key: &ClientKey, ct: &Ciphertext, function: CastFunction) -> Ciphertext {
    let value = client_key.decrypt_message_and_carry(ct);
    let parameters = client_key.parameters;
    let full = full_message_modulus(parameters.message_modulus, parameters.carry_modulus) as u64;
    let delta = (1u64 << 63) / full;
    let mut data = vec![0u64; ct.ct.data.len()];
    let last = data.len() - 1;
    data[last] = function.evaluate(value).wrapping_mul(delta);
    Ciphertext {
        ct: LweCiphertext::from_container(data, ct.ct.ciphertext_modulus),
        message_modulus: ct.message_modulus,
        carry_modulus: ct.carry_modulus,
    }
}

fn bridge(
    source: &(ClientKey, ServerKey),
    destination: &(ClientKey, ServerKey),
    generator: &mut EncryptionRandomGenerator<Generator>,
) -> KeySwitchingKey {
    KeySwitchingKey::new(
        (&source.0, &source.1),
        (&destination.0, &destination.1),
        keyswitch_parameters(),
        &TUniform::<u64>::new(10),
        generator,
    )
}

#[test]
fn cast_function_shifts() {
    let right = CastFunction { cast_rshift: 2, modulus: 16 };
    assert_eq!(right.evaluate(0), 0);
    assert_eq!(right.evaluate(4), 1);
    assert_eq!(right.evaluate(7), 1);
    assert_eq!(right.evaluate(15), 3);
    assert_eq!(right.evaluate(u64::MAX), u64::MAX >> 2);
    let left = CastFunction { cast_rshift: -2, modulus: 16 };
    assert_eq!(left.evaluate(0), 0);
    assert_eq!(left.evaluate(1), 4);
    assert_eq!(left.evaluate(3), 12);
    assert_eq!(left.evaluate(4), 0);
    assert_eq!(left.evaluate(7), 12);
    assert_eq!(left.evaluate(u64::MAX), 12);
    let none = CastFunction { cast_rshift: 0, modulus: 4 };
    assert_eq!(none.evaluate(13), 13);
    let far = CastFunction { cast_rshift: -62, modulus: 1 << 62 };
    assert_eq!(far.evaluate(3), 0);
    assert_eq!(CastFunction { cast_rshift: -61, modulus: 1 << 62 }.evaluate(3), 1 << 61);
    assert_eq!(CastFunction { cast_rshift: 62, modulus: 4 }.evaluate(u64::MAX), 3);
}

#[test]
fn logarithm_of_a_full_modulus() {
    assert_eq!(checked_log2(0), None);
    assert_eq!(checked_log2(1), Some(0));
    assert_eq!(checked_log2(2), Some(1));
    assert_eq!(checked_log2(3), None);
    assert_eq!(checked_log2(16), Some(4));
    assert_eq!(checked_log2(24), None);
    assert_eq!(checked_log2(1 << 62), Some(62));
    assert_eq!(checked_log2(1 << 63), None);
    assert_eq!(checked_log2((1 << 62) + 1), None);
    assert_eq!(full_message_modulus(MessageModulus(4), CarryModulus(8)), 32);
}

#[test]
fn shortint_encrypt_decrypt() {
    let (client_key, server_key) = keys(1, 32, 4, 4);
    let noise = TUniform::<u64>::new(10);
    let mut generator = EncryptionRandomGenerator::<Generator>::new(Seed(2), Seed(3));
    for message in 0..8u64 {
        let ct = client_key.encrypt(message, &noise, &mut generator);
        assert_eq!(ct.message_modulus, MessageModulus(4));
        assert_eq!(ct.carry_modulus, CarryModulus(4));
        assert_eq!(client_key.decrypt(&ct), message % 4);
        assert_eq!(client_key.decrypt_message_and_carry(&ct), message % 4);
    }
    let trivial = server_key.create_trivial(7);
    assert_eq!(trivial.ct.data.len(), 33);
    assert!(trivial.ct.data[..32].iter().all(|&x| x == 0));
    assert_eq!(trivial.ct.data[32], 3 << 59);
    assert_eq!(client_key.decrypt(&trivial), 3);
    assert_eq!(server_key.ciphertext_lwe_dimension(), LweDimension(32));
}

#[test]
fn keyswitch_bridge_same_width() {
    let source = keys(1, 40, 4, 4);
    let destination = keys(2, 24, 4, 4);
    let mut generator = EncryptionRandomGenerator::<Generator>::new(Seed(3), Seed(4));
    let ksk = bridge(&source, &destination, &mut generator);
    assert_eq!(ksk.cast_rshift, 0);
    let noise = TUniform::<u64>::new(10);
    let cipher = source.0.encrypt(1, &noise, &mut generator);
    let cipher_2 = ksk.cast(
        &cipher,
        |_: &Ciphertext, _: CastFunction| -> Ciphertext { panic!("no table at the same width") },
        |_: &Ciphertext, _: CastFunction| -> Ciphertext { panic!("no table at the same width") },
    );
    assert_eq!(destination.0.decrypt(&cipher_2), 1);
    assert_eq!(cipher_2.message_modulus, MessageModulus(4));
    assert_eq!(cipher_2.carry_modulus, CarryModulus(4));
    assert_eq!(cipher_2.ct.data.len(), 25);
}

#[test]
fn keyswitch_bridge_widening_cast() {
    let source = keys(1, 40, 2, 2);
    let destination = keys(2, 24, 4, 4);
    let mut generator = EncryptionRandomGenerator::<Generator>::new(Seed(3), Seed(4));
    let ksk = bridge(&source, &destination, &mut generator);
    assert_eq!(ksk.cast_rshift, 2);
    let noise = TUniform::<u64>::new(10);
    let cipher = source.0.encrypt(1, &noise, &mut generator);
    let cipher_2 = ksk.cast(
        &cipher,
        |_: &Ciphertext, _: CastFunction| -> Ciphertext { panic!("the table is not the source's") },
        |ct: &Ciphertext, function: CastFunction| -> Ciphertext {
            assert_eq!(function, CastFunction { cast_rshift: 2, modulus: 16 });
            evaluate_with(&destination.0, ct, function)
        },
    );
    assert_eq!(destination.0.decrypt(&cipher_2), 1);
    assert_eq!(cipher_2.message_modulus, MessageModulus(4));
}

#[test]
fn keyswitch_bridge_narrowing_cast() {
    let source = keys(1, 40, 4, 4);
    let destination = keys(2, 24, 2, 2);
    let mut generator = EncryptionRandomGenerator::<Generator>::new(Seed(3), Seed(4));
    let ksk = bridge(&source, &destination, &mut generator);
    assert_eq!(ksk.cast_rshift, -2);
    let noise = TUniform::<u64>::new(10);
    let cipher = source.0.encrypt(1, &noise, &mut generator);
    let cipher_2 = ksk.cast(
        &cipher,
        |ct: &Ciphertext, function: CastFunction| -> Ciphertext {
            assert_eq!(function, CastFunction { cast_rshift: -2, modulus: 16 });
            evaluate_with(&source.0, ct, function)
        },
        |_: &Ciphertext, _: CastFunction| -> Ciphertext { panic!("the table is the source's") },
    );
    assert_eq!(destination.0.decrypt(&cipher_2), 1);
    assert_eq!(cipher_2.message_modulus, MessageModulus(2));

    // The other order, keyswitch first and shift after it under the
    // destination parameters, loses the message.
    let mut switched = destination.1.create_trivial(0);
    keyswitch_lwe_ciphertext(&ksk.key_switching_key, &cipher.ct, &mut switched.ct);
    let shifted_after = evaluate_with(
        &destination.0,
        &switched,
        CastFunction { cast_rshift: -2, modulus: 4 },
    );
    assert_ne!(destination.0.decrypt(&shifted_after), 1);
}

#[test]
fn keyswitch_bridge_round_trip_for_every_message() {
    let noise = TUniform::<u64>::new(10);
    let cases = [((4, 4), (4, 4)), ((2, 2), (4, 4)), ((4, 4), (2, 2))];
    for (source_moduli, destination_moduli) in cases {
        let source = keys(5, 32, source_moduli.0, source_moduli.1);
        let destination = keys(6, 20, destination_moduli.0, destination_moduli.1);
        let mut generator = EncryptionRandomGenerator::<Generator>::new(Seed(7), Seed(8));
        let ksk = bridge(&source, &destination, &mut generator);
        let messages = source_moduli.0.min(destination_moduli.0) as u64;
        for message in 0..messages {
            let cipher = source.0.encrypt(message, &noise, &mut generator);
            let mut cipher_2 = destination.1.create_trivial(0);
            ksk.cast_into(
                &cipher,
                &mut cipher_2,
                |ct: &Ciphertext, function: CastFunction| -> Ciphertext {
                    evaluate_with(&source.0, ct, function)
                },
                |ct: &Ciphertext, function: CastFunction| -> Ciphertext {
                    evaluate_with(&destination.0, ct, function)
                },
            );
            assert_eq!(destination.0.decrypt(&cipher_2), message);
        }
    }
}

#[test]
fn cast_leaves_the_destination_when_the_table_hands_back_another_shape() {
    let source = keys(1, 40, 4, 4);
    let destination = keys(2, 24, 2, 2);
    let mut generator = EncryptionRandomGenerator::<Generator>::new(Seed(3), Seed(4));
    let ksk = bridge(&source, &destination, &mut generator);
    let noise = TUniform::<u64>::new(10);
    let cipher = source.0.encrypt(1, &noise, &mut generator);
    let mut cipher_2 = destination.1.create_trivial(1);
    let before = cipher_2.ct.data.clone();
    ksk.cast_into(
        &cipher,
        &mut cipher_2,
        |ct: &Ciphertext, _: CastFunction| -> Ciphertext {
            Ciphertext {
                ct: LweCiphertext::new(0u64, LweSize(3), CiphertextModulus::new_native()),
                message_modulus: ct.message_modulus,
                carry_modulus: ct.carry_modulus,
            }
        },
        |_: &Ciphertext, _: CastFunction| -> Ciphertext { panic!("the table is the source's") },
    );
    assert_eq!(cipher_2.ct.data, before);
}

#[test]
fn raw_parts_round_trip() {
    let source = keys(1, 12, 4, 4);
    let destination = keys(2, 10, 2, 2);
    let mut generator = EncryptionRandomGenerator::<Generator>::new(Seed(3), Seed(4));
    let ksk = bridge(&source, &destination, &mut generator);
    let data = ksk.key_switching_key.data.clone();
    let (key_switching_key, dest_server_key, src_server_key, cast_rshift) = ksk.into_raw_parts();
    assert_eq!(key_switching_key.data, data);
    assert_eq!(dest_server_key, destination.1);
    assert_eq!(src_server_key, source.1);
    assert_eq!(cast_rshift, -2);
    assert!(raw_parts_are_compatible(
        &key_switching_key,
        &dest_server_key,
        &src_server_key,
        cast_rshift
    ));
    let again = KeySwitchingKey::from_raw_parts(
        key_switching_key,
        dest_server_key,
        src_server_key,
        cast_rshift,
    );
    assert_eq!(again.key_switching_key.data, data);
    assert_eq!(again.dest_server_key, destination.1);
    assert_eq!(again.src_server_key, source.1);
    assert_eq!(again.cast_rshift, -2);
}

#[test]
fn raw_parts_that_do_not_fit_are_told_apart() {
    let source = keys(1, 12, 4, 4);
    let destination = keys(2, 10, 2, 2);
    let mut generator = EncryptionRandomGenerator::<Generator>::new(Seed(3), Seed(4));
    let ksk = bridge(&source, &destination, &mut generator);
    let (key, dest, src, shift) = ksk.into_raw_parts();
    assert!(raw_parts_are_compatible(&key, &dest, &src, shift));

    assert!(!raw_parts_are_compatible(&key, &dest, &src, 0));
    assert!(!raw_parts_are_compatible(&key, &dest, &src, 2));

    let mut other = src;
    other.lwe_dimension = LweDimension(13);
    assert!(!raw_parts_are_compatible(&key, &dest, &other, shift));

    let mut other = dest;
    other.lwe_dimension = LweDimension(9);
    assert!(!raw_parts_are_compatible(&key, &other, &src, shift));

    let mut other = src;
    other.ciphertext_modulus = CiphertextModulus(1 << 32);
    assert!(!raw_parts_are_compatible(&key, &dest, &other, shift));

    let mut other = dest;
    other.ciphertext_modulus = CiphertextModulus(1 << 32);
    assert!(!raw_parts_are_compatible(&key, &other, &src, shift));

    let mut other = src;
    other.message_modulus = MessageModulus(3);
    assert!(!raw_parts_are_compatible(&key, &dest, &other, shift));

    let mut other = dest;
    other.carry_modulus = CarryModulus(0);
    assert!(!raw_parts_are_compatible(&key, &other, &src, shift));

    let mut other = src;
    other.message_modulus = MessageModulus(1 << 40);
    other.carry_modulus = CarryModulus(1 << 40);
    assert!(!raw_parts_are_compatible(&key, &dest, &other, shift));

    let mut other = dest;
    other.message_modulus = MessageModulus(8);
    assert!(!raw_parts_are_compatible(&key, &other, &src, shift));
    assert!(raw_parts_are_compatible(&key, &other, &src, 0));

    let mut broken = key;
    broken.decomp_level_count = DecompositionLevelCount(16);
    assert!(!raw_parts_are_compatible(&broken, &dest, &src, shift));
    broken.decomp_level_count = DecompositionLevelCount(0);
    assert!(!raw_parts_are_compatible(&broken, &dest, &src, shift));
    broken.decomp_level_count = DecompositionLevelCount(6);
    assert!(raw_parts_are_compatible(&broken, &dest, &src, shift));
    broken.data.pop();
    assert!(!raw_parts_are_compatible(&broken, &dest, &src, shift));
}
