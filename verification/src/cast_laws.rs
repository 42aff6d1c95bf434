//! What holds of a cast: with keys, noise and lookup tables whose errors
//! stay within the room that the encoding leaves, the cast of a ciphertext
//! of a message decrypts to the message under the destination key, in each
//! of the three cases of the shift.

use crate::key_switching_key::{CastFunction, KeySwitchingKey};
use crate::keyswitch_laws::{
    encrypts, keyswitch_error_bound, lemma_encryption_encrypts, lemma_keyswitch_keeps_the_message,
    lemma_phase_error, lwe_phase, phase_error,
};
use crate::lwe::{lwe_decryption, lwe_encryption, lwe_list_encryption};
use crate::lwe_keyswitch::keyswitch_plaintexts;
use crate::lwe_laws::lwe_list_noise;
use crate::random::NoiseDistribution;
use crate::shortint::{
    decoded, encoding_delta, is_cast_modulus, lemma_delta, log2_of, Ciphertext,
    MAX_FULL_MODULUS_LOG,
};
use crate::t_uniform::{lemma_t_uniform_sample_distance, TUniform};
use crate::torus::{
    congruent, lemma_congruent_reduce, lemma_congruent_trans, lemma_congruent_witness,
    lemma_signed_residue, modulus, signed_residue,
};
use vstd::arithmetic::div_mod::{lemma_fundamental_div_mod_converse, lemma_small_mod};
use vstd::arithmetic::power2::{lemma2_to64, lemma_pow2_adds, lemma_pow2_pos, pow2};
use vstd::prelude::*;

verus! {

/// Congruent residues are the same residue.
proof fn lemma_congruent_residues(x: int, y: int)
    requires
        congruent::<u64>(x, y),
        0 <= x < 0x1_0000_0000_0000_0000,
        0 <= y < 0x1_0000_0000_0000_0000,
    ensures
        x == y,
{
    lemma2_to64();
    let k = lemma_congruent_witness::<u64>(x, y);
    assert(k == 0) by (nonlinear_arith)
        requires
            x - y == 0x1_0000_0000_0000_0000 * k,
            -0x1_0000_0000_0000_0000 < x - y < 0x1_0000_0000_0000_0000,
    ;
}

/// A ciphertext that encrypts the encoding of a value with an error of
/// less than half of `delta` decrypts and decodes to the value.
pub proof fn lemma_decoded(
    key: Seq<u64>,
    ciphertext: Seq<u64>,
    value: int,
    full_modulus: int,
    bound: int,
)
    requires
        is_cast_modulus(full_modulus),
        0 <= value < 2 * full_modulus,
        encrypts::<u64>(key, ciphertext, value * encoding_delta(full_modulus), bound),
        2 * bound < encoding_delta(full_modulus),
    ensures
        decoded(lwe_decryption(key, ciphertext) as int, full_modulus) == value,
{
    let e = log2_of(full_modulus);
    lemma_delta(e);
    lemma2_to64();
    let delta = encoding_delta(full_modulus);
    let half = delta / 2;
    let x = lwe_decryption(key, ciphertext) as int;
    let error = phase_error(key, ciphertext, value * delta);
    let encoded = value * delta;
    lemma_phase_error(key, ciphertext, encoded);
    lemma_congruent_reduce::<u64>(lwe_phase(key, ciphertext));
    lemma_congruent_trans::<u64>(x, lwe_phase(key, ciphertext), encoded + error);
    assert(delta == 2 * half);
    assert(0 <= encoded && encoded + delta <= 0x1_0000_0000_0000_0000) by (nonlinear_arith)
        requires
            0 <= value < 2 * full_modulus,
            full_modulus * delta == 0x8000_0000_0000_0000,
            delta >= 2,
            encoded == value * delta,
    ;
    assert(2 * full_modulus * delta == 0x1_0000_0000_0000_0000) by (nonlinear_arith)
        requires
            full_modulus * delta == 0x8000_0000_0000_0000,
    ;
    if error >= 0 {
        lemma_congruent_residues(x, encoded + error);
        lemma_fundamental_div_mod_converse(x, delta, value, error);
        assert(x == half * (2 * value) + error) by (nonlinear_arith)
            requires
                x == value * delta + error,
                delta == 2 * half,
        ;
        lemma_fundamental_div_mod_converse(x, half, 2 * value, error);
        lemma_small_mod(value as nat, (2 * full_modulus) as nat);
    } else if value >= 1 {
        assert(encoded >= delta) by (nonlinear_arith)
            requires
                encoded == value * delta,
                value >= 1,
                delta >= 0,
        ;
        lemma_congruent_residues(x, encoded + error);
        assert(x == delta * (value - 1) + (delta + error) && x == half * (2 * (value - 1) + 1) + (
        half + error)) by (nonlinear_arith)
            requires
                x == value * delta + error,
                delta == 2 * half,
        ;
        lemma_fundamental_div_mod_converse(x, delta, value - 1, delta + error);
        lemma_fundamental_div_mod_converse(x, half, 2 * (value - 1) + 1, half + error);
        lemma_small_mod(value as nat, (2 * full_modulus) as nat);
    } else {
        let q = 0x1_0000_0000_0000_0000int;
        assert(encoded == 0) by (nonlinear_arith)
            requires
                encoded == value * delta,
                value == 0,
        ;
        crate::torus::lemma_congruent_by::<u64>(error + q, error, 1);
        lemma_congruent_trans::<u64>(error + q, error, error);
        lemma_congruent_trans::<u64>(x, error, error);
        lemma_congruent_trans::<u64>(error, error + q, error + q);
        lemma_congruent_trans::<u64>(x, error, error + q);
        lemma_congruent_residues(x, error + q);
        let top = 2 * full_modulus - 1;
        assert(x == delta * top + (delta + error) && x == half * (2 * top + 1) + (half + error))
            by (nonlinear_arith)
            requires
                x == error + q,
                2 * full_modulus * delta == q,
                delta == 2 * half,
                top == 2 * full_modulus - 1,
        ;
        lemma_fundamental_div_mod_converse(x, delta, top, delta + error);
        lemma_fundamental_div_mod_converse(x, half, 2 * top + 1, half + error);
        vstd::arithmetic::div_mod::lemma_mod_self_0(2 * full_modulus);
    }
}

/// The noises of a list of encryptions with TUniform(b) are at most `2^b`.
pub proof fn lemma_t_uniform_list_noise(
    noise_stream: Seq<u8>,
    distribution: TUniform<u64>,
    index: int,
)
    requires
        distribution.log2_bound() + 2 <= 64,
    ensures
        -pow2(distribution.log2_bound()) <= signed_residue(
            lwe_list_noise(noise_stream, distribution, index),
        ) <= pow2(distribution.log2_bound()),
{
    let bytes = noise_stream.skip(index * distribution.sample_bytes()).take(
        distribution.sample_bytes() as int,
    );
    lemma_t_uniform_sample_distance(distribution, bytes);
    lemma_signed_residue(lwe_list_noise(noise_stream, distribution, index));
}

/// A fresh encryption with noise of TUniform(b) encrypts its plaintext
/// with an error of at most `2^b`.
pub proof fn lemma_fresh_encryption(
    key: Seq<u64>,
    encoded: u64,
    mask_stream: Seq<u8>,
    noise_bytes: Seq<u8>,
    distribution: TUniform<u64>,
)
    requires
        distribution.log2_bound() + 2 <= 64,
    ensures
        encrypts::<u64>(
            key,
            lwe_encryption(key, encoded, mask_stream, distribution.sample(noise_bytes)),
            encoded as int,
            pow2(distribution.log2_bound()) as int,
        ),
{
    let noise = distribution.sample(noise_bytes);
    lemma_encryption_encrypts(key, encoded, mask_stream, noise);
    lemma_t_uniform_sample_distance(distribution, noise_bytes);
    lemma_signed_residue(noise);
}

/// A fresh encryption of the encoding of a value, with noise of TUniform(b)
/// below half of `delta`, decrypts and decodes to the value.
pub proof fn lemma_fresh_encryption_decodes(
    key: Seq<u64>,
    value: int,
    full_modulus: int,
    mask_stream: Seq<u8>,
    noise_bytes: Seq<u8>,
    distribution: TUniform<u64>,
)
    requires
        is_cast_modulus(full_modulus),
        0 <= value < full_modulus,
        distribution.log2_bound() + 2 <= 64,
        2 * pow2(distribution.log2_bound()) < encoding_delta(full_modulus),
    ensures
        decoded(
            lwe_decryption(
                key,
                lwe_encryption(
                    key,
                    (value * encoding_delta(full_modulus)) as u64,
                    mask_stream,
                    distribution.sample(noise_bytes),
                ),
            ) as int,
            full_modulus,
        ) == value,
{
    let delta = encoding_delta(full_modulus);
    lemma_delta(log2_of(full_modulus));
    assert(0 <= value * delta < 0x8000_0000_0000_0000) by (nonlinear_arith)
        requires
            0 <= value < full_modulus,
            full_modulus * delta == 0x8000_0000_0000_0000,
            delta >= 1,
    ;
    let encoded = (value * delta) as u64;
    lemma_fresh_encryption(key, encoded, mask_stream, noise_bytes, distribution);
    lemma_decoded(
        key,
        lwe_encryption(key, encoded, mask_stream, distribution.sample(noise_bytes)),
        value,
        full_modulus,
        pow2(distribution.log2_bound()) as int,
    );
}

/// `bridge` holds a keyswitch key from the binary key `source_key` to the
/// key `destination_key`, made from the two streams with noise of
/// TUniform(b).
pub open spec fn bridge_between(
    bridge: KeySwitchingKey,
    source_key: Seq<u64>,
    destination_key: Seq<u64>,
    mask_stream: Seq<u8>,
    noise_stream: Seq<u8>,
    distribution: TUniform<u64>,
) -> bool {
    &&& bridge.wf()
    &&& forall|i: int| 0 <= i < source_key.len() ==> source_key[i] == 0 || source_key[i] == 1
    &&& distribution.log2_bound() + 2 <= 64
    &&& bridge.key_switching_key.input_dimension() == source_key.len()
    &&& bridge.key_switching_key.output_lwe_size.0 == destination_key.len() + 1
    &&& bridge.key_switching_key@ == lwe_list_encryption(
        destination_key,
        keyswitch_plaintexts(
            source_key,
            bridge.key_switching_key.decomp_base_log.0 as nat,
            bridge.key_switching_key.decomp_level_count.0 as nat,
        ),
        mask_stream,
        noise_stream,
        distribution,
        (source_key.len() * (bridge.key_switching_key.decomp_level_count.0 as nat)) as int,
    )
}

/// The most that the keyswitch of `bridge` adds to the error of a
/// ciphertext.
pub open spec fn bridge_error_bound(bridge: KeySwitchingKey, distribution: TUniform<u64>) -> int {
    keyswitch_error_bound::<u64>(
        bridge.key_switching_key.input_dimension(),
        bridge.key_switching_key.decomp_base_log.0 as nat,
        bridge.key_switching_key.decomp_level_count.0 as nat,
        pow2(distribution.log2_bound()) as int,
    )
}

/// The keyswitch of a bridge keeps what a ciphertext encrypts, and adds at
/// most `bridge_error_bound` to its error.
pub proof fn lemma_bridge_keyswitch(
    bridge: KeySwitchingKey,
    source_key: Seq<u64>,
    destination_key: Seq<u64>,
    mask_stream: Seq<u8>,
    noise_stream: Seq<u8>,
    distribution: TUniform<u64>,
    input: Seq<u64>,
    value: int,
    input_bound: int,
)
    requires
        bridge_between(
            bridge,
            source_key,
            destination_key,
            mask_stream,
            noise_stream,
            distribution,
        ),
        input.len() == source_key.len() + 1,
        encrypts::<u64>(source_key, input, value, input_bound),
        2 * (input_bound + bridge_error_bound(bridge, distribution)) < 0x1_0000_0000_0000_0000,
    ensures
        encrypts::<u64>(
            destination_key,
            bridge.switched(input),
            value,
            input_bound + bridge_error_bound(bridge, distribution),
        ),
{
    lemma2_to64();
    lemma_pow2_pos(distribution.log2_bound());
    let base_log = bridge.key_switching_key.decomp_base_log.0 as nat;
    let level_count = bridge.key_switching_key.decomp_level_count.0 as nat;
    assert forall|index: int| 0 <= index < source_key.len() * level_count implies -pow2(
        distribution.log2_bound(),
    ) <= signed_residue(#[trigger] lwe_list_noise(noise_stream, distribution, index)) <= pow2(
        distribution.log2_bound(),
    ) by {
        lemma_t_uniform_list_noise(noise_stream, distribution, index);
    }
    lemma_keyswitch_keeps_the_message::<u64, TUniform<u64>>(
        source_key,
        destination_key,
        input,
        base_log,
        level_count,
        mask_stream,
        noise_stream,
        distribution,
        value,
        input_bound,
        pow2(distribution.log2_bound()) as int,
    );
}

/// `evaluate` evaluates lookup tables under the key `key` and the full
/// modulus `full_modulus`: for a ciphertext under the key, it gives a
/// ciphertext of the same size and modulus that encrypts, with an error of
/// at most `bound`, the encoding of the value of the table at what the
/// ciphertext decrypts and decodes to.
pub open spec fn evaluates_lookup_tables<F: Fn(&Ciphertext, CastFunction) -> Ciphertext>(
    evaluate: F,
    key: Seq<u64>,
    full_modulus: int,
    bound: int,
) -> bool {
    forall|ct: &Ciphertext, function: CastFunction, result: Ciphertext|
        #[trigger] call_ensures(evaluate, (ct, function), result) && ct.ct@.len() == key.len() + 1
            ==> {
            &&& result.ct@.len() == ct.ct@.len()
            &&& result.ct.ciphertext_modulus == ct.ct.ciphertext_modulus
            &&& encrypts::<u64>(
                key,
                result.ct@,
                function.value_at(
                    decoded(lwe_decryption(key, ct.ct@) as int, full_modulus) as u64,
                ) * encoding_delta(full_modulus),
                bound,
            )
        }
}

/// The room that a cast needs. The error of a ciphertext has to stay below
/// half of `delta` wherever the ciphertext is decoded: at the end of the
/// cast, under the destination, and before a lookup table is evaluated on
/// it, under the parameters of the table.
pub open spec fn cast_has_room(
    bridge: KeySwitchingKey,
    distribution: TUniform<u64>,
    input_bound: int,
    table_bound: int,
) -> bool {
    let src_delta = encoding_delta(bridge.src_server_key.full_modulus());
    let dest_delta = encoding_delta(bridge.dest_server_key.full_modulus());
    let switch_bound = bridge_error_bound(bridge, distribution);
    &&& 0 <= input_bound
    &&& 0 <= table_bound
    &&& bridge.cast_rshift == 0 ==> 2 * (input_bound + switch_bound) < dest_delta
    &&& bridge.cast_rshift > 0 ==> 2 * (input_bound + switch_bound) < dest_delta && 2
        * table_bound < dest_delta
    &&& bridge.cast_rshift < 0 ==> 2 * input_bound < src_delta && 2 * (table_bound
        + switch_bound) < dest_delta
}

/// The logarithms and the factors of the encoding of the two sides of a
/// bridge.
proof fn lemma_bridge_moduli(bridge: KeySwitchingKey)
    requires
        bridge.wf(),
    ensures
        bridge.src_server_key.full_modulus() == pow2(log2_of(bridge.src_server_key.full_modulus())),
        bridge.dest_server_key.full_modulus() == pow2(
            log2_of(bridge.dest_server_key.full_modulus()),
        ),
        log2_of(bridge.src_server_key.full_modulus()) <= MAX_FULL_MODULUS_LOG,
        log2_of(bridge.dest_server_key.full_modulus()) <= MAX_FULL_MODULUS_LOG,
        bridge.cast_rshift >= 0 ==> encoding_delta(bridge.src_server_key.full_modulus())
            == encoding_delta(bridge.dest_server_key.full_modulus()) * pow2(
            bridge.cast_rshift as nat,
        ) && bridge.dest_server_key.full_modulus() == bridge.src_server_key.full_modulus()
            * pow2(bridge.cast_rshift as nat),
        bridge.cast_rshift <= 0 ==> encoding_delta(bridge.dest_server_key.full_modulus())
            == encoding_delta(bridge.src_server_key.full_modulus()) * pow2(
            (-bridge.cast_rshift) as nat,
        ) && bridge.src_server_key.full_modulus() == bridge.dest_server_key.full_modulus()
            * pow2((-bridge.cast_rshift) as nat),
        encoding_delta(bridge.dest_server_key.full_modulus()) <= 0x8000_0000_0000_0000,
        encoding_delta(bridge.src_server_key.full_modulus()) <= 0x8000_0000_0000_0000,
        1 <= bridge.src_server_key.full_modulus() <= 0x4000_0000_0000_0000,
        1 <= bridge.dest_server_key.full_modulus() <= 0x4000_0000_0000_0000,
{
    let e1 = log2_of(bridge.src_server_key.full_modulus());
    let e2 = log2_of(bridge.dest_server_key.full_modulus());
    lemma_delta(e1);
    lemma_delta(e2);
    lemma2_to64();
    vstd::arithmetic::power2::lemma2_to64_rest();
    lemma_pow2_pos((63 - e1) as nat);
    lemma_pow2_pos((63 - e2) as nat);
    if 63 - e1 < 63 {
        vstd::arithmetic::power2::lemma_pow2_strictly_increases((63 - e1) as nat, 63);
    }
    if 63 - e2 < 63 {
        vstd::arithmetic::power2::lemma_pow2_strictly_increases((63 - e2) as nat, 63);
    }
    if e2 >= e1 {
        lemma_pow2_adds((63 - e2) as nat, (e2 - e1) as nat);
        lemma_pow2_adds(e1, (e2 - e1) as nat);
    }
    if e1 >= e2 {
        lemma_pow2_adds((63 - e1) as nat, (e1 - e2) as nat);
        lemma_pow2_adds(e2, (e1 - e2) as nat);
    }
}

/// A cast keeps the message. Where a bridge holds a keyswitch key from a
/// binary source key, made with noise of TUniform(b), and where the lookup
/// tables are evaluated with an error of at most `table_bound`, the cast of
/// a ciphertext that encrypts the encoding of `message` with an error of at
/// most `input_bound` decrypts and decodes to `message` under the
/// destination key, for every message that both full moduli hold and in
/// each case of the shift, as long as the cast has room.
pub proof fn lemma_cast_keeps_the_message<FS, FD>(
    bridge: KeySwitchingKey,
    source_key: Seq<u64>,
    destination_key: Seq<u64>,
    mask_stream: Seq<u8>,
    noise_stream: Seq<u8>,
    distribution: TUniform<u64>,
    ct: Ciphertext,
    before: Ciphertext,
    evaluate_src: FS,
    evaluate_dest: FD,
    after: Ciphertext,
    message: int,
    input_bound: int,
    table_bound: int,
) where
    FS: Fn(&Ciphertext, CastFunction) -> Ciphertext,
    FD: Fn(&Ciphertext, CastFunction) -> Ciphertext,

    requires
        bridge_between(
            bridge,
            source_key,
            destination_key,
            mask_stream,
            noise_stream,
            distribution,
        ),
        bridge.accepts(&ct),
        0 <= message < bridge.src_server_key.full_modulus(),
        message < bridge.dest_server_key.full_modulus(),
        encrypts::<u64>(
            source_key,
            ct.ct@,
            message * encoding_delta(bridge.src_server_key.full_modulus()),
            input_bound,
        ),
        cast_has_room(bridge, distribution, input_bound, table_bound),
        bridge.cast_rshift > 0 ==> evaluates_lookup_tables(
            evaluate_dest,
            destination_key,
            bridge.dest_server_key.full_modulus(),
            table_bound,
        ),
        bridge.cast_rshift < 0 ==> evaluates_lookup_tables(
            evaluate_src,
            source_key,
            bridge.src_server_key.full_modulus(),
            table_bound,
        ),
        bridge.cast_outcome(&ct, before, evaluate_src, evaluate_dest, after),
    ensures
        decoded(
            lwe_decryption(destination_key, after.ct@) as int,
            bridge.dest_server_key.full_modulus(),
        ) == message,
{
    let src_full = bridge.src_server_key.full_modulus();
    let dest_full = bridge.dest_server_key.full_modulus();
    let src_delta = encoding_delta(src_full);
    let dest_delta = encoding_delta(dest_full);
    let switch_bound = bridge_error_bound(bridge, distribution);
    lemma_bridge_moduli(bridge);
    lemma2_to64();
    if bridge.cast_rshift == 0 {
        assert(pow2(0) == 1);
        assert(dest_delta * 1 == dest_delta && src_full * 1 == src_full) by (nonlinear_arith);
        lemma_bridge_keyswitch(
            bridge,
            source_key,
            destination_key,
            mask_stream,
            noise_stream,
            distribution,
            ct.ct@,
            message * src_delta,
            input_bound,
        );
        lemma_decoded(destination_key, after.ct@, message, dest_full, input_bound + switch_bound);
    } else if bridge.cast_rshift > 0 {
        let shift = pow2(bridge.cast_rshift as nat) as int;
        lemma_pow2_pos(bridge.cast_rshift as nat);
        let switched = choose|switched: &Ciphertext|
            {
                &&& switched.ct@ == bridge.switched(ct.ct@)
                &&& crate::key_switching_key::same_tags(*switched, before)
                &&& #[trigger] call_ensures(
                    evaluate_dest,
                    (switched, bridge.dest_function()),
                    after,
                )
            };
        lemma_bridge_keyswitch(
            bridge,
            source_key,
            destination_key,
            mask_stream,
            noise_stream,
            distribution,
            ct.ct@,
            message * src_delta,
            input_bound,
        );
        let wide = message * shift;
        assert(message * src_delta == wide * dest_delta && 0 <= wide && wide < dest_full)
            by (nonlinear_arith)
            requires
                src_delta == dest_delta * shift,
                dest_full == src_full * shift,
                0 <= message < src_full,
                shift > 0,
                wide == message * shift,
        ;
        lemma_decoded(destination_key, switched.ct@, wide, dest_full, input_bound + switch_bound);
        vstd::arithmetic::div_mod::lemma_div_by_multiple(message, shift);
        assert(bridge.dest_function().value_at(wide as u64) == message);
        lemma_decoded(destination_key, after.ct@, message, dest_full, table_bound);
    } else {
        let shift = pow2((-bridge.cast_rshift) as nat) as int;
        lemma_pow2_pos((-bridge.cast_rshift) as nat);
        let shifted = choose|shifted: Ciphertext|
            {
                &&& #[trigger] call_ensures(evaluate_src, (&ct, bridge.src_function()), shifted)
                &&& crate::key_switching_key::same_tags(after, before)
                &&& if shifted.ct@.len() == ct.ct@.len() && shifted.ct.ciphertext_modulus
                    == ct.ct.ciphertext_modulus {
                    after.ct@ == bridge.switched(shifted.ct@)
                } else {
                    after.ct@ == before.ct@
                }
            };
        lemma_decoded(source_key, ct.ct@, message, src_full, input_bound);
        let wide = message * shift;
        assert(wide * src_delta == message * dest_delta && 0 <= wide && wide < src_full)
            by (nonlinear_arith)
            requires
                dest_delta == src_delta * shift,
                src_full == dest_full * shift,
                0 <= message < dest_full,
                shift > 0,
                wide == message * shift,
        ;
        lemma_small_mod(wide as nat, src_full as nat);
        assert(bridge.src_function().value_at(message as u64) == wide);
        lemma_bridge_keyswitch(
            bridge,
            source_key,
            destination_key,
            mask_stream,
            noise_stream,
            distribution,
            shifted.ct@,
            message * dest_delta,
            table_bound,
        );
        lemma_decoded(destination_key, after.ct@, message, dest_full, table_bound + switch_bound);
    }
}

} // verus!
