//! What holds of the keyswitch: the switched ciphertext decrypts, under the
//! output key, to what the input decrypts to under the input key, up to
//! the rounding of the decomposition and the noise of the keyswitch key.

use crate::decomposition::{
    decomposition_digit, decomposition_fits, digits_value, lemma_digits_recompose, lemma_next_state,
    low_digit, rounded_state, state_after,
};
use crate::lwe::{dot_product, lwe_decryption, lwe_encryption, lwe_list_encryption, lwe_mask_bytes};
use crate::lwe_keyswitch::{keyswitch_plaintexts, keyswitch_sum, keyswitched};
use crate::lwe_laws::{
    lemma_lwe_decryption_of_encryption, lemma_lwe_list_encryption_is_chunkwise,
    lemma_lwe_list_encryption_len, lwe_list_noise,
};
use crate::random::NoiseDistribution;
use crate::torus::{
    congruent, lemma_congruent_add, lemma_congruent_mul, lemma_congruent_of_reduce,
    lemma_congruent_reduce, lemma_congruent_refl, lemma_congruent_trans, lemma_modulus,
    lemma_signed_residue, modulus, reduce, signed_residue, UnsignedTorus,
};
use vstd::arithmetic::div_mod::{lemma_fundamental_div_mod, lemma_fundamental_div_mod_converse};
use vstd::arithmetic::power2::{lemma_pow2_adds, lemma_pow2_pos, lemma_pow2_unfold, pow2};
use vstd::prelude::*;

verus! {

/// The body of a ciphertext minus `<mask, key>`, as an integer that is yet
/// to be reduced modulo `q`: the decryption is its scalar.
pub open spec fn lwe_phase<T: UnsignedTorus>(key: Seq<T>, ciphertext: Seq<T>) -> int {
    ciphertext[key.len() as int].value() - dot_product(ciphertext, key, key.len() as int)
}

/// The digit that the keyswitch multiplies ciphertext `index` of the
/// keyswitch key by: that of the level `index % level_count + 1` of the
/// scalar `index / level_count` of the input mask.
pub open spec fn keyswitch_digit<T: UnsignedTorus>(
    input: Seq<T>,
    base_log: nat,
    level_count: nat,
    index: int,
) -> int {
    decomposition_digit::<T>(
        input[index / (level_count as int)].value(),
        base_log,
        level_count,
        (index % (level_count as int) + 1) as nat,
    )
}

/// Ciphertext `index` of a keyswitch key of ciphertexts of `size` scalars.
pub open spec fn key_ciphertext<T>(keyswitch_key: Seq<T>, size: int, index: int) -> Seq<T> {
    keyswitch_key.subrange(index * size, index * size + size)
}

/// The sum over the first `m` scalars `j` of the output of what the first
/// `count` ciphertexts of the keyswitch key take from it, times scalar `j`
/// of the output key.
pub open spec fn column_sum<T: UnsignedTorus>(
    keyswitch_key: Seq<T>,
    input: Seq<T>,
    base_log: nat,
    level_count: nat,
    key: Seq<T>,
    count: int,
    m: int,
) -> int
    decreases m,
{
    if m <= 0 {
        0
    } else {
        column_sum(keyswitch_key, input, base_log, level_count, key, count, m - 1) + keyswitch_sum(
            keyswitch_key,
            input,
            base_log,
            level_count,
            key.len() as int + 1,
            m - 1,
            count,
        ) * key[m - 1].value()
    }
}

/// The sum over the first `count` ciphertexts of the keyswitch key of
/// their digit times the product of their first `m` scalars with the
/// output key.
pub open spec fn row_sum<T: UnsignedTorus>(
    keyswitch_key: Seq<T>,
    input: Seq<T>,
    base_log: nat,
    level_count: nat,
    key: Seq<T>,
    count: int,
    m: int,
) -> int
    decreases count,
{
    if count <= 0 {
        0
    } else {
        row_sum(keyswitch_key, input, base_log, level_count, key, count - 1, m) + keyswitch_digit(
            input,
            base_log,
            level_count,
            count - 1,
        ) * dot_product(key_ciphertext(keyswitch_key, key.len() as int + 1, count - 1), key, m)
    }
}

/// The sum over the first `count` ciphertexts of the keyswitch key of
/// their digit times their phase under the output key.
pub open spec fn weighted_phase_sum<T: UnsignedTorus>(
    keyswitch_key: Seq<T>,
    input: Seq<T>,
    base_log: nat,
    level_count: nat,
    key: Seq<T>,
    count: int,
) -> int
    decreases count,
{
    if count <= 0 {
        0
    } else {
        weighted_phase_sum(keyswitch_key, input, base_log, level_count, key, count - 1)
            + keyswitch_digit(input, base_log, level_count, count - 1) * lwe_phase(
            key,
            key_ciphertext(keyswitch_key, key.len() as int + 1, count - 1),
        )
    }
}

/// Ciphertext `index` of `count` lies inside the keyswitch key.
proof fn lemma_key_ciphertext_bounds(count: int, size: int, index: int)
    requires
        0 <= index < count,
        0 <= size,
    ensures
        0 <= index * size,
        index * size + size <= count * size,
{
    assert(0 <= index * size && index * size + size <= count * size) by (nonlinear_arith)
        requires
            0 <= index < count,
            0 <= size,
    ;
}

proof fn lemma_column_step<T: UnsignedTorus>(
    keyswitch_key: Seq<T>,
    input: Seq<T>,
    base_log: nat,
    level_count: nat,
    key: Seq<T>,
    count: int,
    m: int,
)
    requires
        count >= 1,
        0 <= m <= key.len() + 1,
        keyswitch_key.len() >= count * (key.len() + 1),
    ensures
        column_sum(keyswitch_key, input, base_log, level_count, key, count, m) == column_sum(
            keyswitch_key,
            input,
            base_log,
            level_count,
            key,
            count - 1,
            m,
        ) + keyswitch_digit(input, base_log, level_count, count - 1) * dot_product(
            key_ciphertext(keyswitch_key, key.len() as int + 1, count - 1),
            key,
            m,
        ),
    decreases m,
{
    if m > 0 {
        lemma_column_step(keyswitch_key, input, base_log, level_count, key, count, m - 1);
        let size = key.len() as int + 1;
        lemma_key_ciphertext_bounds(count, size, count - 1);
        let row = key_ciphertext(keyswitch_key, size, count - 1);
        let d = keyswitch_digit(input, base_log, level_count, count - 1);
        let s = key[m - 1].value();
        let k = keyswitch_key[(count - 1) * size + (m - 1)].value();
        assert(row[m - 1] == keyswitch_key[(count - 1) * size + (m - 1)]);
        let before = keyswitch_sum(
            keyswitch_key,
            input,
            base_log,
            level_count,
            size,
            m - 1,
            count - 1,
        );
        let x = dot_product(row, key, m - 1);
        assert((before + d * k) * s + d * x == before * s + d * (x + k * s)) by (nonlinear_arith);
    }
}

proof fn lemma_column_of_nothing<T: UnsignedTorus>(
    keyswitch_key: Seq<T>,
    input: Seq<T>,
    base_log: nat,
    level_count: nat,
    key: Seq<T>,
    m: int,
)
    ensures
        column_sum(keyswitch_key, input, base_log, level_count, key, 0, m) == 0,
    decreases m,
{
    if m > 0 {
        lemma_column_of_nothing(keyswitch_key, input, base_log, level_count, key, m - 1);
        let s = key[m - 1].value();
        assert(0 * s == 0) by (nonlinear_arith);
    }
}

proof fn lemma_column_is_row<T: UnsignedTorus>(
    keyswitch_key: Seq<T>,
    input: Seq<T>,
    base_log: nat,
    level_count: nat,
    key: Seq<T>,
    count: int,
    m: int,
)
    requires
        count >= 0,
        0 <= m <= key.len() + 1,
        keyswitch_key.len() >= count * (key.len() + 1),
    ensures
        column_sum(keyswitch_key, input, base_log, level_count, key, count, m) == row_sum(
            keyswitch_key,
            input,
            base_log,
            level_count,
            key,
            count,
            m,
        ),
    decreases count,
{
    if count == 0 {
        lemma_column_of_nothing(keyswitch_key, input, base_log, level_count, key, m);
    } else {
        assert((count - 1) * (key.len() + 1) <= count * (key.len() + 1)) by (nonlinear_arith);
        lemma_column_is_row(keyswitch_key, input, base_log, level_count, key, count - 1, m);
        lemma_column_step(keyswitch_key, input, base_log, level_count, key, count, m);
    }
}

proof fn lemma_phase_sum_split<T: UnsignedTorus>(
    keyswitch_key: Seq<T>,
    input: Seq<T>,
    base_log: nat,
    level_count: nat,
    key: Seq<T>,
    count: int,
)
    requires
        count >= 0,
        keyswitch_key.len() >= count * (key.len() + 1),
    ensures
        weighted_phase_sum(keyswitch_key, input, base_log, level_count, key, count)
            == keyswitch_sum(
            keyswitch_key,
            input,
            base_log,
            level_count,
            key.len() as int + 1,
            key.len() as int,
            count,
        ) - row_sum(keyswitch_key, input, base_log, level_count, key, count, key.len() as int),
    decreases count,
{
    if count > 0 {
        let size = key.len() as int + 1;
        assert((count - 1) * size <= count * size) by (nonlinear_arith)
            requires
                size >= 0,
        ;
        lemma_phase_sum_split(keyswitch_key, input, base_log, level_count, key, count - 1);
        lemma_key_ciphertext_bounds(count, size, count - 1);
        let row = key_ciphertext(keyswitch_key, size, count - 1);
        let d = keyswitch_digit(input, base_log, level_count, count - 1);
        let k = keyswitch_key[(count - 1) * size + key.len()].value();
        assert(row[key.len() as int] == keyswitch_key[(count - 1) * size + key.len()]);
        let x = dot_product(row, key, key.len() as int);
        assert(d * (k - x) == d * k - d * x) by (nonlinear_arith);
    }
}

proof fn lemma_dot_of_switched<T: UnsignedTorus>(
    keyswitch_key: Seq<T>,
    input: Seq<T>,
    base_log: nat,
    level_count: nat,
    key: Seq<T>,
    m: int,
)
    requires
        0 <= m <= key.len(),
        input.len() >= 1,
    ensures
        congruent::<T>(
            dot_product(
                keyswitched(keyswitch_key, base_log, level_count, key.len() as int + 1, input),
                key,
                m,
            ),
            -column_sum(
                keyswitch_key,
                input,
                base_log,
                level_count,
                key,
                (input.len() - 1) * level_count,
                m,
            ),
        ),
    decreases m,
{
    let size = key.len() as int + 1;
    let count = (input.len() - 1) * level_count;
    let out = keyswitched(keyswitch_key, base_log, level_count, size, input);
    if m == 0 {
        lemma_congruent_refl::<T>(0);
    } else {
        lemma_dot_of_switched(keyswitch_key, input, base_log, level_count, key, m - 1);
        let a = keyswitch_sum(keyswitch_key, input, base_log, level_count, size, m - 1, count);
        let s = key[m - 1].value();
        assert(out[m - 1] == reduce::<T>(0 - a));
        lemma_congruent_reduce::<T>(0 - a);
        lemma_congruent_mul::<T>(out[m - 1].value(), 0 - a, s);
        lemma_congruent_add::<T>(
            dot_product(out, key, m - 1),
            -column_sum(keyswitch_key, input, base_log, level_count, key, count, m - 1),
            out[m - 1].value() * s,
            (0 - a) * s,
        );
        assert((0 - a) * s == -(a * s)) by (nonlinear_arith);
    }
}

/// The phase of the switched ciphertext under the output key is the body
/// of the input minus, for each ciphertext of the keyswitch key, its digit
/// times its phase.
pub proof fn lemma_phase_of_switched<T: UnsignedTorus>(
    keyswitch_key: Seq<T>,
    input: Seq<T>,
    base_log: nat,
    level_count: nat,
    key: Seq<T>,
)
    requires
        input.len() >= 1,
        keyswitch_key.len() >= (input.len() - 1) * level_count * (key.len() + 1),
    ensures
        congruent::<T>(
            lwe_phase(
                key,
                keyswitched(keyswitch_key, base_log, level_count, key.len() as int + 1, input),
            ),
            input[input.len() - 1].value() - weighted_phase_sum(
                keyswitch_key,
                input,
                base_log,
                level_count,
                key,
                (input.len() - 1) * level_count,
            ),
        ),
{
    let size = key.len() as int + 1;
    let n = key.len() as int;
    let count = (input.len() - 1) * level_count;
    let out = keyswitched(keyswitch_key, base_log, level_count, size, input);
    let body = input[input.len() - 1].value();
    let a = keyswitch_sum(keyswitch_key, input, base_log, level_count, size, n, count);
    assert(count >= 0) by (nonlinear_arith)
        requires
            count == (input.len() - 1) * level_count,
            input.len() >= 1,
    ;
    lemma_dot_of_switched(keyswitch_key, input, base_log, level_count, key, n);
    lemma_column_is_row(keyswitch_key, input, base_log, level_count, key, count, n);
    lemma_phase_sum_split(keyswitch_key, input, base_log, level_count, key, count);
    assert(out[n] == reduce::<T>(body - a));
    lemma_congruent_reduce::<T>(body - a);
    lemma_congruent_add::<T>(
        out[n].value(),
        body - a,
        dot_product(out, key, n),
        -column_sum(keyswitch_key, input, base_log, level_count, key, count, n),
    );
}

/// The weight of the level `level` of a decomposition: `2^(W - level *
/// base_log)`.
pub open spec fn level_weight<T: UnsignedTorus>(base_log: nat, level: int) -> int {
    pow2((T::bits() - base_log * level) as nat) as int
}

/// The sum over the first `count` ciphertexts of the keyswitch key of
/// their digit times what they encrypt: the scalar of the input key times
/// the weight of the level.
pub open spec fn signal_sum<T: UnsignedTorus>(
    input_key: Seq<T>,
    input: Seq<T>,
    base_log: nat,
    level_count: nat,
    count: int,
) -> int
    decreases count,
{
    if count <= 0 {
        0
    } else {
        signal_sum(input_key, input, base_log, level_count, count - 1) + keyswitch_digit(
            input,
            base_log,
            level_count,
            count - 1,
        ) * (input_key[(count - 1) / (level_count as int)].value() * level_weight::<T>(
            base_log,
            (count - 1) % (level_count as int) + 1,
        ))
    }
}

/// The sum over the first `count` ciphertexts of the keyswitch key of
/// their digit times their noise.
pub open spec fn noise_sum<T: UnsignedTorus, D: NoiseDistribution<T>>(
    input: Seq<T>,
    base_log: nat,
    level_count: nat,
    noise_stream: Seq<u8>,
    distribution: D,
    count: int,
) -> int
    decreases count,
{
    if count <= 0 {
        0
    } else {
        noise_sum(input, base_log, level_count, noise_stream, distribution, count - 1)
            + keyswitch_digit(input, base_log, level_count, count - 1) * signed_residue(
            lwe_list_noise(noise_stream, distribution, count - 1),
        )
    }
}

/// A ciphertext of a keyswitch key has the phase of what it encrypts plus
/// its noise.
proof fn lemma_key_ciphertext_phase<T: UnsignedTorus, D: NoiseDistribution<T>>(
    input_key: Seq<T>,
    output_key: Seq<T>,
    base_log: nat,
    level_count: nat,
    mask_stream: Seq<u8>,
    noise_stream: Seq<u8>,
    distribution: D,
    index: int,
)
    requires
        level_count >= 1,
        0 <= index < input_key.len() * level_count,
    ensures
        congruent::<T>(
            lwe_phase(
                output_key,
                key_ciphertext(
                    lwe_list_encryption(
                        output_key,
                        keyswitch_plaintexts(input_key, base_log, level_count),
                        mask_stream,
                        noise_stream,
                        distribution,
                        (input_key.len() * level_count) as int,
                    ),
                    output_key.len() as int + 1,
                    index,
                ),
            ),
            input_key[index / (level_count as int)].value() * level_weight::<T>(
                base_log,
                index % (level_count as int) + 1,
            ) + signed_residue(lwe_list_noise(noise_stream, distribution, index)),
        ),
{
    let count = (input_key.len() * level_count) as int;
    let plaintexts = keyswitch_plaintexts(input_key, base_log, level_count);
    let whole = lwe_list_encryption(
        output_key,
        plaintexts,
        mask_stream,
        noise_stream,
        distribution,
        count,
    );
    let row = key_ciphertext(whole, output_key.len() as int + 1, index);
    let noise = lwe_list_noise(noise_stream, distribution, index);
    let plaintext = plaintexts[index];
    let signal = input_key[index / (level_count as int)].value() * level_weight::<T>(
        base_log,
        index % (level_count as int) + 1,
    );
    lemma_lwe_list_encryption_is_chunkwise(
        output_key,
        plaintexts,
        mask_stream,
        noise_stream,
        distribution,
        count,
        index,
    );
    lemma_lwe_decryption_of_encryption(
        output_key,
        plaintext,
        mask_stream.skip(index * lwe_mask_bytes(output_key)),
        noise,
    );
    assert(lwe_decryption(output_key, row) == reduce::<T>(lwe_phase(output_key, row)));
    lemma_congruent_of_reduce::<T>(
        lwe_phase(output_key, row),
        plaintext.value() + noise.value(),
    );
    assert(plaintext == reduce::<T>(signal));
    lemma_congruent_reduce::<T>(signal);
    lemma_signed_residue(noise);
    lemma_congruent_add::<T>(plaintext.value(), signal, noise.value(), signed_residue(noise));
    lemma_congruent_trans::<T>(
        lwe_phase(output_key, row),
        plaintext.value() + noise.value(),
        signal + signed_residue(noise),
    );
}

/// The weighted phases of the ciphertexts of a keyswitch key are the
/// weighted signals plus the weighted noises.
proof fn lemma_phase_sum_is_signal_and_noise<T: UnsignedTorus, D: NoiseDistribution<T>>(
    input_key: Seq<T>,
    output_key: Seq<T>,
    input: Seq<T>,
    base_log: nat,
    level_count: nat,
    mask_stream: Seq<u8>,
    noise_stream: Seq<u8>,
    distribution: D,
    count: int,
)
    requires
        level_count >= 1,
        0 <= count <= input_key.len() * level_count,
    ensures
        congruent::<T>(
            weighted_phase_sum(
                lwe_list_encryption(
                    output_key,
                    keyswitch_plaintexts(input_key, base_log, level_count),
                    mask_stream,
                    noise_stream,
                    distribution,
                    (input_key.len() * level_count) as int,
                ),
                input,
                base_log,
                level_count,
                output_key,
                count,
            ),
            signal_sum(input_key, input, base_log, level_count, count) + noise_sum(
                input,
                base_log,
                level_count,
                noise_stream,
                distribution,
                count,
            ),
        ),
    decreases count,
{
    let whole = lwe_list_encryption(
        output_key,
        keyswitch_plaintexts(input_key, base_log, level_count),
        mask_stream,
        noise_stream,
        distribution,
        (input_key.len() * level_count) as int,
    );
    if count == 0 {
        lemma_congruent_refl::<T>(0);
    } else {
        lemma_phase_sum_is_signal_and_noise(
            input_key,
            output_key,
            input,
            base_log,
            level_count,
            mask_stream,
            noise_stream,
            distribution,
            count - 1,
        );
        lemma_key_ciphertext_phase(
            input_key,
            output_key,
            base_log,
            level_count,
            mask_stream,
            noise_stream,
            distribution,
            count - 1,
        );
        let d = keyswitch_digit(input, base_log, level_count, count - 1);
        let phase = lwe_phase(
            output_key,
            key_ciphertext(whole, output_key.len() as int + 1, count - 1),
        );
        let signal = input_key[(count - 1) / (level_count as int)].value() * level_weight::<T>(
            base_log,
            (count - 1) % (level_count as int) + 1,
        );
        let noise = signed_residue(lwe_list_noise(noise_stream, distribution, count - 1));
        lemma_congruent_mul::<T>(phase, signal + noise, d);
        assert(d * (signal + noise) == d * signal + d * noise) by (nonlinear_arith);
        lemma_congruent_add::<T>(
            weighted_phase_sum(whole, input, base_log, level_count, output_key, count - 1),
            signal_sum(input_key, input, base_log, level_count, count - 1) + noise_sum(
                input,
                base_log,
                level_count,
                noise_stream,
                distribution,
                count - 1,
            ),
            d * phase,
            d * signal + d * noise,
        );
    }
}

/// The number of least significant bits of a scalar that a decomposition
/// leaves out.
pub open spec fn dropped_bits<T: UnsignedTorus>(base_log: nat, level_count: nat) -> nat {
    (T::bits() - base_log * level_count) as nat
}

/// What the rounding of a decomposition takes from the scalar of residue
/// `x`: `x` minus the number that the digits stand for.
pub open spec fn rounding_error<T: UnsignedTorus>(x: int, base_log: nat, level_count: nat) -> int {
    x - pow2(dropped_bits::<T>(base_log, level_count)) * rounded_state(
        x,
        dropped_bits::<T>(base_log, level_count),
    )
}

/// The number that the digits of the levels 1 to `upto` of the scalar of
/// residue `x` stand for.
pub open spec fn gadget_head<T: UnsignedTorus>(
    x: int,
    base_log: nat,
    level_count: nat,
    upto: int,
) -> int
    decreases upto,
{
    if upto <= 0 {
        0
    } else {
        gadget_head::<T>(x, base_log, level_count, upto - 1) + decomposition_digit::<T>(
            x,
            base_log,
            level_count,
            upto as nat,
        ) * level_weight::<T>(base_log, upto)
    }
}

/// The number that the digits of the `taken` least significant levels of
/// the scalar of residue `x` stand for.
pub open spec fn gadget_tail<T: UnsignedTorus>(
    x: int,
    base_log: nat,
    level_count: nat,
    taken: int,
) -> int
    decreases taken,
{
    if taken <= 0 {
        0
    } else {
        gadget_tail::<T>(x, base_log, level_count, taken - 1) + decomposition_digit::<T>(
            x,
            base_log,
            level_count,
            (level_count - taken + 1) as nat,
        ) * level_weight::<T>(base_log, level_count - taken + 1)
    }
}

proof fn lemma_head_and_tail<T: UnsignedTorus>(x: int, base_log: nat, level_count: nat, upto: int)
    requires
        0 <= upto <= level_count,
    ensures
        gadget_head::<T>(x, base_log, level_count, upto) + gadget_tail::<T>(
            x,
            base_log,
            level_count,
            level_count - upto,
        ) == gadget_tail::<T>(x, base_log, level_count, level_count as int),
    decreases upto,
{
    if upto > 0 {
        lemma_head_and_tail::<T>(x, base_log, level_count, upto - 1);
        assert(level_count - (level_count - upto + 1) + 1 == upto);
    }
}

proof fn lemma_tail_is_digits<T: UnsignedTorus>(x: int, base_log: nat, level_count: nat, taken: int)
    requires
        decomposition_fits::<T>(base_log, level_count),
        0 <= taken <= level_count,
    ensures
        gadget_tail::<T>(x, base_log, level_count, taken) == pow2(
            dropped_bits::<T>(base_log, level_count),
        ) * digits_value(
            rounded_state(x, dropped_bits::<T>(base_log, level_count)),
            base_log,
            taken as nat,
        ),
    decreases taken,
{
    let r = dropped_bits::<T>(base_log, level_count);
    let start = rounded_state(x, r);
    if taken > 0 {
        lemma_tail_is_digits::<T>(x, base_log, level_count, taken - 1);
        let level = level_count - taken + 1;
        let digit = low_digit(state_after(start, base_log, (taken - 1) as nat), base_log);
        assert(decomposition_digit::<T>(x, base_log, level_count, level as nat) == digit);
        assert(base_log * (taken - 1) >= 0 && T::bits() - base_log * level == r + base_log * (
        taken - 1)) by (nonlinear_arith)
            requires
                level == level_count - taken + 1,
                r == T::bits() - base_log * level_count,
                taken >= 1,
        ;
        lemma_pow2_adds(r, base_log * (taken - 1) as nat);
        let w = pow2(base_log * (taken - 1) as nat) as int;
        let unit = pow2(r) as int;
        let before = digits_value(start, base_log, (taken - 1) as nat);
        assert(unit * before + digit * (unit * w) == unit * (before + digit * w))
            by (nonlinear_arith);
    } else {
        assert(pow2(r) * 0 == 0) by (nonlinear_arith);
    }
}

/// The digits of a scalar stand for the scalar rounded to the bits that
/// the decomposition keeps.
pub proof fn lemma_gadget_is_rounded<T: UnsignedTorus>(x: int, base_log: nat, level_count: nat)
    requires
        decomposition_fits::<T>(base_log, level_count),
    ensures
        congruent::<T>(
            gadget_head::<T>(x, base_log, level_count, level_count as int),
            x - rounding_error::<T>(x, base_log, level_count),
        ),
{
    let r = dropped_bits::<T>(base_log, level_count);
    let start = rounded_state(x, r);
    let unit = pow2(r) as int;
    lemma_head_and_tail::<T>(x, base_log, level_count, level_count as int);
    lemma_tail_is_digits::<T>(x, base_log, level_count, level_count as int);
    lemma_digits_recompose(start, base_log, level_count);
    lemma_pow2_adds(r, base_log * level_count);
    let rest = state_after(start, base_log, level_count);
    let digits = digits_value(start, base_log, level_count);
    let kept = pow2(base_log * level_count) as int;
    assert(unit * digits - unit * start == modulus::<T>() * (-rest)) by (nonlinear_arith)
        requires
            start == digits + kept * rest,
            unit * kept == modulus::<T>(),
    ;
    crate::torus::lemma_congruent_by::<T>(unit * digits, unit * start, -rest);
}

/// The rounding of a decomposition moves a scalar by at most half of the
/// least significant bit that is kept.
pub proof fn lemma_rounding_error_bound<T: UnsignedTorus>(x: int, base_log: nat, level_count: nat)
    requires
        decomposition_fits::<T>(base_log, level_count),
    ensures
        -pow2((dropped_bits::<T>(base_log, level_count) - 1) as nat) <= rounding_error::<T>(
            x,
            base_log,
            level_count,
        ) <= pow2((dropped_bits::<T>(base_log, level_count) - 1) as nat),
{
    let r = dropped_bits::<T>(base_log, level_count);
    let unit = pow2(r) as int;
    let half = pow2((r - 1) as nat) as int;
    lemma_pow2_pos(r);
    lemma_pow2_pos((r - 1) as nat);
    lemma_pow2_unfold(r);
    lemma_fundamental_div_mod(x, unit);
    vstd::arithmetic::div_mod::lemma_mod_bound(x, unit);
    let hi = x / unit;
    let lo = x % unit;
    let bit = if lo >= half {
        1int
    } else {
        0int
    };
    assert(x == half * (2 * hi + bit) + (lo - bit * half)) by (nonlinear_arith)
        requires
            x == unit * hi + lo,
            unit == 2 * half,
    ;
    lemma_fundamental_div_mod_converse(x, half, 2 * hi + bit, lo - bit * half);
    assert(unit * (hi + bit) == unit * hi + bit * unit) by (nonlinear_arith);
}

/// Within the ciphertexts of one scalar of the input key, the weighted
/// signals add up to the scalar times the number that its digits stand
/// for.
proof fn lemma_signal_block<T: UnsignedTorus>(
    input_key: Seq<T>,
    input: Seq<T>,
    base_log: nat,
    level_count: nat,
    i: int,
    upto: int,
)
    requires
        level_count >= 1,
        0 <= i,
        0 <= upto <= level_count,
    ensures
        signal_sum(input_key, input, base_log, level_count, i * level_count + upto) == signal_sum(
            input_key,
            input,
            base_log,
            level_count,
            i * level_count,
        ) + input_key[i].value() * gadget_head::<T>(
            input[i].value(),
            base_log,
            level_count,
            upto,
        ),
    decreases upto,
{
    let s = input_key[i].value();
    if upto > 0 {
        lemma_signal_block(input_key, input, base_log, level_count, i, upto - 1);
        let index = i * level_count + upto - 1;
        assert(0 <= i * level_count) by (nonlinear_arith)
            requires
                0 <= i,
        ;
        lemma_fundamental_div_mod_converse(index, level_count as int, i, upto - 1);
        let d = decomposition_digit::<T>(input[i].value(), base_log, level_count, upto as nat);
        assert(keyswitch_digit(input, base_log, level_count, index) == d);
        let w = level_weight::<T>(base_log, upto);
        let before = gadget_head::<T>(input[i].value(), base_log, level_count, upto - 1);
        assert(s * before + d * (s * w) == s * (before + d * w)) by (nonlinear_arith);
    } else {
        assert(s * 0 == 0) by (nonlinear_arith);
    }
}

/// What the rounding of the decomposition adds to the phase: for each
/// scalar of the input mask, the scalar of the input key times what the
/// rounding takes from the scalar of the mask.
pub open spec fn rounding_sum<T: UnsignedTorus>(
    input_key: Seq<T>,
    input: Seq<T>,
    base_log: nat,
    level_count: nat,
    count: int,
) -> int
    decreases count,
{
    if count <= 0 {
        0
    } else {
        rounding_sum(input_key, input, base_log, level_count, count - 1) + input_key[count
            - 1].value() * rounding_error::<T>(input[count - 1].value(), base_log, level_count)
    }
}

/// The weighted signals of the ciphertexts of the first `count` scalars of
/// the input key are `<mask, key>` over those scalars, minus what the
/// rounding adds.
proof fn lemma_signal_is_rounded_product<T: UnsignedTorus>(
    input_key: Seq<T>,
    input: Seq<T>,
    base_log: nat,
    level_count: nat,
    count: int,
)
    requires
        decomposition_fits::<T>(base_log, level_count),
        0 <= count,
    ensures
        congruent::<T>(
            signal_sum(input_key, input, base_log, level_count, count * level_count),
            dot_product(input, input_key, count) - rounding_sum(
                input_key,
                input,
                base_log,
                level_count,
                count,
            ),
        ),
    decreases count,
{
    if count == 0 {
        assert(0 * level_count == 0) by (nonlinear_arith);
        lemma_congruent_refl::<T>(0);
    } else {
        lemma_signal_is_rounded_product(input_key, input, base_log, level_count, count - 1);
        lemma_signal_block(
            input_key,
            input,
            base_log,
            level_count,
            count - 1,
            level_count as int,
        );
        assert((count - 1) * level_count + level_count == count * level_count)
            by (nonlinear_arith);
        let s = input_key[count - 1].value();
        let a = input[count - 1].value();
        let gadget = gadget_head::<T>(a, base_log, level_count, level_count as int);
        let error = rounding_error::<T>(a, base_log, level_count);
        lemma_gadget_is_rounded::<T>(a, base_log, level_count);
        lemma_congruent_mul::<T>(gadget, a - error, s);
        assert(s * (a - error) == a * s - s * error) by (nonlinear_arith);
        lemma_congruent_add::<T>(
            signal_sum(input_key, input, base_log, level_count, (count - 1) * level_count),
            dot_product(input, input_key, count - 1) - rounding_sum(
                input_key,
                input,
                base_log,
                level_count,
                count - 1,
            ),
            s * gadget,
            a * s - s * error,
        );
    }
}

/// The keyswitch keeps the phase up to the rounding and the noise: the
/// phase of the switched ciphertext under the output key is the phase of
/// the input under the input key, plus what the rounding of the
/// decomposition adds, minus the weighted noises of the keyswitch key.
pub proof fn lemma_keyswitch_keeps_the_phase<T: UnsignedTorus, D: NoiseDistribution<T>>(
    input_key: Seq<T>,
    output_key: Seq<T>,
    input: Seq<T>,
    base_log: nat,
    level_count: nat,
    mask_stream: Seq<u8>,
    noise_stream: Seq<u8>,
    distribution: D,
)
    requires
        decomposition_fits::<T>(base_log, level_count),
        input.len() == input_key.len() + 1,
    ensures
        congruent::<T>(
            lwe_phase(
                output_key,
                keyswitched(
                    lwe_list_encryption(
                        output_key,
                        keyswitch_plaintexts(input_key, base_log, level_count),
                        mask_stream,
                        noise_stream,
                        distribution,
                        (input_key.len() * level_count) as int,
                    ),
                    base_log,
                    level_count,
                    output_key.len() as int + 1,
                    input,
                ),
            ),
            lwe_phase(input_key, input) + rounding_sum(
                input_key,
                input,
                base_log,
                level_count,
                input_key.len() as int,
            ) - noise_sum(
                input,
                base_log,
                level_count,
                noise_stream,
                distribution,
                (input_key.len() * level_count) as int,
            ),
        ),
{
    let n = input_key.len() as int;
    let count = (input_key.len() * level_count) as int;
    let keyswitch_key = lwe_list_encryption(
        output_key,
        keyswitch_plaintexts(input_key, base_log, level_count),
        mask_stream,
        noise_stream,
        distribution,
        count,
    );
    let switched = keyswitched(
        keyswitch_key,
        base_log,
        level_count,
        output_key.len() as int + 1,
        input,
    );
    let body = input[n].value();
    let phases = weighted_phase_sum(keyswitch_key, input, base_log, level_count, output_key, count);
    let signal = signal_sum(input_key, input, base_log, level_count, count);
    let noise = noise_sum(input, base_log, level_count, noise_stream, distribution, count);
    let product = dot_product(input, input_key, n);
    let rounding = rounding_sum(input_key, input, base_log, level_count, n);
    lemma_lwe_list_encryption_len(
        output_key,
        keyswitch_plaintexts(input_key, base_log, level_count),
        mask_stream,
        noise_stream,
        distribution,
        count,
    );
    assert((input.len() - 1) * level_count == count);
    assert(count * (output_key.len() + 1) == (input.len() - 1) * level_count * (output_key.len()
        + 1)) by (nonlinear_arith)
        requires
            (input.len() - 1) * level_count == count,
    ;
    lemma_phase_of_switched(keyswitch_key, input, base_log, level_count, output_key);
    lemma_phase_sum_is_signal_and_noise(
        input_key,
        output_key,
        input,
        base_log,
        level_count,
        mask_stream,
        noise_stream,
        distribution,
        count,
    );
    lemma_signal_is_rounded_product(input_key, input, base_log, level_count, n);
    lemma_congruent_refl::<T>(noise);
    lemma_congruent_refl::<T>(body);
    lemma_congruent_add::<T>(signal, product - rounding, noise, noise);
    lemma_congruent_trans::<T>(phases, signal + noise, product - rounding + noise);
    lemma_congruent_add::<T>(body, body, phases, product - rounding + noise);
    lemma_congruent_trans::<T>(
        lwe_phase(output_key, switched),
        body - phases,
        body - (product - rounding + noise),
    );
}

/// A digit of a decomposition lies in `[-B/2, B/2)`.
pub proof fn lemma_digit_bound<T: UnsignedTorus>(
    x: int,
    base_log: nat,
    level_count: nat,
    level: nat,
)
    requires
        base_log >= 1,
    ensures
        -pow2((base_log - 1) as nat) <= decomposition_digit::<T>(x, base_log, level_count, level)
            < pow2((base_log - 1) as nat),
{
    let state = state_after(
        rounded_state(x, (T::bits() - base_log * level_count) as nat),
        base_log,
        (level_count - level) as nat,
    );
    lemma_next_state(state, base_log);
    lemma_pow2_unfold(base_log);
}

/// With a binary input key, the rounding adds at most half of the least
/// significant bit that is kept for each scalar of the key.
pub proof fn lemma_rounding_sum_bound<T: UnsignedTorus>(
    input_key: Seq<T>,
    input: Seq<T>,
    base_log: nat,
    level_count: nat,
    count: int,
)
    requires
        decomposition_fits::<T>(base_log, level_count),
        0 <= count <= input_key.len(),
        forall|i: int|
            0 <= i < input_key.len() ==> input_key[i].value() == 0 || input_key[i].value() == 1,
    ensures
        -count * pow2((dropped_bits::<T>(base_log, level_count) - 1) as nat) <= rounding_sum(
            input_key,
            input,
            base_log,
            level_count,
            count,
        ) <= count * pow2((dropped_bits::<T>(base_log, level_count) - 1) as nat),
    decreases count,
{
    let half = pow2((dropped_bits::<T>(base_log, level_count) - 1) as nat) as int;
    if count > 0 {
        lemma_rounding_sum_bound(input_key, input, base_log, level_count, count - 1);
        let s = input_key[count - 1].value();
        let error = rounding_error::<T>(input[count - 1].value(), base_log, level_count);
        lemma_rounding_error_bound::<T>(input[count - 1].value(), base_log, level_count);
        assert(-half <= s * error <= half) by (nonlinear_arith)
            requires
                s == 0 || s == 1,
                -half <= error <= half,
        ;
        assert((count - 1) * half + half == count * half && -(count - 1) * half - half == -count
            * half) by (nonlinear_arith);
    } else {
        assert(0 * half == 0) by (nonlinear_arith);
    }
}

/// With noises of at most `bound` in the keyswitch key, the weighted noises
/// add up to at most `B/2` times `bound` for each ciphertext.
pub proof fn lemma_noise_sum_bound<T: UnsignedTorus, D: NoiseDistribution<T>>(
    input: Seq<T>,
    base_log: nat,
    level_count: nat,
    noise_stream: Seq<u8>,
    distribution: D,
    count: int,
    bound: int,
)
    requires
        base_log >= 1,
        level_count >= 1,
        0 <= count,
        0 <= bound,
        forall|index: int|
            0 <= index < count ==> -bound <= signed_residue(
                #[trigger] lwe_list_noise(noise_stream, distribution, index),
            ) <= bound,
    ensures
        -count * (pow2((base_log - 1) as nat) * bound) <= noise_sum(
            input,
            base_log,
            level_count,
            noise_stream,
            distribution,
            count,
        ) <= count * (pow2((base_log - 1) as nat) * bound),
    decreases count,
{
    let half = pow2((base_log - 1) as nat) as int;
    if count > 0 {
        lemma_noise_sum_bound(
            input,
            base_log,
            level_count,
            noise_stream,
            distribution,
            count - 1,
            bound,
        );
        let index = count - 1;
        let d = keyswitch_digit(input, base_log, level_count, index);
        let e = signed_residue(lwe_list_noise(noise_stream, distribution, index));
        lemma_digit_bound::<T>(
            input[index / (level_count as int)].value(),
            base_log,
            level_count,
            (index % (level_count as int) + 1) as nat,
        );
        assert(-(half * bound) <= d * e <= half * bound) by (nonlinear_arith)
            requires
                -half <= d <= half,
                -bound <= e <= bound,
        ;
        assert((count - 1) * (half * bound) + half * bound == count * (half * bound) && -(count
            - 1) * (half * bound) - half * bound == -count * (half * bound)) by (nonlinear_arith);
    } else {
        assert(0 * (half * bound) == 0) by (nonlinear_arith);
    }
}

/// The most that a keyswitch from a binary key of `dimension` scalars
/// moves the phase, with noises of at most `noise_bound` in the keyswitch
/// key: half of the least significant bit that is kept for each scalar,
/// and `B/2` times the noise for each ciphertext of the key.
pub open spec fn keyswitch_error_bound<T: UnsignedTorus>(
    dimension: nat,
    base_log: nat,
    level_count: nat,
    noise_bound: int,
) -> int {
    dimension * pow2((dropped_bits::<T>(base_log, level_count) - 1) as nat) + (dimension
        * level_count) * (pow2((base_log - 1) as nat) * noise_bound)
}

/// A keyswitch from a binary key keeps the phase up to
/// `keyswitch_error_bound`: the phase of the switched ciphertext under the
/// output key is the phase of the input under the input key plus an error
/// of at most that size.
pub proof fn lemma_keyswitch_error<T: UnsignedTorus, D: NoiseDistribution<T>>(
    input_key: Seq<T>,
    output_key: Seq<T>,
    input: Seq<T>,
    base_log: nat,
    level_count: nat,
    mask_stream: Seq<u8>,
    noise_stream: Seq<u8>,
    distribution: D,
    noise_bound: int,
) -> (error: int)
    requires
        decomposition_fits::<T>(base_log, level_count),
        input.len() == input_key.len() + 1,
        forall|i: int|
            0 <= i < input_key.len() ==> input_key[i].value() == 0 || input_key[i].value() == 1,
        0 <= noise_bound,
        forall|index: int|
            0 <= index < input_key.len() * level_count ==> -noise_bound <= signed_residue(
                #[trigger] lwe_list_noise(noise_stream, distribution, index),
            ) <= noise_bound,
    ensures
        -keyswitch_error_bound::<T>(input_key.len(), base_log, level_count, noise_bound) <= error
            <= keyswitch_error_bound::<T>(input_key.len(), base_log, level_count, noise_bound),
        congruent::<T>(
            lwe_phase(
                output_key,
                keyswitched(
                    lwe_list_encryption(
                        output_key,
                        keyswitch_plaintexts(input_key, base_log, level_count),
                        mask_stream,
                        noise_stream,
                        distribution,
                        (input_key.len() * level_count) as int,
                    ),
                    base_log,
                    level_count,
                    output_key.len() as int + 1,
                    input,
                ),
            ),
            lwe_phase(input_key, input) + error,
        ),
{
    let n = input_key.len() as int;
    let count = (input_key.len() * level_count) as int;
    lemma_keyswitch_keeps_the_phase(
        input_key,
        output_key,
        input,
        base_log,
        level_count,
        mask_stream,
        noise_stream,
        distribution,
    );
    lemma_rounding_sum_bound(input_key, input, base_log, level_count, n);
    lemma_noise_sum_bound(
        input,
        base_log,
        level_count,
        noise_stream,
        distribution,
        count,
        noise_bound,
    );
    let half_unit = pow2((dropped_bits::<T>(base_log, level_count) - 1) as nat) as int;
    let weighted = pow2((base_log - 1) as nat) * noise_bound;
    assert(-n * half_unit == -(n * half_unit) && -count * weighted == -(count * weighted))
        by (nonlinear_arith);
    rounding_sum(input_key, input, base_log, level_count, n) - noise_sum(
        input,
        base_log,
        level_count,
        noise_stream,
        distribution,
        count,
    )
}

/// How far the phase of `ciphertext` under `key` is from `value`: the
/// integer of least absolute value that their difference stands for.
pub open spec fn phase_error<T: UnsignedTorus>(key: Seq<T>, ciphertext: Seq<T>, value: int) -> int {
    signed_residue(reduce::<T>(lwe_phase(key, ciphertext) - value))
}

/// `ciphertext` encrypts `value` under `key` with an error of at most
/// `bound`.
pub open spec fn encrypts<T: UnsignedTorus>(
    key: Seq<T>,
    ciphertext: Seq<T>,
    value: int,
    bound: int,
) -> bool {
    -bound <= phase_error(key, ciphertext, value) <= bound
}

/// The phase is the value plus the phase error.
pub proof fn lemma_phase_error<T: UnsignedTorus>(key: Seq<T>, ciphertext: Seq<T>, value: int)
    ensures
        congruent::<T>(
            lwe_phase(key, ciphertext),
            value + phase_error(key, ciphertext, value),
        ),
{
    let x = lwe_phase(key, ciphertext) - value;
    let e = phase_error(key, ciphertext, value);
    lemma_congruent_reduce::<T>(x);
    lemma_signed_residue(reduce::<T>(x));
    lemma_congruent_trans::<T>(reduce::<T>(x).value(), e, e);
    lemma_congruent_trans::<T>(e, reduce::<T>(x).value(), x);
    lemma_congruent_refl::<T>(value);
    lemma_congruent_add::<T>(value, value, e, x);
    lemma_congruent_trans::<T>(value + e, value + x, value + x);
}

/// An error of less than half the torus that brings the value to the phase
/// is the phase error.
pub proof fn lemma_phase_error_is<T: UnsignedTorus>(
    key: Seq<T>,
    ciphertext: Seq<T>,
    value: int,
    error: int,
)
    requires
        congruent::<T>(lwe_phase(key, ciphertext), value + error),
        -modulus::<T>() <= 2 * error < modulus::<T>(),
    ensures
        phase_error(key, ciphertext, value) == error,
{
    let q = modulus::<T>();
    lemma_modulus::<T>();
    let x = lwe_phase(key, ciphertext) - value;
    lemma_congruent_refl::<T>(value);
    lemma_congruent_add::<T>(lwe_phase(key, ciphertext), value + error, value, value);
    crate::torus::lemma_reduce_congruent::<T>(x, error);
    crate::torus::lemma_reduce_value::<T>(error);
    if error >= 0 {
        vstd::arithmetic::div_mod::lemma_small_mod(error as nat, q as nat);
    } else {
        lemma_fundamental_div_mod_converse(error, q, -1, error + q);
    }
}

/// An encryption encrypts its plaintext with the error of its noise.
pub proof fn lemma_encryption_encrypts<T: UnsignedTorus>(
    key: Seq<T>,
    plaintext: T,
    mask_stream: Seq<u8>,
    noise: T,
)
    ensures
        phase_error(key, lwe_encryption(key, plaintext, mask_stream, noise), plaintext.value())
            == signed_residue(noise),
{
    let ciphertext = lwe_encryption(key, plaintext, mask_stream, noise);
    lemma_lwe_decryption_of_encryption(key, plaintext, mask_stream, noise);
    assert(lwe_decryption(key, ciphertext) == reduce::<T>(lwe_phase(key, ciphertext)));
    lemma_congruent_of_reduce::<T>(lwe_phase(key, ciphertext), plaintext.value() + noise.value());
    lemma_signed_residue(noise);
    lemma_congruent_refl::<T>(plaintext.value());
    lemma_congruent_add::<T>(
        plaintext.value(),
        plaintext.value(),
        noise.value(),
        signed_residue(noise),
    );
    lemma_congruent_trans::<T>(
        lwe_phase(key, ciphertext),
        plaintext.value() + noise.value(),
        plaintext.value() + signed_residue(noise),
    );
    noise.lemma_value();
    lemma_phase_error_is(key, ciphertext, plaintext.value(), signed_residue(noise));
}

/// A keyswitch from a binary key keeps what a ciphertext encrypts, and
/// adds at most `keyswitch_error_bound` to its error, as long as the
/// errors stay below half the torus.
pub proof fn lemma_keyswitch_keeps_the_message<T: UnsignedTorus, D: NoiseDistribution<T>>(
    input_key: Seq<T>,
    output_key: Seq<T>,
    input: Seq<T>,
    base_log: nat,
    level_count: nat,
    mask_stream: Seq<u8>,
    noise_stream: Seq<u8>,
    distribution: D,
    value: int,
    input_bound: int,
    noise_bound: int,
)
    requires
        decomposition_fits::<T>(base_log, level_count),
        input.len() == input_key.len() + 1,
        forall|i: int|
            0 <= i < input_key.len() ==> input_key[i].value() == 0 || input_key[i].value() == 1,
        0 <= noise_bound,
        forall|index: int|
            0 <= index < input_key.len() * level_count ==> -noise_bound <= signed_residue(
                #[trigger] lwe_list_noise(noise_stream, distribution, index),
            ) <= noise_bound,
        encrypts(input_key, input, value, input_bound),
        2 * (input_bound + keyswitch_error_bound::<T>(
            input_key.len(),
            base_log,
            level_count,
            noise_bound,
        )) < modulus::<T>(),
    ensures
        encrypts(
            output_key,
            keyswitched(
                lwe_list_encryption(
                    output_key,
                    keyswitch_plaintexts(input_key, base_log, level_count),
                    mask_stream,
                    noise_stream,
                    distribution,
                    (input_key.len() * level_count) as int,
                ),
                base_log,
                level_count,
                output_key.len() as int + 1,
                input,
            ),
            value,
            input_bound + keyswitch_error_bound::<T>(
                input_key.len(),
                base_log,
                level_count,
                noise_bound,
            ),
        ),
{
    let switched = keyswitched(
        lwe_list_encryption(
            output_key,
            keyswitch_plaintexts(input_key, base_log, level_count),
            mask_stream,
            noise_stream,
            distribution,
            (input_key.len() * level_count) as int,
        ),
        base_log,
        level_count,
        output_key.len() as int + 1,
        input,
    );
    let error = lemma_keyswitch_error(
        input_key,
        output_key,
        input,
        base_log,
        level_count,
        mask_stream,
        noise_stream,
        distribution,
        noise_bound,
    );
    let before = phase_error(input_key, input, value);
    lemma_phase_error(input_key, input, value);
    lemma_congruent_refl::<T>(error);
    lemma_congruent_add::<T>(lwe_phase(input_key, input), value + before, error, error);
    lemma_congruent_trans::<T>(
        lwe_phase(output_key, switched),
        lwe_phase(input_key, input) + error,
        value + (before + error),
    );
    lemma_phase_error_is(output_key, switched, value, before + error);
}

} // verus!
