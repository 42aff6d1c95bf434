//! LWE keyswitch keys and the keyswitch of an LWE ciphertext from one key
//! to another.
//!
//! A keyswitch key from the key `s` to the key `s'` holds, for each scalar
//! `s_i` of `s` and each level `l` of a decomposition, an encryption under
//! `s'` of `s_i * 2^(W - l * base_log)`. The keyswitch of `(a, b)` is
//! `(0, b)` minus, for each `i` and `l`, the digit of level `l` of `a_i`
//! times that encryption.

use crate::decomposition::{
    decomposition_digit, decomposition_fits, decomposition_fits_torus, signed_decomposition,
    DecompositionBaseLog, DecompositionLevelCount,
};
use crate::entities::filled;
use crate::lwe::{
    encrypt_lwe_slice, lwe_list_encryption, lwe_mask_bytes, CiphertextModulus, LweCiphertext,
    LweDimension, LweSecretKey, LweSize,
};
use crate::random::{
    lemma_sample_window, scalar_bytes, ByteRandomGenerator, EncryptionRandomGenerator,
    NoiseDistribution,
};
use crate::torus::{
    lemma_modulus, lemma_reduce_add, lemma_reduce_mul, lemma_reduce_of, modulus, power_of_two_u128,
    reduce, zero, UnsignedTorus,
};
use vstd::arithmetic::div_mod::{lemma_fundamental_div_mod, lemma_fundamental_div_mod_converse};
use vstd::arithmetic::power2::{lemma_pow2_strictly_increases, pow2};
use vstd::prelude::*;

verus! {

/// A keyswitch key: for each scalar of the input key, `level_count`
/// ciphertexts under the output key, level 1 first.
pub struct LweKeyswitchKey<T: UnsignedTorus> {
    /// The scalars of the ciphertexts, in the order of the key.
    pub data: Vec<T>,
    /// The logarithm of the base of the decomposition.
    pub decomp_base_log: DecompositionBaseLog,
    /// The number of levels of the decomposition.
    pub decomp_level_count: DecompositionLevelCount,
    /// The number of scalars of a ciphertext under the output key.
    pub output_lwe_size: LweSize,
    /// The modulus that the scalars are read by.
    pub ciphertext_modulus: CiphertextModulus,
}

impl<T: UnsignedTorus> View for LweKeyswitchKey<T> {
    type V = Seq<T>;

    open spec fn view(&self) -> Seq<T> {
        self.data@
    }
}

impl<T: UnsignedTorus> LweKeyswitchKey<T> {
    /// The number of scalars that the key holds for one scalar of the
    /// input key.
    pub open spec fn block_len(&self) -> int {
        self.decomp_level_count.0 * self.output_lwe_size.0
    }

    /// The decomposition fits the torus, and the key is made of whole
    /// blocks of whole ciphertexts.
    pub open spec fn wf(&self) -> bool {
        &&& decomposition_fits::<T>(
            self.decomp_base_log.0 as nat,
            self.decomp_level_count.0 as nat,
        )
        &&& self.output_lwe_size.0 >= 1
        &&& self.block_len() <= usize::MAX
        &&& self.data@.len() % (self.block_len() as nat) == 0
    }

    /// The dimension of the key that the ciphertexts are switched from.
    pub open spec fn input_dimension(&self) -> nat {
        self.data@.len() / (self.block_len() as nat)
    }

    /// The key of the scalars of `container`.
    pub fn from_container(
        container: Vec<T>,
        decomp_base_log: DecompositionBaseLog,
        decomp_level_count: DecompositionLevelCount,
        output_lwe_size: LweSize,
        ciphertext_modulus: CiphertextModulus,
    ) -> (key: Self)
        requires
            decomposition_fits::<T>(decomp_base_log.0 as nat, decomp_level_count.0 as nat),
            output_lwe_size.0 >= 1,
            decomp_level_count.0 * output_lwe_size.0 <= usize::MAX,
            container@.len() % ((decomp_level_count.0 * output_lwe_size.0) as nat) == 0,
        ensures
            key.wf(),
            key@ == container@,
            key.decomp_base_log == decomp_base_log,
            key.decomp_level_count == decomp_level_count,
            key.output_lwe_size == output_lwe_size,
            key.ciphertext_modulus == ciphertext_modulus,
    {
        LweKeyswitchKey {
            data: container,
            decomp_base_log,
            decomp_level_count,
            output_lwe_size,
            ciphertext_modulus,
        }
    }

    /// Whether the decomposition fits the torus and the key is made of
    /// whole blocks of whole ciphertexts.
    pub fn is_well_formed(&self) -> (ok: bool)
        ensures
            ok == self.wf(),
    {
        if !decomposition_fits_torus::<T>(self.decomp_base_log, self.decomp_level_count) {
            return false;
        }
        let levels = self.decomp_level_count.0;
        let size = self.output_lwe_size.0;
        if size < 1 {
            return false;
        }
        let block = match levels.checked_mul(size) {
            Some(block) => block,
            None => {
                return false;
            },
        };
        proof {
            lemma_block_positive(levels as int, size as int);
        }
        self.data.len() % block == 0
    }

    /// The dimension of the key that the ciphertexts are switched from.
    pub fn input_key_lwe_dimension(&self) -> (dimension: LweDimension)
        requires
            self.wf(),
        ensures
            dimension.0 == self.input_dimension(),
    {
        proof {
            lemma_block_positive(
                self.decomp_level_count.0 as int,
                self.output_lwe_size.0 as int,
            );
        }
        LweDimension(self.data.len() / (self.decomp_level_count.0 * self.output_lwe_size.0))
    }

    /// The dimension of the key that the ciphertexts are switched to.
    pub fn output_key_lwe_dimension(&self) -> (dimension: LweDimension)
        requires
            self.wf(),
        ensures
            dimension.0 == self.output_lwe_size.0 - 1,
    {
        LweDimension(self.output_lwe_size.0 - 1)
    }

    /// The logarithm of the base of the decomposition.
    pub fn decomposition_base_log(&self) -> (base_log: DecompositionBaseLog)
        ensures
            base_log == self.decomp_base_log,
    {
        self.decomp_base_log
    }

    /// The number of levels of the decomposition.
    pub fn decomposition_level_count(&self) -> (level_count: DecompositionLevelCount)
        ensures
            level_count == self.decomp_level_count,
    {
        self.decomp_level_count
    }

    /// The modulus that the scalars are read by.
    pub fn ciphertext_modulus(&self) -> (modulus: CiphertextModulus)
        ensures
            modulus == self.ciphertext_modulus,
    {
        self.ciphertext_modulus
    }
}

/// A block of at least one level of at least one scalar is not empty.
pub proof fn lemma_block_positive(levels: int, size: int)
    requires
        levels >= 1,
        size >= 1,
    ensures
        levels * size >= 1,
        levels * size >= size,
{
    assert(levels * size >= 1 && levels * size >= size) by (nonlinear_arith)
        requires
            levels >= 1,
            size >= 1,
    ;
}

/// The plaintexts of a keyswitch key: for the scalar of index `i` of the
/// input key and the level `l`, at the index `i * level_count + l - 1`,
/// the scalar times `2^(W - l * base_log)`.
pub open spec fn keyswitch_plaintexts<T: UnsignedTorus>(
    input_key: Seq<T>,
    base_log: nat,
    level_count: nat,
) -> Seq<T> {
    Seq::new(
        input_key.len() * level_count,
        |index: int|
            reduce(
                input_key[index / (level_count as int)].value() * pow2(
                    (T::bits() - base_log * (index % (level_count as int) + 1)) as nat,
                ),
            ),
    )
}

/// What the first `count` ciphertexts of the keyswitch key take from the
/// scalar of index `j` of the output: for each of them the digit of its
/// level of its scalar of the input mask, times its scalar of index `j`.
pub open spec fn keyswitch_sum<T: UnsignedTorus>(
    keyswitch_key: Seq<T>,
    input: Seq<T>,
    base_log: nat,
    level_count: nat,
    output_size: int,
    j: int,
    count: int,
) -> int
    decreases count,
{
    if count <= 0 {
        0
    } else {
        keyswitch_sum(keyswitch_key, input, base_log, level_count, output_size, j, count - 1)
            + decomposition_digit::<T>(
            input[(count - 1) / (level_count as int)].value(),
            base_log,
            level_count,
            ((count - 1) % (level_count as int) + 1) as nat,
        ) * keyswitch_key[(count - 1) * output_size + j].value()
    }
}

/// The keyswitch of `input`: the body of `input` in the place of the body
/// and zeros in the mask, minus what the ciphertexts of the keyswitch key
/// take.
pub open spec fn keyswitched<T: UnsignedTorus>(
    keyswitch_key: Seq<T>,
    base_log: nat,
    level_count: nat,
    output_size: int,
    input: Seq<T>,
) -> Seq<T> {
    Seq::new(
        output_size as nat,
        |j: int|
            reduce(
                (if j == output_size - 1 {
                    input[input.len() - 1].value()
                } else {
                    0
                }) - keyswitch_sum(
                    keyswitch_key,
                    input,
                    base_log,
                    level_count,
                    output_size,
                    j,
                    (input.len() - 1) * level_count,
                ),
            ),
    )
}

/// Ciphertext `index` of `count` ciphertexts of `size` scalars lies inside
/// the key, and belongs to the scalar `index / levels` and the level
/// `index % levels + 1`.
proof fn lemma_key_index(dimension: int, levels: int, size: int, i: int, l: int)
    requires
        0 <= i < dimension,
        0 <= l < levels,
        size >= 1,
    ensures
        0 <= i * levels + l < dimension * levels,
        (i * levels + l) / levels == i,
        (i * levels + l) % levels == l,
        0 <= (i * levels + l) * size,
        (i * levels + l) * size + size <= dimension * (levels * size),
        (i * levels + l + 1) * size == (i * levels + l) * size + size,
        (i + 1) * levels == i * levels + levels,
{
    assert(0 <= i * levels && i * levels + levels <= dimension * levels && (i + 1) * levels == i
        * levels + levels) by (nonlinear_arith)
        requires
            0 <= i < dimension,
            0 <= levels,
    ;
    lemma_fundamental_div_mod_converse(i * levels + l, levels, i, l);
    let index = i * levels + l;
    assert(0 <= index * size && index * size + size <= (dimension * levels) * size && (index + 1)
        * size == index * size + size) by (nonlinear_arith)
        requires
            0 <= index < dimension * levels,
            size >= 1,
    ;
    assert((dimension * levels) * size == dimension * (levels * size)) by (nonlinear_arith);
}

/// A new keyswitch key from `input_lwe_secret_key` to
/// `output_lwe_secret_key`: for each scalar of the input key, and for each
/// level from 1 on, the encryption under the output key of the scalar
/// times the weight of the level.
///
/// The ciphertexts are made one after the other from one pair of
/// generators.
pub fn allocate_and_generate_new_lwe_keyswitch_key<
    T: UnsignedTorus,
    G: ByteRandomGenerator,
    D: NoiseDistribution<T>,
>(
    input_lwe_secret_key: &LweSecretKey<T>,
    output_lwe_secret_key: &LweSecretKey<T>,
    decomp_base_log: DecompositionBaseLog,
    decomp_level_count: DecompositionLevelCount,
    noise_distribution: &D,
    ciphertext_modulus: CiphertextModulus,
    generator: &mut EncryptionRandomGenerator<G>,
) -> (key: LweKeyswitchKey<T>)
    requires
        decomposition_fits::<T>(decomp_base_log.0 as nat, decomp_level_count.0 as nat),
        input_lwe_secret_key@.len() * (decomp_level_count.0 * (output_lwe_secret_key@.len() + 1))
            <= usize::MAX,
        decomp_level_count.0 * (output_lwe_secret_key@.len() + 1) <= usize::MAX,
        old(generator).mask.pending().len() >= input_lwe_secret_key@.len() * decomp_level_count.0
            * lwe_mask_bytes(output_lwe_secret_key@),
        old(generator).noise.pending().len() >= input_lwe_secret_key@.len()
            * decomp_level_count.0 * noise_distribution.sample_bytes(),
    ensures
        key.wf(),
        key.decomp_base_log == decomp_base_log,
        key.decomp_level_count == decomp_level_count,
        key.output_lwe_size.0 == output_lwe_secret_key@.len() + 1,
        key.ciphertext_modulus == ciphertext_modulus,
        key.input_dimension() == input_lwe_secret_key@.len(),
        key@ == lwe_list_encryption(
            output_lwe_secret_key@,
            keyswitch_plaintexts(
                input_lwe_secret_key@,
                decomp_base_log.0 as nat,
                decomp_level_count.0 as nat,
            ),
            old(generator).mask.pending(),
            old(generator).noise.pending(),
            *noise_distribution,
            input_lwe_secret_key@.len() * decomp_level_count.0,
        ),
        final(generator).mask.pending() == old(generator).mask.pending().skip(
            input_lwe_secret_key@.len() * decomp_level_count.0 * lwe_mask_bytes(
                output_lwe_secret_key@,
            ),
        ),
        final(generator).noise.pending() == old(generator).noise.pending().skip(
            input_lwe_secret_key@.len() * decomp_level_count.0
                * noise_distribution.sample_bytes(),
        ),
{
    proof {
        lemma_block_positive(
            decomp_level_count.0 as int,
            output_lwe_secret_key@.len() as int + 1,
        );
    }
    let dimension: usize = input_lwe_secret_key.data.len();
    let levels: usize = decomp_level_count.0;
    let size: usize = output_lwe_secret_key.data.len() + 1;
    let block: usize = levels * size;
    let ghost in_key = input_lwe_secret_key@;
    let ghost out_key = output_lwe_secret_key@;
    let ghost beta = decomp_base_log.0 as nat;
    let ghost plaintexts = keyswitch_plaintexts(in_key, beta, levels as nat);
    let ghost mask_stream = generator.mask.pending();
    let ghost noise_stream = generator.noise.pending();
    let ghost mask_bytes = lwe_mask_bytes(out_key);
    let ghost noise_bytes = noise_distribution.sample_bytes() as int;
    let ghost total = dimension * levels;
    proof {
        T::lemma_bits();
        lemma_modulus::<T>();
        lemma_block_positive(levels as int, size as int);
        assert(mask_stream.skip(0) =~= mask_stream);
        assert(noise_stream.skip(0) =~= noise_stream);
        assert(mask_bytes >= 0) by (nonlinear_arith)
            requires
                mask_bytes == out_key.len() * scalar_bytes::<T>(),
                scalar_bytes::<T>() >= 0,
        ;
        assert(total >= 0) by (nonlinear_arith)
            requires
                total == dimension * levels,
        ;
        vstd::arithmetic::div_mod::lemma_mod_multiples_basic(dimension as int, block as int);
        vstd::arithmetic::div_mod::lemma_div_by_multiple(dimension as int, block as int);
        assert(dimension * levels * size == dimension * (levels * size)) by (nonlinear_arith);
    }
    let bits: usize = T::bit_width() as usize;
    let mut data: Vec<T> = filled(zero::<T>(), dimension * block);
    let mut i: usize = 0;
    let mut start: usize = 0;
    proof {
        assert((0 * levels) * size == 0 && (0 * levels) * mask_bytes == 0 && (0 * levels)
            * noise_bytes == 0) by (nonlinear_arith);
    }
    while i < dimension
        invariant
            i <= dimension,
            dimension == in_key.len(),
            in_key == input_lwe_secret_key@,
            out_key == output_lwe_secret_key@,
            levels == decomp_level_count.0,
            beta == decomp_base_log.0,
            decomposition_fits::<T>(beta, levels as nat),
            bits == T::bits(),
            bits <= 128,
            size == out_key.len() + 1,
            block == levels * size,
            total == dimension * levels,
            data@.len() == dimension * block,
            data@.len() <= usize::MAX,
            start == (i * levels) * size,
            plaintexts == keyswitch_plaintexts(in_key, beta, levels as nat),
            mask_bytes == lwe_mask_bytes(out_key),
            noise_bytes == noise_distribution.sample_bytes(),
            0 <= mask_bytes,
            mask_stream.len() >= total * mask_bytes,
            noise_stream.len() >= total * noise_bytes,
            generator.mask.pending() == mask_stream.skip((i * levels) * mask_bytes),
            generator.noise.pending() == noise_stream.skip((i * levels) * noise_bytes),
            data@.subrange(0, start as int) == lwe_list_encryption(
                out_key,
                plaintexts,
                mask_stream,
                noise_stream,
                *noise_distribution,
                i * levels,
            ),
        decreases dimension - i,
    {
        let secret: T = input_lwe_secret_key.data[i];
        let mut l: usize = 0;
        proof {
            assert(i * levels + 0 == i * levels);
        }
        while l < levels
            invariant
                i < dimension,
                l <= levels,
                dimension == in_key.len(),
                in_key == input_lwe_secret_key@,
                out_key == output_lwe_secret_key@,
                secret == in_key[i as int],
                levels == decomp_level_count.0,
                beta == decomp_base_log.0,
                decomposition_fits::<T>(beta, levels as nat),
                bits == T::bits(),
                bits <= 128,
                size == out_key.len() + 1,
                block == levels * size,
                total == dimension * levels,
                data@.len() == dimension * block,
                data@.len() <= usize::MAX,
                start == (i * levels + l) * size,
                plaintexts == keyswitch_plaintexts(in_key, beta, levels as nat),
                mask_bytes == lwe_mask_bytes(out_key),
                noise_bytes == noise_distribution.sample_bytes(),
                0 <= mask_bytes,
                mask_stream.len() >= total * mask_bytes,
                noise_stream.len() >= total * noise_bytes,
                generator.mask.pending() == mask_stream.skip((i * levels + l) * mask_bytes),
                generator.noise.pending() == noise_stream.skip((i * levels + l) * noise_bytes),
                data@.subrange(0, start as int) == lwe_list_encryption(
                    out_key,
                    plaintexts,
                    mask_stream,
                    noise_stream,
                    *noise_distribution,
                    i * levels + l,
                ),
            decreases levels - l,
        {
            let ghost index = i * levels + l;
            proof {
                lemma_key_index(dimension as int, levels as int, size as int, i as int, l as int);
                lemma_sample_window(mask_stream, total, mask_bytes, index);
                lemma_sample_window(noise_stream, total, noise_bytes, index);
                assert(beta * (l + 1) <= beta * levels) by (nonlinear_arith)
                    requires
                        l < levels,
                ;
                assert(beta * (l + 1) >= 1) by (nonlinear_arith)
                    requires
                        beta >= 1,
                        l >= 0,
                ;
                lemma_pow2_strictly_increases((bits - beta * (l + 1)) as nat, bits as nat);
            }
            let shift: usize = bits - decomp_base_log.0 * (l + 1);
            let weight: T = T::from_u128(power_of_two_u128(shift as u32));
            let plaintext: T = secret.wrapping_mul(weight);
            proof {
                lemma_reduce_of(plaintext, secret.value() * weight.value());
                assert(plaintext == plaintexts[index]);
            }
            let ghost before = data@;
            let (_, tail) = data.as_mut_slice().split_at_mut(start);
            let (chunk, _) = tail.split_at_mut(size);
            encrypt_lwe_slice(
                output_lwe_secret_key.data.as_slice(),
                chunk,
                plaintext,
                noise_distribution,
                generator,
            );
            proof {
                let done = lwe_list_encryption(
                    out_key,
                    plaintexts,
                    mask_stream,
                    noise_stream,
                    *noise_distribution,
                    index,
                );
                assert(data@.subrange(0, start as int) =~= before.subrange(0, start as int));
                assert(data@.subrange(0, start + size) =~= done + chunk@);
            }
            l += 1;
            start += size;
        }
        proof {
            lemma_key_index(dimension as int, levels as int, size as int, i as int, 0);
        }
        i += 1;
    }
    proof {
        assert((dimension * levels) * size == dimension * block) by (nonlinear_arith)
            requires
                block == levels * size,
        ;
        assert(data@.subrange(0, start as int) =~= data@);
    }
    LweKeyswitchKey {
        data,
        decomp_base_log,
        decomp_level_count,
        output_lwe_size: LweSize(size),
        ciphertext_modulus,
    }
}

/// Switches `input_lwe_ciphertext` to the output key of
/// `lwe_keyswitch_key`, into `output_lwe_ciphertext`.
pub fn keyswitch_lwe_ciphertext<T: UnsignedTorus>(
    lwe_keyswitch_key: &LweKeyswitchKey<T>,
    input_lwe_ciphertext: &LweCiphertext<T>,
    output_lwe_ciphertext: &mut LweCiphertext<T>,
)
    requires
        lwe_keyswitch_key.wf(),
        input_lwe_ciphertext@.len() == lwe_keyswitch_key.input_dimension() + 1,
        old(output_lwe_ciphertext)@.len() == lwe_keyswitch_key.output_lwe_size.0,
        lwe_keyswitch_key.ciphertext_modulus == input_lwe_ciphertext.ciphertext_modulus,
        lwe_keyswitch_key.ciphertext_modulus == old(output_lwe_ciphertext).ciphertext_modulus,
    ensures
        final(output_lwe_ciphertext).ciphertext_modulus == old(
            output_lwe_ciphertext,
        ).ciphertext_modulus,
        final(output_lwe_ciphertext)@ == keyswitched(
            lwe_keyswitch_key@,
            lwe_keyswitch_key.decomp_base_log.0 as nat,
            lwe_keyswitch_key.decomp_level_count.0 as nat,
            lwe_keyswitch_key.output_lwe_size.0 as int,
            input_lwe_ciphertext@,
        ),
{
    let levels: usize = lwe_keyswitch_key.decomp_level_count.0;
    let size: usize = lwe_keyswitch_key.output_lwe_size.0;
    let dimension: usize = input_lwe_ciphertext.data.len() - 1;
    let ghost key = lwe_keyswitch_key@;
    let ghost input = input_lwe_ciphertext@;
    let ghost beta = lwe_keyswitch_key.decomp_base_log.0 as nat;
    let ghost body = input[dimension as int].value();
    proof {
        lemma_block_positive(levels as int, size as int);
        lemma_fundamental_div_mod(key.len() as int, levels * size);
        assert((levels * size) * dimension == dimension * (levels * size)) by (nonlinear_arith);
    }
    let output = output_lwe_ciphertext.data.as_mut_slice();
    let zero = zero::<T>();
    let mut j: usize = 0;
    while j < size
        invariant
            j <= size,
            output@.len() == size,
            zero == reduce::<T>(0),
            forall|k: int| 0 <= k < j ==> output@[k] == zero,
        decreases size - j,
    {
        output[j] = zero;
        j += 1;
    }
    let last = input_lwe_ciphertext.data[dimension];
    output[size - 1] = last;
    proof {
        last.lemma_value();
        lemma_modulus::<T>();
        vstd::arithmetic::div_mod::lemma_small_mod(last.value() as nat, modulus::<T>() as nat);
        lemma_reduce_of(last, last.value());
    }
    let mut i: usize = 0;
    let mut start: usize = 0;
    proof {
        assert((0 * levels) * size == 0) by (nonlinear_arith);
        assert(key.len() == lwe_keyswitch_key.data.len());
    }
    while i < dimension
        invariant
            i <= dimension,
            levels == lwe_keyswitch_key.decomp_level_count.0,
            beta == lwe_keyswitch_key.decomp_base_log.0,
            decomposition_fits::<T>(beta, levels as nat),
            size >= 1,
            key == lwe_keyswitch_key@,
            input == input_lwe_ciphertext@,
            input.len() == dimension + 1,
            body == input[dimension as int].value(),
            key.len() == dimension * (levels * size),
            key.len() <= usize::MAX,
            output@.len() == size,
            start == (i * levels) * size,
            forall|k: int|
                0 <= k < size ==> #[trigger] output@[k] == reduce::<T>(
                    (if k == size - 1 {
                        body
                    } else {
                        0
                    }) - keyswitch_sum(key, input, beta, levels as nat, size as int, k, i * levels),
                ),
        decreases dimension - i,
    {
        let digits = signed_decomposition(
            input_lwe_ciphertext.data[i],
            lwe_keyswitch_key.decomp_base_log,
            lwe_keyswitch_key.decomp_level_count,
        );
        let mut l: usize = 0;
        proof {
            assert(i * levels + 0 == i * levels);
        }
        while l < levels
            invariant
                i < dimension,
                l <= levels,
                levels == lwe_keyswitch_key.decomp_level_count.0,
                beta == lwe_keyswitch_key.decomp_base_log.0,
                size >= 1,
                key == lwe_keyswitch_key@,
                input == input_lwe_ciphertext@,
                input.len() == dimension + 1,
                body == input[dimension as int].value(),
                key.len() == dimension * (levels * size),
                key.len() <= usize::MAX,
                output@.len() == size,
                start == (i * levels + l) * size,
                digits@.len() == levels,
                forall|m: int|
                    0 <= m < levels ==> #[trigger] digits@[m] == reduce::<T>(
                        decomposition_digit::<T>(
                            input[i as int].value(),
                            beta,
                            levels as nat,
                            (m + 1) as nat,
                        ),
                    ),
                forall|k: int|
                    0 <= k < size ==> #[trigger] output@[k] == reduce::<T>(
                        (if k == size - 1 {
                            body
                        } else {
                            0
                        }) - keyswitch_sum(
                            key,
                            input,
                            beta,
                            levels as nat,
                            size as int,
                            k,
                            i * levels + l,
                        ),
                    ),
            decreases levels - l,
        {
            let ghost index = i * levels + l;
            proof {
                lemma_key_index(dimension as int, levels as int, size as int, i as int, l as int);
            }
            let digit: T = digits[l];
            let ghost d = decomposition_digit::<T>(
                input[i as int].value(),
                beta,
                levels as nat,
                (l + 1) as nat,
            );
            let mut k: usize = 0;
            while k < size
                invariant
                    k <= size,
                    size >= 1,
                    i < dimension,
                    input.len() == dimension + 1,
                    key == lwe_keyswitch_key@,
                    index == i * levels + l,
                    0 <= index,
                    index / (levels as int) == i,
                    index % (levels as int) == l,
                    start == index * size,
                    start + size <= key.len(),
                    key.len() <= usize::MAX,
                    output@.len() == size,
                    digit == reduce::<T>(d),
                    d == decomposition_digit::<T>(
                        input[i as int].value(),
                        beta,
                        levels as nat,
                        (l + 1) as nat,
                    ),
                    forall|m: int|
                        0 <= m < k ==> #[trigger] output@[m] == reduce::<T>(
                            (if m == size - 1 {
                                body
                            } else {
                                0
                            }) - keyswitch_sum(
                                key,
                                input,
                                beta,
                                levels as nat,
                                size as int,
                                m,
                                index + 1,
                            ),
                        ),
                    forall|m: int|
                        k <= m < size ==> #[trigger] output@[m] == reduce::<T>(
                            (if m == size - 1 {
                                body
                            } else {
                                0
                            }) - keyswitch_sum(
                                key,
                                input,
                                beta,
                                levels as nat,
                                size as int,
                                m,
                                index,
                            ),
                        ),
                decreases size - k,
            {
                let scalar: T = lwe_keyswitch_key.data[start + k];
                let product = digit.wrapping_mul(scalar);
                let next = output[k].wrapping_sub(product);
                proof {
                    let first = if k == size - 1 {
                        body
                    } else {
                        0
                    };
                    let sum = keyswitch_sum(
                        key,
                        input,
                        beta,
                        levels as nat,
                        size as int,
                        k as int,
                        index,
                    );
                    lemma_reduce_of(product, digit.value() * scalar.value());
                    lemma_reduce_mul::<T>(d, scalar.value());
                    lemma_reduce_of(next, output@[k as int].value() - product.value());
                    lemma_reduce_add::<T>(first - sum, -product.value());
                    lemma_reduce_add::<T>(d * scalar.value(), first - sum);
                }
                output[k] = next;
                k += 1;
            }
            l += 1;
            start += size;
        }
        proof {
            lemma_key_index(dimension as int, levels as int, size as int, i as int, 0);
        }
        i += 1;
    }
    proof {
        assert(output@ =~= keyswitched(key, beta, levels as nat, size as int, input));
    }
}

} // verus!
