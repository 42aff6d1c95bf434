//! What holds of LWE encryption, decryption and keyswitch together.

use crate::lwe::{
    dot_product, lemma_dot_product_prefix, lwe_decryption, lwe_encryption, lwe_list_encryption,
    lwe_mask_bytes,
};
use crate::random::{uniform_scalars, NoiseDistribution};
use crate::torus::{
    lemma_congruent_add, lemma_congruent_reduce, lemma_congruent_refl, reduce, wrapped_add,
    UnsignedTorus,
};
use vstd::prelude::*;

verus! {

/// Decryption undoes encryption up to the noise: decrypting, under the same
/// key, the encryption of `plaintext` with the noise `noise` gives
/// `plaintext + noise`, whatever the mask.
pub proof fn lemma_lwe_decryption_of_encryption<T: UnsignedTorus>(
    key: Seq<T>,
    plaintext: T,
    mask_stream: Seq<u8>,
    noise: T,
)
    ensures
        lwe_decryption(key, lwe_encryption(key, plaintext, mask_stream, noise)) == wrapped_add(
            plaintext,
            noise,
        ),
{
    let n = key.len() as int;
    let mask = uniform_scalars::<T>(mask_stream, n);
    let ciphertext = lwe_encryption(key, plaintext, mask_stream, noise);
    let d = dot_product(mask, key, n);
    lemma_dot_product_prefix(ciphertext, mask, key, n);
    let body = ciphertext[n];
    assert(body == reduce::<T>(d + plaintext.value() + noise.value()));
    lemma_congruent_reduce::<T>(d + plaintext.value() + noise.value());
    lemma_congruent_refl::<T>(d);
    lemma_congruent_add::<T>(body.value(), d + plaintext.value() + noise.value(), d, d);
    crate::torus::lemma_reduce_congruent::<T>(
        body.value() - d,
        plaintext.value() + noise.value(),
    );
}

/// The encryptions of the first `count` plaintexts are `count` ciphertexts
/// long.
pub proof fn lemma_lwe_list_encryption_len<T: UnsignedTorus, D: NoiseDistribution<T>>(
    key: Seq<T>,
    plaintexts: Seq<T>,
    mask_stream: Seq<u8>,
    noise_stream: Seq<u8>,
    distribution: D,
    count: int,
)
    requires
        count >= 0,
    ensures
        lwe_list_encryption(key, plaintexts, mask_stream, noise_stream, distribution, count).len()
            == count * (key.len() + 1),
    decreases count,
{
    if count > 0 {
        lemma_lwe_list_encryption_len(
            key,
            plaintexts,
            mask_stream,
            noise_stream,
            distribution,
            count - 1,
        );
        assert((count - 1) * (key.len() + 1) + (key.len() + 1) == count * (key.len() + 1))
            by (nonlinear_arith);
    }
}

/// The noise of ciphertext `index` of a list of encryptions.
pub open spec fn lwe_list_noise<T: UnsignedTorus, D: NoiseDistribution<T>>(
    noise_stream: Seq<u8>,
    distribution: D,
    index: int,
) -> T {
    distribution.sample(
        noise_stream.skip(index * distribution.sample_bytes()).take(
            distribution.sample_bytes() as int,
        ),
    )
}

/// Ciphertext `index` of a list of encryptions is the encryption of
/// plaintext `index`, with the mask and the noise taken from where the
/// ciphertexts before it left the two streams.
pub proof fn lemma_lwe_list_encryption_is_chunkwise<T: UnsignedTorus, D: NoiseDistribution<T>>(
    key: Seq<T>,
    plaintexts: Seq<T>,
    mask_stream: Seq<u8>,
    noise_stream: Seq<u8>,
    distribution: D,
    count: int,
    index: int,
)
    requires
        0 <= index < count,
    ensures
        lwe_list_encryption(
            key,
            plaintexts,
            mask_stream,
            noise_stream,
            distribution,
            count,
        ).subrange(index * (key.len() + 1), index * (key.len() + 1) + (key.len() + 1))
            == lwe_encryption(
            key,
            plaintexts[index],
            mask_stream.skip(index * lwe_mask_bytes(key)),
            lwe_list_noise(noise_stream, distribution, index),
        ),
    decreases count,
{
    let len = key.len() + 1;
    let whole = lwe_list_encryption(
        key,
        plaintexts,
        mask_stream,
        noise_stream,
        distribution,
        count,
    );
    let before = lwe_list_encryption(
        key,
        plaintexts,
        mask_stream,
        noise_stream,
        distribution,
        count - 1,
    );
    lemma_lwe_list_encryption_len(
        key,
        plaintexts,
        mask_stream,
        noise_stream,
        distribution,
        count - 1,
    );
    assert(0 <= index * len && index * len + len <= (count - 1) * len + len) by (nonlinear_arith)
        requires
            0 <= index < count,
            0 <= len,
    ;
    if index == count - 1 {
        assert(whole.subrange(index * len, index * len + len) =~= lwe_encryption(
            key,
            plaintexts[index],
            mask_stream.skip(index * lwe_mask_bytes(key)),
            lwe_list_noise(noise_stream, distribution, index),
        ));
    } else {
        lemma_lwe_list_encryption_is_chunkwise(
            key,
            plaintexts,
            mask_stream,
            noise_stream,
            distribution,
            count - 1,
            index,
        );
        assert(index * len + len <= (count - 1) * len) by (nonlinear_arith)
            requires
                0 <= index < count - 1,
                0 <= len,
        ;
        assert(whole.subrange(index * len, index * len + len) =~= before.subrange(
            index * len,
            index * len + len,
        ));
    }
}

} // verus!
