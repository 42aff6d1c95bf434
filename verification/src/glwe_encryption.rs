//! GLWE encryption and decryption.
//!
//! A ciphertext of the plaintext polynomial `P` under the key `S` is a pair
//! `(A, B)`: the mask `A` is `k` uniform polynomials, and the body is
//! `B = <A, S> + P + E` for a noise polynomial `E`. Decryption gives back
//! `B - <A, S> = P + E`; it is for the caller to round the noise away.

use crate::entities::{
    lemma_whole_polynomials, GlweCiphertext, GlweCiphertextList, GlweSecretKey, GlweSize,
    PlaintextList, PolynomialSize,
};
use crate::polynomial::{
    inner_product_coefficient, polynomial_wrapping_add_assign,
    polynomial_wrapping_add_multisum_assign, polynomial_wrapping_sub_multisum_assign,
};
use crate::random::{
    lemma_sample_window, noise_samples, scalar_bytes, uniform_scalars, ByteRandomGenerator,
    EncryptionRandomGenerator, NoiseDistribution,
};
use crate::torus::{lemma_reduce_add, reduce, zero, UnsignedTorus};
use vstd::prelude::*;

verus! {

/// The body of the encryption of `plaintext` under `key` with the given
/// mask and noise: `<mask, key> + plaintext + noise`.
pub open spec fn glwe_body<T: UnsignedTorus>(
    key: Seq<T>,
    n: int,
    mask: Seq<T>,
    plaintext: Seq<T>,
    noise: Seq<T>,
) -> Seq<T> {
    Seq::new(
        n as nat,
        |i: int|
            reduce(
                noise[i].value() + plaintext[i].value() + inner_product_coefficient(
                    mask,
                    key,
                    n,
                    i,
                ),
            ),
    )
}

/// The encryption of `plaintext` under `key`: the mask is drawn from the
/// front of `mask_stream`, the body is made with `noise`.
pub open spec fn glwe_encryption<T: UnsignedTorus>(
    key: Seq<T>,
    n: int,
    plaintext: Seq<T>,
    mask_stream: Seq<u8>,
    noise: Seq<T>,
) -> Seq<T> {
    let mask = uniform_scalars::<T>(mask_stream, key.len() as int);
    mask + glwe_body(key, n, mask, plaintext, noise)
}

/// The decryption of `ciphertext` under `key`: the body minus
/// `<mask, key>`.
pub open spec fn glwe_decryption<T: UnsignedTorus>(key: Seq<T>, n: int, ciphertext: Seq<T>) -> Seq<
    T,
> {
    Seq::new(
        n as nat,
        |i: int|
            reduce(
                ciphertext[key.len() + i].value() - inner_product_coefficient(
                    ciphertext.subrange(0, key.len() as int),
                    key,
                    n,
                    i,
                ),
            ),
    )
}

/// The trivial encryption of `plaintext`: a mask of `mask_len` zeros, and
/// the plaintext as the body.
pub open spec fn glwe_trivial_encryption<T: UnsignedTorus>(mask_len: int, plaintext: Seq<T>) -> Seq<
    T,
> {
    Seq::new(mask_len as nat, |i: int| T::from_value(0)) + plaintext
}

/// The number of bytes that the mask of one ciphertext takes from the mask
/// generator.
pub open spec fn glwe_mask_bytes<T: UnsignedTorus>(key: Seq<T>) -> int {
    key.len() * scalar_bytes::<T>()
}

/// The number of bytes that the noise of one ciphertext takes from the
/// noise generator.
pub open spec fn glwe_noise_bytes<T: UnsignedTorus, D: NoiseDistribution<T>>(
    distribution: D,
    n: int,
) -> int {
    n * distribution.sample_bytes()
}

/// The encryptions of the first `count` runs of `n` plaintexts, one after
/// the other: each takes its mask and its noise from where the one before
/// it left the two streams.
pub open spec fn glwe_list_encryption<T: UnsignedTorus, D: NoiseDistribution<T>>(
    key: Seq<T>,
    n: int,
    plaintexts: Seq<T>,
    mask_stream: Seq<u8>,
    noise_stream: Seq<u8>,
    distribution: D,
    count: int,
) -> Seq<T>
    decreases count,
{
    if count <= 0 {
        Seq::empty()
    } else {
        glwe_list_encryption(
            key,
            n,
            plaintexts,
            mask_stream,
            noise_stream,
            distribution,
            count - 1,
        ) + glwe_encryption(
            key,
            n,
            plaintexts.subrange((count - 1) * n, (count - 1) * n + n),
            mask_stream.skip((count - 1) * glwe_mask_bytes(key)),
            noise_samples(
                distribution,
                noise_stream.skip((count - 1) * glwe_noise_bytes::<T, D>(distribution, n)),
                n,
            ),
        )
    }
}

/// The decryptions of the first `count` ciphertexts of a list, one after
/// the other.
pub open spec fn glwe_list_decryption<T: UnsignedTorus>(
    key: Seq<T>,
    n: int,
    ciphertexts: Seq<T>,
    count: int,
) -> Seq<T>
    decreases count,
{
    if count <= 0 {
        Seq::empty()
    } else {
        glwe_list_decryption(key, n, ciphertexts, count - 1) + glwe_decryption(
            key,
            n,
            ciphertexts.subrange(
                (count - 1) * (key.len() + n),
                (count - 1) * (key.len() + n) + (key.len() + n),
            ),
        )
    }
}

/// Encrypts the plaintext that the body of the ciphertext slice
/// `ciphertext` holds, under the key slice `key` of polynomials of `n`
/// coefficients: draws the mask, adds the noise to the body, then adds
/// `<mask, key>`.
pub fn encrypt_glwe_slice_assign<T: UnsignedTorus, G: ByteRandomGenerator, D: NoiseDistribution<T>>(
    key: &[T],
    n: usize,
    ciphertext: &mut [T],
    noise_distribution: &D,
    generator: &mut EncryptionRandomGenerator<G>,
)
    requires
        n > 0,
        key@.len() % (n as nat) == 0,
        old(ciphertext)@.len() == key@.len() + n,
        old(generator).mask.pending().len() >= glwe_mask_bytes(key@),
        old(generator).noise.pending().len() >= glwe_noise_bytes::<T, D>(
            *noise_distribution,
            n as int,
        ),
    ensures
        final(ciphertext)@ == glwe_encryption(
            key@,
            n as int,
            old(ciphertext)@.subrange(key@.len() as int, key@.len() + n),
            old(generator).mask.pending(),
            noise_samples(*noise_distribution, old(generator).noise.pending(), n as int),
        ),
        final(generator).mask.pending() == old(generator).mask.pending().skip(
            glwe_mask_bytes(key@),
        ),
        final(generator).noise.pending() == old(generator).noise.pending().skip(
            glwe_noise_bytes::<T, D>(*noise_distribution, n as int),
        ),
{
    let ghost plaintext = ciphertext@.subrange(key@.len() as int, key@.len() + n);
    let ghost noise = noise_samples(*noise_distribution, generator.noise.pending(), n as int);
    let (mask, body) = ciphertext.split_at_mut(key.len());
    generator.fill_slice_with_random_mask(mask);
    generator.unsigned_torus_slice_wrapping_add_random_noise_assign(body, noise_distribution);
    polynomial_wrapping_add_multisum_assign(body, mask, key);
    proof {
        let expected = glwe_body(key@, n as int, mask@, plaintext, noise);
        assert forall|i: int| 0 <= i < n implies body@[i] == expected[i] by {
            lemma_reduce_add::<T>(
                plaintext[i].value() + noise[i].value(),
                inner_product_coefficient(mask@, key@, n as int, i),
            );
        }
        assert(body@ =~= expected);
    }
}

/// Encrypts the slice `plaintext` into the ciphertext slice `ciphertext`,
/// under the key slice `key` of polynomials of `n` coefficients: draws the
/// mask, overwrites the body with noise, then adds the plaintext and
/// `<mask, key>`.
pub fn encrypt_glwe_slice<T: UnsignedTorus, G: ByteRandomGenerator, D: NoiseDistribution<T>>(
    key: &[T],
    n: usize,
    plaintext: &[T],
    ciphertext: &mut [T],
    noise_distribution: &D,
    generator: &mut EncryptionRandomGenerator<G>,
)
    requires
        n > 0,
        key@.len() % (n as nat) == 0,
        plaintext@.len() == n,
        old(ciphertext)@.len() == key@.len() + n,
        old(generator).mask.pending().len() >= glwe_mask_bytes(key@),
        old(generator).noise.pending().len() >= glwe_noise_bytes::<T, D>(
            *noise_distribution,
            n as int,
        ),
    ensures
        final(ciphertext)@ == glwe_encryption(
            key@,
            n as int,
            plaintext@,
            old(generator).mask.pending(),
            noise_samples(*noise_distribution, old(generator).noise.pending(), n as int),
        ),
        final(generator).mask.pending() == old(generator).mask.pending().skip(
            glwe_mask_bytes(key@),
        ),
        final(generator).noise.pending() == old(generator).noise.pending().skip(
            glwe_noise_bytes::<T, D>(*noise_distribution, n as int),
        ),
{
    let ghost noise = noise_samples(*noise_distribution, generator.noise.pending(), n as int);
    let (mask, body) = ciphertext.split_at_mut(key.len());
    generator.fill_slice_with_random_mask(mask);
    generator.fill_slice_with_random_noise(body, noise_distribution);
    polynomial_wrapping_add_assign(body, plaintext);
    polynomial_wrapping_add_multisum_assign(body, mask, key);
    proof {
        let expected = glwe_body(key@, n as int, mask@, plaintext@, noise);
        assert forall|i: int| 0 <= i < n implies body@[i] == expected[i] by {
            lemma_reduce_add::<T>(
                noise[i].value() + plaintext@[i].value(),
                inner_product_coefficient(mask@, key@, n as int, i),
            );
        }
        assert(body@ =~= expected);
    }
}

/// Decrypts the ciphertext slice `ciphertext` into the slice `output`,
/// under the key slice `key` of polynomials of `n` coefficients: copies the
/// body, then subtracts `<mask, key>`.
pub fn decrypt_glwe_slice<T: UnsignedTorus>(key: &[T], n: usize, ciphertext: &[T], output: &mut [T])
    requires
        n > 0,
        key@.len() % (n as nat) == 0,
        ciphertext@.len() == key@.len() + n,
        old(output)@.len() == n,
    ensures
        final(output)@ == glwe_decryption(key@, n as int, ciphertext@),
{
    let (mask, body) = ciphertext.split_at(key.len());
    let mut i: usize = 0;
    while i < n
        invariant
            i <= n,
            output@.len() == n,
            body@.len() == n,
            forall|j: int| 0 <= j < i ==> output@[j] == body@[j],
        decreases n - i,
    {
        output[i] = body[i];
        i += 1;
    }
    proof {
        assert(output@ =~= body@);
    }
    polynomial_wrapping_sub_multisum_assign(output, mask, key);
    proof {
        assert(output@ =~= glwe_decryption(key@, n as int, ciphertext@));
    }
}

/// Encrypts the plaintext that the body of `output` already holds.
///
/// The mask is drawn from the mask generator, one sample of noise for each
/// coefficient from the noise generator.
pub fn encrypt_glwe_ciphertext_assign<
    T: UnsignedTorus,
    G: ByteRandomGenerator,
    D: NoiseDistribution<T>,
>(
    glwe_secret_key: &GlweSecretKey<T>,
    output: &mut GlweCiphertext<T>,
    noise_distribution: &D,
    generator: &mut EncryptionRandomGenerator<G>,
)
    requires
        glwe_secret_key.wf(),
        old(output).wf(),
        old(output).size() == glwe_secret_key.dimension() + 1,
        old(output).polynomial_size == glwe_secret_key.polynomial_size,
        old(generator).mask.pending().len() >= glwe_mask_bytes(glwe_secret_key@),
        old(generator).noise.pending().len() >= glwe_noise_bytes::<T, D>(
            *noise_distribution,
            glwe_secret_key.polynomial_size.0 as int,
        ),
    ensures
        final(output).wf(),
        final(output).polynomial_size == old(output).polynomial_size,
        final(output).size() == old(output).size(),
        final(output)@ == glwe_encryption(
            glwe_secret_key@,
            glwe_secret_key.polynomial_size.0 as int,
            old(output).body(),
            old(generator).mask.pending(),
            noise_samples(
                *noise_distribution,
                old(generator).noise.pending(),
                glwe_secret_key.polynomial_size.0 as int,
            ),
        ),
        final(generator).mask.pending() == old(generator).mask.pending().skip(
            glwe_mask_bytes(glwe_secret_key@),
        ),
        final(generator).noise.pending() == old(generator).noise.pending().skip(
            glwe_noise_bytes::<T, D>(*noise_distribution, glwe_secret_key.polynomial_size.0 as int),
        ),
{
    proof {
        lemma_shapes_agree(
            glwe_secret_key@.len() as int,
            output@.len() as int,
            glwe_secret_key.polynomial_size.0 as int,
        );
    }
    encrypt_glwe_slice_assign(
        glwe_secret_key.data.as_slice(),
        glwe_secret_key.polynomial_size.0,
        output.data.as_mut_slice(),
        noise_distribution,
        generator,
    );
}

/// A key of `k` polynomials and a ciphertext of `k + 1` polynomials differ
/// by the `n` scalars of the body.
pub proof fn lemma_shapes_agree(key_len: int, ciphertext_len: int, n: int)
    requires
        0 < n,
        0 <= key_len,
        0 <= ciphertext_len,
        key_len % n == 0,
        ciphertext_len % n == 0,
        ciphertext_len / n == key_len / n + 1,
    ensures
        ciphertext_len == key_len + n,
{
    vstd::arithmetic::div_mod::lemma_fundamental_div_mod(key_len, n);
    vstd::arithmetic::div_mod::lemma_fundamental_div_mod(ciphertext_len, n);
    assert(n * (key_len / n + 1) == n * (key_len / n) + n) by (nonlinear_arith);
}

/// Encrypts `input_plaintext_list` into `output_glwe_ciphertext`.
///
/// The mask is drawn from the mask generator, one sample of noise for each
/// coefficient from the noise generator.
pub fn encrypt_glwe_ciphertext<T: UnsignedTorus, G: ByteRandomGenerator, D: NoiseDistribution<T>>(
    glwe_secret_key: &GlweSecretKey<T>,
    input_plaintext_list: &PlaintextList<T>,
    output_glwe_ciphertext: &mut GlweCiphertext<T>,
    noise_distribution: &D,
    generator: &mut EncryptionRandomGenerator<G>,
)
    requires
        glwe_secret_key.wf(),
        old(output_glwe_ciphertext).wf(),
        old(output_glwe_ciphertext).polynomial_size.0 == input_plaintext_list@.len(),
        old(output_glwe_ciphertext).size() == glwe_secret_key.dimension() + 1,
        old(output_glwe_ciphertext).polynomial_size == glwe_secret_key.polynomial_size,
        old(generator).mask.pending().len() >= glwe_mask_bytes(glwe_secret_key@),
        old(generator).noise.pending().len() >= glwe_noise_bytes::<T, D>(
            *noise_distribution,
            glwe_secret_key.polynomial_size.0 as int,
        ),
    ensures
        final(output_glwe_ciphertext).wf(),
        final(output_glwe_ciphertext).polynomial_size == old(
            output_glwe_ciphertext,
        ).polynomial_size,
        final(output_glwe_ciphertext).size() == old(output_glwe_ciphertext).size(),
        final(output_glwe_ciphertext)@ == glwe_encryption(
            glwe_secret_key@,
            glwe_secret_key.polynomial_size.0 as int,
            input_plaintext_list@,
            old(generator).mask.pending(),
            noise_samples(
                *noise_distribution,
                old(generator).noise.pending(),
                glwe_secret_key.polynomial_size.0 as int,
            ),
        ),
        final(generator).mask.pending() == old(generator).mask.pending().skip(
            glwe_mask_bytes(glwe_secret_key@),
        ),
        final(generator).noise.pending() == old(generator).noise.pending().skip(
            glwe_noise_bytes::<T, D>(*noise_distribution, glwe_secret_key.polynomial_size.0 as int),
        ),
{
    proof {
        lemma_shapes_agree(
            glwe_secret_key@.len() as int,
            output_glwe_ciphertext@.len() as int,
            glwe_secret_key.polynomial_size.0 as int,
        );
    }
    encrypt_glwe_slice(
        glwe_secret_key.data.as_slice(),
        glwe_secret_key.polynomial_size.0,
        input_plaintext_list.data.as_slice(),
        output_glwe_ciphertext.data.as_mut_slice(),
        noise_distribution,
        generator,
    );
}

/// Decrypts `input_glwe_ciphertext` into `output_plaintext_list`: the
/// plaintext that was encrypted, plus the noise of the encryption.
pub fn decrypt_glwe_ciphertext<T: UnsignedTorus>(
    glwe_secret_key: &GlweSecretKey<T>,
    input_glwe_ciphertext: &GlweCiphertext<T>,
    output_plaintext_list: &mut PlaintextList<T>,
)
    requires
        glwe_secret_key.wf(),
        input_glwe_ciphertext.wf(),
        old(output_plaintext_list)@.len() == input_glwe_ciphertext.polynomial_size.0,
        glwe_secret_key.dimension() + 1 == input_glwe_ciphertext.size(),
        glwe_secret_key.polynomial_size == input_glwe_ciphertext.polynomial_size,
    ensures
        final(output_plaintext_list)@ == glwe_decryption(
            glwe_secret_key@,
            glwe_secret_key.polynomial_size.0 as int,
            input_glwe_ciphertext@,
        ),
{
    proof {
        lemma_shapes_agree(
            glwe_secret_key@.len() as int,
            input_glwe_ciphertext@.len() as int,
            glwe_secret_key.polynomial_size.0 as int,
        );
    }
    decrypt_glwe_slice(
        glwe_secret_key.data.as_slice(),
        glwe_secret_key.polynomial_size.0,
        input_glwe_ciphertext.data.as_slice(),
        output_plaintext_list.data.as_mut_slice(),
    );
}

/// Encrypts each run of `N` plaintexts of `input_plaintext_list` into the
/// ciphertext of the same index of `output_glwe_ciphertext_list`, in the
/// order of the list and from one pair of generators: each ciphertext takes
/// its mask and its noise from where the one before it left the generators.
pub fn encrypt_glwe_ciphertext_list<
    T: UnsignedTorus,
    G: ByteRandomGenerator,
    D: NoiseDistribution<T>,
>(
    glwe_secret_key: &GlweSecretKey<T>,
    input_plaintext_list: &PlaintextList<T>,
    output_glwe_ciphertext_list: &mut GlweCiphertextList<T>,
    noise_distribution: &D,
    generator: &mut EncryptionRandomGenerator<G>,
)
    requires
        glwe_secret_key.wf(),
        old(output_glwe_ciphertext_list).wf(),
        old(output_glwe_ciphertext_list).polynomial_size.0 * old(
            output_glwe_ciphertext_list,
        ).count() == input_plaintext_list@.len(),
        old(output_glwe_ciphertext_list).glwe_size.0 == glwe_secret_key.dimension() + 1,
        old(output_glwe_ciphertext_list).polynomial_size == glwe_secret_key.polynomial_size,
        old(generator).mask.pending().len() >= old(output_glwe_ciphertext_list).count()
            * glwe_mask_bytes(glwe_secret_key@),
        old(generator).noise.pending().len() >= old(output_glwe_ciphertext_list).count()
            * glwe_noise_bytes::<T, D>(
            *noise_distribution,
            glwe_secret_key.polynomial_size.0 as int,
        ),
    ensures
        final(output_glwe_ciphertext_list).wf(),
        final(output_glwe_ciphertext_list).polynomial_size == old(
            output_glwe_ciphertext_list,
        ).polynomial_size,
        final(output_glwe_ciphertext_list).glwe_size == old(output_glwe_ciphertext_list).glwe_size,
        final(output_glwe_ciphertext_list).count() == old(output_glwe_ciphertext_list).count(),
        final(output_glwe_ciphertext_list)@ == glwe_list_encryption(
            glwe_secret_key@,
            glwe_secret_key.polynomial_size.0 as int,
            input_plaintext_list@,
            old(generator).mask.pending(),
            old(generator).noise.pending(),
            *noise_distribution,
            old(output_glwe_ciphertext_list).count() as int,
        ),
        final(generator).mask.pending() == old(generator).mask.pending().skip(
            old(output_glwe_ciphertext_list).count() * glwe_mask_bytes(glwe_secret_key@),
        ),
        final(generator).noise.pending() == old(generator).noise.pending().skip(
            old(output_glwe_ciphertext_list).count() * glwe_noise_bytes::<T, D>(
                *noise_distribution,
                glwe_secret_key.polynomial_size.0 as int,
            ),
        ),
{
    let n: usize = glwe_secret_key.polynomial_size.0;
    let ghost key = glwe_secret_key@;
    let ghost total = output_glwe_ciphertext_list.count() as int;
    let ghost mask_stream = generator.mask.pending();
    let ghost noise_stream = generator.noise.pending();
    let ghost mask_bytes = glwe_mask_bytes(key);
    let ghost noise_bytes = glwe_noise_bytes::<T, D>(*noise_distribution, n as int);
    proof {
        lemma_list_shape(
            key.len() as int,
            n as int,
            output_glwe_ciphertext_list.glwe_size.0 as int,
            output_glwe_ciphertext_list@.len() as int,
        );
        assert(mask_stream.skip(0) =~= mask_stream);
        assert(noise_stream.skip(0) =~= noise_stream);
        T::lemma_bits();
        assert(mask_bytes >= 0) by (nonlinear_arith)
            requires
                mask_bytes == key.len() * scalar_bytes::<T>(),
                scalar_bytes::<T>() >= 0,
        ;
        assert(noise_bytes >= 0) by (nonlinear_arith)
            requires
                noise_bytes == n * noise_distribution.sample_bytes(),
        ;
    }
    let ciphertext_len: usize = glwe_secret_key.data.len() + n;
    let count: usize = output_glwe_ciphertext_list.data.len() / ciphertext_len;
    proof {
        assert(n * count == count * n) by (nonlinear_arith);
        assert(input_plaintext_list.data.len() == input_plaintext_list@.len());
    }
    let mut i: usize = 0;
    let mut ciphertext_start: usize = 0;
    let mut plaintext_start: usize = 0;
    while i < count
        invariant
            i <= count,
            count == total,
            n > 0,
            n == glwe_secret_key.polynomial_size.0,
            key == glwe_secret_key@,
            key.len() % (n as nat) == 0,
            ciphertext_len == key.len() + n,
            output_glwe_ciphertext_list@.len() == count * ciphertext_len,
            output_glwe_ciphertext_list@.len() <= usize::MAX,
            input_plaintext_list@.len() == count * n,
            input_plaintext_list@.len() <= usize::MAX,
            output_glwe_ciphertext_list.polynomial_size == old(
                output_glwe_ciphertext_list,
            ).polynomial_size,
            output_glwe_ciphertext_list.glwe_size == old(output_glwe_ciphertext_list).glwe_size,
            ciphertext_start == i * ciphertext_len,
            plaintext_start == i * n,
            mask_bytes == glwe_mask_bytes(key),
            noise_bytes == glwe_noise_bytes::<T, D>(*noise_distribution, n as int),
            0 <= mask_bytes,
            0 <= noise_bytes,
            mask_stream.len() >= count * mask_bytes,
            noise_stream.len() >= count * noise_bytes,
            generator.mask.pending() == mask_stream.skip(i * mask_bytes),
            generator.noise.pending() == noise_stream.skip(i * noise_bytes),
            output_glwe_ciphertext_list@.subrange(0, ciphertext_start as int)
                == glwe_list_encryption(
                key,
                n as int,
                input_plaintext_list@,
                mask_stream,
                noise_stream,
                *noise_distribution,
                i as int,
            ),
        decreases count - i,
    {
        proof {
            lemma_sample_window(mask_stream, count as int, mask_bytes, i as int);
            lemma_sample_window(noise_stream, count as int, noise_bytes, i as int);
            lemma_chunk_bounds(count as int, ciphertext_len as int, i as int);
            lemma_chunk_bounds(count as int, n as int, i as int);
        }
        let ghost before = output_glwe_ciphertext_list@;
        let plaintext = vstd::slice::slice_subrange(
            input_plaintext_list.data.as_slice(),
            plaintext_start,
            plaintext_start + n,
        );
        let (_, tail) = output_glwe_ciphertext_list.data.as_mut_slice().split_at_mut(
            ciphertext_start,
        );
        let (chunk, _) = tail.split_at_mut(ciphertext_len);
        encrypt_glwe_slice(
            glwe_secret_key.data.as_slice(),
            n,
            plaintext,
            chunk,
            noise_distribution,
            generator,
        );
        proof {
            let after = output_glwe_ciphertext_list@;
            let done = glwe_list_encryption(
                key,
                n as int,
                input_plaintext_list@,
                mask_stream,
                noise_stream,
                *noise_distribution,
                i as int,
            );
            assert(after.subrange(0, ciphertext_start as int) =~= before.subrange(
                0,
                ciphertext_start as int,
            ));
            assert(after.subrange(0, ciphertext_start + ciphertext_len) =~= done + chunk@);
        }
        i += 1;
        ciphertext_start += ciphertext_len;
        plaintext_start += n;
    }
    proof {
        assert(output_glwe_ciphertext_list@.subrange(0, ciphertext_start as int)
            =~= output_glwe_ciphertext_list@);
    }
}

/// A list of ciphertexts under a key of `key_len` scalars is made of runs
/// of `key_len + n` scalars.
pub proof fn lemma_list_shape(key_len: int, n: int, glwe_size: int, list_len: int)
    requires
        0 < n,
        0 <= key_len,
        key_len % n == 0,
        glwe_size == key_len / n + 1,
        0 <= list_len,
        list_len % (glwe_size * n) == 0,
    ensures
        glwe_size * n == key_len + n,
        list_len == (list_len / (key_len + n)) * (key_len + n),
{
    vstd::arithmetic::div_mod::lemma_fundamental_div_mod(key_len, n);
    assert((key_len / n + 1) * n == n * (key_len / n) + n) by (nonlinear_arith);
    vstd::arithmetic::div_mod::lemma_fundamental_div_mod(list_len, key_len + n);
    assert((key_len + n) * (list_len / (key_len + n)) == (list_len / (key_len + n)) * (key_len
        + n)) by (nonlinear_arith);
}

/// Run `i` of `count` runs of `len` scalars lies inside the whole.
pub proof fn lemma_chunk_bounds(count: int, len: int, i: int)
    requires
        0 <= i < count,
        0 <= len,
    ensures
        0 <= i * len,
        i * len + len <= count * len,
        (i + 1) * len == i * len + len,
{
    assert(0 <= i * len && i * len + len <= count * len && (i + 1) * len == i * len + len)
        by (nonlinear_arith)
        requires
            0 <= i < count,
            0 <= len,
    ;
}

/// Decrypts each ciphertext of `input_glwe_ciphertext_list` into the run of
/// `N` plaintexts of the same index of `output_plaintext_list`.
pub fn decrypt_glwe_ciphertext_list<T: UnsignedTorus>(
    glwe_secret_key: &GlweSecretKey<T>,
    input_glwe_ciphertext_list: &GlweCiphertextList<T>,
    output_plaintext_list: &mut PlaintextList<T>,
)
    requires
        glwe_secret_key.wf(),
        input_glwe_ciphertext_list.wf(),
        old(output_plaintext_list)@.len() == input_glwe_ciphertext_list.polynomial_size.0
            * input_glwe_ciphertext_list.count(),
        glwe_secret_key.dimension() + 1 == input_glwe_ciphertext_list.glwe_size.0,
        glwe_secret_key.polynomial_size == input_glwe_ciphertext_list.polynomial_size,
    ensures
        final(output_plaintext_list)@ == glwe_list_decryption(
            glwe_secret_key@,
            glwe_secret_key.polynomial_size.0 as int,
            input_glwe_ciphertext_list@,
            input_glwe_ciphertext_list.count() as int,
        ),
{
    let n: usize = glwe_secret_key.polynomial_size.0;
    let ghost key = glwe_secret_key@;
    proof {
        lemma_list_shape(
            key.len() as int,
            n as int,
            input_glwe_ciphertext_list.glwe_size.0 as int,
            input_glwe_ciphertext_list@.len() as int,
        );
    }
    let ciphertext_len: usize = glwe_secret_key.data.len() + n;
    let count: usize = input_glwe_ciphertext_list.data.len() / ciphertext_len;
    proof {
        assert(n * count == count * n) by (nonlinear_arith);
        assert(output_plaintext_list.data.len() == output_plaintext_list@.len());
    }
    let mut i: usize = 0;
    let mut ciphertext_start: usize = 0;
    let mut plaintext_start: usize = 0;
    while i < count
        invariant
            i <= count,
            count == input_glwe_ciphertext_list.count(),
            n > 0,
            key == glwe_secret_key@,
            key.len() % (n as nat) == 0,
            ciphertext_len == key.len() + n,
            input_glwe_ciphertext_list@.len() == count * ciphertext_len,
            input_glwe_ciphertext_list@.len() <= usize::MAX,
            output_plaintext_list@.len() == count * n,
            output_plaintext_list@.len() <= usize::MAX,
            ciphertext_start == i * ciphertext_len,
            plaintext_start == i * n,
            output_plaintext_list@.subrange(0, plaintext_start as int) == glwe_list_decryption(
                key,
                n as int,
                input_glwe_ciphertext_list@,
                i as int,
            ),
        decreases count - i,
    {
        proof {
            lemma_chunk_bounds(count as int, ciphertext_len as int, i as int);
            lemma_chunk_bounds(count as int, n as int, i as int);
        }
        let ghost before = output_plaintext_list@;
        let ciphertext = vstd::slice::slice_subrange(
            input_glwe_ciphertext_list.data.as_slice(),
            ciphertext_start,
            ciphertext_start + ciphertext_len,
        );
        let (_, tail) = output_plaintext_list.data.as_mut_slice().split_at_mut(plaintext_start);
        let (chunk, _) = tail.split_at_mut(n);
        decrypt_glwe_slice(glwe_secret_key.data.as_slice(), n, ciphertext, chunk);
        proof {
            let after = output_plaintext_list@;
            let done = glwe_list_decryption(key, n as int, input_glwe_ciphertext_list@, i as int);
            assert(after.subrange(0, plaintext_start as int) =~= before.subrange(
                0,
                plaintext_start as int,
            ));
            assert(after.subrange(0, plaintext_start + n) =~= done + chunk@);
        }
        i += 1;
        ciphertext_start += ciphertext_len;
        plaintext_start += n;
    }
    proof {
        assert(output_plaintext_list@.subrange(0, plaintext_start as int)
            =~= output_plaintext_list@);
    }
}

/// Writes into `output` the trivial encryption of `encoded`: a mask of
/// zeros and the plaintext as the body, without noise.
///
/// A trivial encryption hides nothing: every key decrypts it. It brings
/// public data into the shape of a ciphertext.
pub fn trivially_encrypt_glwe_ciphertext<T: UnsignedTorus>(
    output: &mut GlweCiphertext<T>,
    encoded: &PlaintextList<T>,
)
    requires
        old(output).wf(),
        encoded@.len() == old(output).polynomial_size.0,
    ensures
        final(output).wf(),
        final(output).polynomial_size == old(output).polynomial_size,
        final(output).size() == old(output).size(),
        final(output)@ == glwe_trivial_encryption(old(output).mask_len(), encoded@),
{
    let n: usize = output.polynomial_size.0;
    let mask_len: usize = output.data.len() - n;
    let zero = zero::<T>();
    let (mask, body) = output.data.as_mut_slice().split_at_mut(mask_len);
    let mut i: usize = 0;
    while i < mask_len
        invariant
            i <= mask_len,
            mask@.len() == mask_len,
            zero == T::from_value(0),
            forall|j: int| 0 <= j < i ==> mask@[j] == zero,
        decreases mask_len - i,
    {
        mask[i] = zero;
        i += 1;
    }
    let mut i: usize = 0;
    while i < n
        invariant
            i <= n,
            body@.len() == n,
            encoded@.len() == n,
            forall|j: int| 0 <= j < i ==> body@[j] == encoded@[j],
        decreases n - i,
    {
        body[i] = encoded.data[i];
        i += 1;
    }
    proof {
        assert(mask@ + body@ =~= glwe_trivial_encryption(mask_len as int, encoded@));
    }
}

/// A new ciphertext of `glwe_size` polynomials of `encoded.len()`
/// coefficients that holds the trivial encryption of `encoded`.
pub fn allocate_and_trivially_encrypt_new_glwe_ciphertext<T: UnsignedTorus>(
    glwe_size: GlweSize,
    encoded: &PlaintextList<T>,
) -> (ciphertext: GlweCiphertext<T>)
    requires
        glwe_size.0 > 0,
        encoded@.len() > 0,
        glwe_size.0 * encoded@.len() <= usize::MAX,
    ensures
        ciphertext.wf(),
        ciphertext.polynomial_size.0 == encoded@.len(),
        ciphertext.size() == glwe_size.0,
        ciphertext@ == glwe_trivial_encryption(
            (glwe_size.0 - 1) * encoded@.len(),
            encoded@,
        ),
{
    let polynomial_size = PolynomialSize(encoded.data.len());
    let zero = zero::<T>();
    proof {
        assert(glwe_size.0 * encoded@.len() - encoded@.len() == (glwe_size.0 - 1) * encoded@.len())
            by (nonlinear_arith);
    }
    let mut ciphertext = GlweCiphertext::new(zero, glwe_size, polynomial_size);
    let n: usize = polynomial_size.0;
    let mask_len: usize = ciphertext.data.len() - n;
    let (mask, body) = ciphertext.data.as_mut_slice().split_at_mut(mask_len);
    let mut i: usize = 0;
    while i < n
        invariant
            i <= n,
            body@.len() == n,
            encoded@.len() == n,
            forall|j: int| 0 <= j < i ==> body@[j] == encoded@[j],
        decreases n - i,
    {
        body[i] = encoded.data[i];
        i += 1;
    }
    proof {
        assert(mask@ + body@ =~= glwe_trivial_encryption(mask_len as int, encoded@));
        lemma_whole_polynomials(glwe_size.0 as int, n as int);
    }
    ciphertext
}

} // verus!
