//! What holds of GLWE encryption and decryption together.

use crate::decomposition::{
    closest_representable_value, decomposition_fits, lemma_rounding_recovers,
};
use crate::glwe_encryption::{
    glwe_body, glwe_decryption, glwe_encryption, glwe_list_encryption, glwe_mask_bytes,
    glwe_noise_bytes, glwe_trivial_encryption,
};
use crate::polynomial::{
    inner_product_coefficient, multisum_coefficient, negacyclic_sum, negacyclic_term, polynomial_at,
    polynomial_sum,
};
use crate::random::{
    noise_samples, uniform_scalars, ByteRandomGenerator, EncryptionRandomGenerator,
    NoiseDistribution,
};
use crate::t_uniform::{lemma_t_uniform_sample_distance, TUniform};
use crate::torus::{
    lemma_congruent_add, lemma_congruent_reduce, lemma_congruent_refl, lemma_congruent_trans,
    lemma_modulus, lemma_reduce_add, lemma_reduce_of, lemma_signed_residue, modulus, reduce,
    signed_residue, torus_distance, wrapped_add, wrapped_sub, UnsignedTorus,
};
use vstd::arithmetic::div_mod::{lemma_fundamental_div_mod, lemma_small_mod};
use vstd::arithmetic::power2::pow2;
use vstd::prelude::*;

verus! {

/// Decryption undoes encryption up to the noise: decrypting, under the same
/// key, the encryption of `plaintext` with the noise `noise` gives
/// `plaintext + noise`, whatever the mask.
pub proof fn lemma_decryption_of_encryption<T: UnsignedTorus>(
    key: Seq<T>,
    n: int,
    plaintext: Seq<T>,
    mask_stream: Seq<u8>,
    noise: Seq<T>,
)
    requires
        n > 0,
        plaintext.len() == n,
        noise.len() == n,
    ensures
        glwe_decryption(key, n, glwe_encryption(key, n, plaintext, mask_stream, noise))
            == polynomial_sum(plaintext, noise),
{
    let mask = uniform_scalars::<T>(mask_stream, key.len() as int);
    let body = glwe_body(key, n, mask, plaintext, noise);
    let ciphertext = glwe_encryption(key, n, plaintext, mask_stream, noise);
    let decrypted = glwe_decryption(key, n, ciphertext);
    assert(ciphertext.subrange(0, key.len() as int) =~= mask);
    assert forall|i: int| 0 <= i < n implies decrypted[i] == polynomial_sum(
        plaintext,
        noise,
    )[i] by {
        let m = inner_product_coefficient(mask, key, n, i);
        assert(ciphertext[key.len() + i] == body[i]);
        lemma_reduce_add::<T>(noise[i].value() + plaintext[i].value() + m, -m);
    }
    assert(decrypted =~= polynomial_sum(plaintext, noise));
}

/// Adding a scalar and taking the sum's difference from the first gives the
/// scalar back.
pub proof fn lemma_add_then_sub<T: UnsignedTorus>(a: T, e: T)
    ensures
        wrapped_sub(wrapped_add(a, e), a) == e,
{
    lemma_modulus::<T>();
    lemma_reduce_add::<T>(a.value() + e.value(), -a.value());
    e.lemma_value();
    lemma_small_mod(e.value() as nat, modulus::<T>() as nat);
    lemma_reduce_of(e, e.value());
}

/// With noise of TUniform(b), each decrypted coefficient is at most `2^b`
/// away from the coefficient that was encrypted, as a distance on the
/// torus.
pub proof fn lemma_decryption_error_of_t_uniform<T: UnsignedTorus>(
    key: Seq<T>,
    n: int,
    plaintext: Seq<T>,
    mask_stream: Seq<u8>,
    noise_stream: Seq<u8>,
    distribution: TUniform<T>,
    i: int,
)
    requires
        n > 0,
        plaintext.len() == n,
        0 <= i < n,
        distribution.log2_bound() + 2 <= T::bits(),
    ensures
        torus_distance(
            wrapped_sub(
                glwe_decryption(
                    key,
                    n,
                    glwe_encryption(
                        key,
                        n,
                        plaintext,
                        mask_stream,
                        noise_samples(distribution, noise_stream, n),
                    ),
                )[i],
                plaintext[i],
            ),
        ) <= pow2(distribution.log2_bound()),
{
    let noise = noise_samples(distribution, noise_stream, n);
    lemma_decryption_of_encryption(key, n, plaintext, mask_stream, noise);
    lemma_add_then_sub(plaintext[i], noise[i]);
    let w = distribution.sample_bytes() as int;
    lemma_t_uniform_sample_distance(distribution, noise_stream.subrange(i * w, i * w + w));
}

/// With noise of TUniform(b), rounding takes the noise away. Where the
/// plaintext coefficients are multiples of the least significant bit that a
/// decomposition keeps, and `2^b` is less than half of that bit, each
/// decrypted coefficient rounds to the coefficient that was encrypted, bit
/// for bit.
pub proof fn lemma_rounded_decryption_of_t_uniform<T: UnsignedTorus>(
    key: Seq<T>,
    n: int,
    plaintext: Seq<T>,
    mask_stream: Seq<u8>,
    noise_stream: Seq<u8>,
    distribution: TUniform<T>,
    base_log: nat,
    level_count: nat,
    i: int,
)
    requires
        n > 0,
        plaintext.len() == n,
        0 <= i < n,
        distribution.log2_bound() + 2 <= T::bits(),
        decomposition_fits::<T>(base_log, level_count),
        plaintext[i].value() % (pow2((T::bits() - base_log * level_count) as nat) as int) == 0,
        2 * pow2(distribution.log2_bound()) < pow2((T::bits() - base_log * level_count) as nat),
    ensures
        reduce::<T>(
            closest_representable_value::<T>(
                glwe_decryption(
                    key,
                    n,
                    glwe_encryption(
                        key,
                        n,
                        plaintext,
                        mask_stream,
                        noise_samples(distribution, noise_stream, n),
                    ),
                )[i].value(),
                base_log,
                level_count,
            ),
        ) == plaintext[i],
{
    let noise = noise_samples(distribution, noise_stream, n);
    let decrypted = glwe_decryption(
        key,
        n,
        glwe_encryption(key, n, plaintext, mask_stream, noise),
    );
    let p = plaintext[i];
    let e = noise[i];
    lemma_decryption_of_encryption(key, n, plaintext, mask_stream, noise);
    assert(decrypted[i] == wrapped_add(p, e));
    let w = distribution.sample_bytes() as int;
    lemma_t_uniform_sample_distance(distribution, noise_stream.subrange(i * w, i * w + w));
    lemma_signed_residue(e);
    lemma_congruent_reduce::<T>(p.value() + e.value());
    lemma_congruent_refl::<T>(p.value());
    lemma_congruent_add::<T>(p.value(), p.value(), e.value(), signed_residue(e));
    lemma_congruent_trans::<T>(
        decrypted[i].value(),
        p.value() + e.value(),
        p.value() + signed_residue(e),
    );
    p.lemma_value();
    lemma_rounding_recovers::<T>(
        decrypted[i],
        base_log,
        level_count,
        p.value(),
        signed_residue(e),
    );
    lemma_modulus::<T>();
    lemma_small_mod(p.value() as nat, modulus::<T>() as nat);
    lemma_reduce_of(p, p.value());
}

/// A polynomial of zeros times any polynomial is zero.
proof fn lemma_zero_product<T: UnsignedTorus>(lhs: Seq<T>, rhs: Seq<T>, i: int, t: int)
    requires
        0 <= t <= lhs.len(),
        forall|j: int| 0 <= j < lhs.len() ==> lhs[j].value() == 0,
    ensures
        negacyclic_sum(lhs, rhs, i, t) == 0,
    decreases t,
{
    if t > 0 {
        lemma_zero_product(lhs, rhs, i, t - 1);
        assert(negacyclic_term(lhs, rhs, i, t - 1) == 0) by (nonlinear_arith)
            requires
                lhs[t - 1].value() == 0,
                negacyclic_term(lhs, rhs, i, t - 1) == if t - 1 <= i {
                    lhs[t - 1].value() * rhs[i - (t - 1)].value()
                } else {
                    -(lhs[t - 1].value() * rhs[lhs.len() + i - (t - 1)].value())
                },
        ;
    }
}

/// The inner product of a list of zero polynomials with any list is zero.
proof fn lemma_zero_multisum<T: UnsignedTorus>(
    lhs: Seq<T>,
    rhs: Seq<T>,
    n: int,
    i: int,
    count: int,
)
    requires
        n > 0,
        0 <= count,
        count * n <= lhs.len(),
        forall|j: int| 0 <= j < lhs.len() ==> lhs[j].value() == 0,
    ensures
        multisum_coefficient(lhs, rhs, n, i, count) == 0,
    decreases count,
{
    if count > 0 {
        assert((count - 1) * n >= 0 && (count - 1) * n + n == count * n) by (nonlinear_arith)
            requires
                count > 0,
                n > 0,
        ;
        lemma_zero_multisum(lhs, rhs, n, i, count - 1);
        let a = polynomial_at(lhs, n, count - 1);
        let b = polynomial_at(rhs, n, count - 1);
        lemma_zero_product(a, b, i, a.len() as int);
    }
}

/// Every key decrypts a trivial encryption to its plaintext, bit for bit.
pub proof fn lemma_decryption_of_trivial_encryption<T: UnsignedTorus>(
    key: Seq<T>,
    n: int,
    plaintext: Seq<T>,
)
    requires
        n > 0,
        plaintext.len() == n,
        key.len() % (n as nat) == 0,
    ensures
        glwe_decryption(key, n, glwe_trivial_encryption(key.len() as int, plaintext)) == plaintext,
{
    let ciphertext = glwe_trivial_encryption(key.len() as int, plaintext);
    let mask = ciphertext.subrange(0, key.len() as int);
    let decrypted = glwe_decryption(key, n, ciphertext);
    lemma_modulus::<T>();
    T::lemma_from_value(0);
    lemma_fundamental_div_mod(key.len() as int, n);
    assert((key.len() as int / n) * n == n * (key.len() as int / n)) by (nonlinear_arith);
    assert forall|i: int| 0 <= i < n implies decrypted[i] == plaintext[i] by {
        lemma_zero_multisum(mask, key, n, i, mask.len() as int / n);
        let p = plaintext[i];
        assert(ciphertext[key.len() + i] == p);
        p.lemma_value();
        lemma_small_mod(p.value() as nat, modulus::<T>() as nat);
        lemma_reduce_of(p, p.value());
    }
    assert(decrypted =~= plaintext);
}

/// The encryptions of the first `count` runs of plaintexts are `count`
/// ciphertexts long.
pub proof fn lemma_list_encryption_len<T: UnsignedTorus, D: NoiseDistribution<T>>(
    key: Seq<T>,
    n: int,
    plaintexts: Seq<T>,
    mask_stream: Seq<u8>,
    noise_stream: Seq<u8>,
    distribution: D,
    count: int,
)
    requires
        n >= 0,
        count >= 0,
    ensures
        glwe_list_encryption(
            key,
            n,
            plaintexts,
            mask_stream,
            noise_stream,
            distribution,
            count,
        ).len()
            == count * (key.len() + n),
    decreases count,
{
    if count > 0 {
        lemma_list_encryption_len(
            key,
            n,
            plaintexts,
            mask_stream,
            noise_stream,
            distribution,
            count - 1,
        );
        assert((count - 1) * (key.len() + n) + (key.len() + n) == count * (key.len() + n))
            by (nonlinear_arith);
    }
}

/// Encrypting a list is encrypting its runs one by one, in order, from the
/// same pair of generators: ciphertext `i` of the list is the encryption of
/// run `i` of the plaintexts, with the mask and the noise taken from where
/// the `i` ciphertexts before it left the two streams.
pub proof fn lemma_list_encryption_is_chunkwise<T: UnsignedTorus, D: NoiseDistribution<T>>(
    key: Seq<T>,
    n: int,
    plaintexts: Seq<T>,
    mask_stream: Seq<u8>,
    noise_stream: Seq<u8>,
    distribution: D,
    count: int,
    i: int,
)
    requires
        n >= 0,
        0 <= i < count,
    ensures
        glwe_list_encryption(
            key,
            n,
            plaintexts,
            mask_stream,
            noise_stream,
            distribution,
            count,
        ).subrange(i * (key.len() + n), i * (key.len() + n) + (key.len() + n)) == glwe_encryption(
            key,
            n,
            plaintexts.subrange(i * n, i * n + n),
            mask_stream.skip(i * glwe_mask_bytes(key)),
            noise_samples(
                distribution,
                noise_stream.skip(i * glwe_noise_bytes::<T, D>(distribution, n)),
                n,
            ),
        ),
    decreases count,
{
    let len = key.len() + n;
    let whole = glwe_list_encryption(
        key,
        n,
        plaintexts,
        mask_stream,
        noise_stream,
        distribution,
        count,
    );
    let before = glwe_list_encryption(
        key,
        n,
        plaintexts,
        mask_stream,
        noise_stream,
        distribution,
        count - 1,
    );
    lemma_list_encryption_len(
        key,
        n,
        plaintexts,
        mask_stream,
        noise_stream,
        distribution,
        count - 1,
    );
    assert(0 <= i * len && i * len + len <= (count - 1) * len + len) by (nonlinear_arith)
        requires
            0 <= i < count,
            0 <= len,
    ;
    if i == count - 1 {
        assert(whole.subrange(i * len, i * len + len) =~= glwe_encryption(
            key,
            n,
            plaintexts.subrange(i * n, i * n + n),
            mask_stream.skip(i * glwe_mask_bytes(key)),
            noise_samples(
                distribution,
                noise_stream.skip(i * glwe_noise_bytes::<T, D>(distribution, n)),
                n,
            ),
        ));
    } else {
        lemma_list_encryption_is_chunkwise(
            key,
            n,
            plaintexts,
            mask_stream,
            noise_stream,
            distribution,
            count - 1,
            i,
        );
        assert(i * len + len <= (count - 1) * len) by (nonlinear_arith)
            requires
                0 <= i < count - 1,
                0 <= len,
        ;
        assert(whole.subrange(i * len, i * len + len) =~= before.subrange(
            i * len,
            i * len + len,
        ));
    }
}

/// Generators that were made from the same pair of seeds give the same
/// ciphertext, mask and body: an encryption is a function of the key, the
/// plaintext, the distribution and the two seeds.
pub proof fn lemma_same_seeds_same_ciphertext<
    T: UnsignedTorus,
    G: ByteRandomGenerator,
    D: NoiseDistribution<T>,
>(
    first: EncryptionRandomGenerator<G>,
    second: EncryptionRandomGenerator<G>,
    mask_seed: u128,
    noise_seed: u128,
    key: Seq<T>,
    n: int,
    plaintext: Seq<T>,
    distribution: D,
)
    requires
        first.mask.pending() == G::seeded(mask_seed),
        first.noise.pending() == G::seeded(noise_seed),
        second.mask.pending() == G::seeded(mask_seed),
        second.noise.pending() == G::seeded(noise_seed),
    ensures
        glwe_encryption(
            key,
            n,
            plaintext,
            first.mask.pending(),
            noise_samples(distribution, first.noise.pending(), n),
        ) == glwe_encryption(
            key,
            n,
            plaintext,
            second.mask.pending(),
            noise_samples(distribution, second.noise.pending(), n),
        ),
{
}

} // verus!
