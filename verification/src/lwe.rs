//! LWE ciphertexts: a mask of `n` uniform scalars and one scalar of body,
//! `b = <a, s> + plaintext + noise`.

use crate::random::{
    scalar_bytes, uniform_scalars, ByteRandomGenerator, EncryptionRandomGenerator,
    NoiseDistribution, RandomGenerator,
};
use crate::torus::{lemma_reduce_add, lemma_reduce_of, reduce, zero, UnsignedTorus};
use vstd::prelude::*;

verus! {

/// The number `n` of scalars of an LWE secret key, and of the mask of an
/// LWE ciphertext.
#[derive(Clone, Copy, Debug, PartialEq, Eq)]
pub struct LweDimension(pub usize);

/// The number `n + 1` of scalars of an LWE ciphertext.
#[derive(Clone, Copy, Debug, PartialEq, Eq)]
pub struct LweSize(pub usize);

/// The modulus that the scalars of a ciphertext are read by: `0` stands
/// for the native modulus `2^W`, another value for itself.
#[derive(Clone, Copy, Debug, PartialEq, Eq)]
pub struct CiphertextModulus(pub u128);

impl CiphertextModulus {
    /// The native modulus `2^W`.
    pub fn new_native() -> (modulus: Self)
        ensures
            modulus.0 == 0,
    {
        CiphertextModulus(0)
    }
}

impl LweSize {
    /// The dimension of the keys that ciphertexts of this size are made
    /// with.
    pub fn to_lwe_dimension(&self) -> (dimension: LweDimension)
        requires
            self.0 > 0,
        ensures
            dimension.0 == self.0 - 1,
    {
        LweDimension(self.0 - 1)
    }
}

impl LweDimension {
    /// The size of the ciphertexts that keys of this dimension make.
    pub fn to_lwe_size(&self) -> (size: LweSize)
        requires
            self.0 < usize::MAX,
        ensures
            size.0 == self.0 + 1,
    {
        LweSize(self.0 + 1)
    }
}

/// An LWE secret key: `n` scalars.
pub struct LweSecretKey<T: UnsignedTorus> {
    /// The scalars of the key.
    pub data: Vec<T>,
}

impl<T: UnsignedTorus> View for LweSecretKey<T> {
    type V = Seq<T>;

    open spec fn view(&self) -> Seq<T> {
        self.data@
    }
}

impl<T: UnsignedTorus> LweSecretKey<T> {
    /// Every scalar of the key is 0 or 1.
    pub open spec fn is_binary(&self) -> bool {
        forall|i: int| 0 <= i < self@.len() ==> self@[i].value() == 0 || self@[i].value() == 1
    }

    /// The key of the scalars of `container`.
    pub fn from_container(container: Vec<T>) -> (key: Self)
        ensures
            key@ == container@,
    {
        LweSecretKey { data: container }
    }

    /// The number `n` of scalars of the key.
    pub fn lwe_dimension(&self) -> (dimension: LweDimension)
        ensures
            dimension.0 == self@.len(),
    {
        LweDimension(self.data.len())
    }
}

/// A fresh binary LWE secret key: each scalar is the low bit of the next
/// byte of `generator`.
pub fn allocate_and_generate_new_binary_lwe_secret_key<T: UnsignedTorus, G: ByteRandomGenerator>(
    lwe_dimension: LweDimension,
    generator: &mut RandomGenerator<G>,
) -> (key: LweSecretKey<T>)
    requires
        old(generator).pending().len() >= lwe_dimension.0,
    ensures
        key.is_binary(),
        key@.len() == lwe_dimension.0,
        forall|i: int|
            0 <= i < key@.len() ==> key@[i].value() == old(generator).pending()[i] as int % 2,
        final(generator).pending() == old(generator).pending().skip(lwe_dimension.0 as int),
{
    let count: usize = lwe_dimension.0;
    let mut data: Vec<T> = Vec::new();
    let mut i: usize = 0;
    proof {
        assert(generator.pending().skip(0) =~= generator.pending());
        crate::torus::lemma_modulus::<T>();
    }
    while i < count
        invariant
            i <= count,
            data@.len() == i,
            old(generator).pending().len() >= count,
            generator.pending() == old(generator).pending().skip(i as int),
            crate::torus::modulus::<T>() >= 256,
            forall|j: int|
                0 <= j < i ==> data@[j].value() == old(generator).pending()[j] as int % 2,
        decreases count - i,
    {
        let byte = generator.generate_next();
        let bit = T::from_u128((byte % 2) as u128);
        data.push(bit);
        proof {
            assert(old(generator).pending().skip(i as int).drop_first() =~= old(
                generator,
            ).pending().skip(i + 1));
        }
        i += 1;
    }
    LweSecretKey { data }
}

/// An LWE ciphertext: the `n` scalars of the mask, then the body.
pub struct LweCiphertext<T: UnsignedTorus> {
    /// The scalars of the mask, then the body.
    pub data: Vec<T>,
    /// The modulus that the scalars are read by.
    pub ciphertext_modulus: CiphertextModulus,
}

impl<T: UnsignedTorus> View for LweCiphertext<T> {
    type V = Seq<T>;

    open spec fn view(&self) -> Seq<T> {
        self.data@
    }
}

impl<T: UnsignedTorus> LweCiphertext<T> {
    /// The ciphertext has a body.
    pub open spec fn wf(&self) -> bool {
        self.data@.len() >= 1
    }

    /// A ciphertext of `lwe_size` scalars, each equal to `fill`.
    pub fn new(fill: T, lwe_size: LweSize, ciphertext_modulus: CiphertextModulus) -> (ciphertext:
        Self)
        requires
            lwe_size.0 > 0,
        ensures
            ciphertext.wf(),
            ciphertext@ == Seq::new(lwe_size.0 as nat, |i: int| fill),
            ciphertext.ciphertext_modulus == ciphertext_modulus,
    {
        LweCiphertext { data: crate::entities::filled(fill, lwe_size.0), ciphertext_modulus }
    }

    /// The ciphertext of the scalars of `container`.
    pub fn from_container(container: Vec<T>, ciphertext_modulus: CiphertextModulus) -> (ciphertext:
        Self)
        requires
            container@.len() > 0,
        ensures
            ciphertext.wf(),
            ciphertext@ == container@,
            ciphertext.ciphertext_modulus == ciphertext_modulus,
    {
        LweCiphertext { data: container, ciphertext_modulus }
    }

    /// The number `n + 1` of scalars of the ciphertext.
    pub fn lwe_size(&self) -> (size: LweSize)
        ensures
            size.0 == self@.len(),
    {
        LweSize(self.data.len())
    }

    /// The modulus that the scalars are read by.
    pub fn ciphertext_modulus(&self) -> (modulus: CiphertextModulus)
        ensures
            modulus == self.ciphertext_modulus,
    {
        self.ciphertext_modulus
    }
}

/// The sum of the products of the first `count` scalars of `lhs` with
/// those of `rhs`, as an integer that is yet to be reduced modulo `q`.
pub open spec fn dot_product<T: UnsignedTorus>(lhs: Seq<T>, rhs: Seq<T>, count: int) -> int
    decreases count,
{
    if count <= 0 {
        0
    } else {
        dot_product(lhs, rhs, count - 1) + lhs[count - 1].value() * rhs[count - 1].value()
    }
}

/// The encryption of `plaintext` under `key` with the given noise: the mask
/// is drawn from the front of `mask_stream`, the body is
/// `<mask, key> + plaintext + noise`.
pub open spec fn lwe_encryption<T: UnsignedTorus>(
    key: Seq<T>,
    plaintext: T,
    mask_stream: Seq<u8>,
    noise: T,
) -> Seq<T> {
    let mask = uniform_scalars::<T>(mask_stream, key.len() as int);
    mask.push(
        reduce(dot_product(mask, key, key.len() as int) + plaintext.value() + noise.value()),
    )
}

/// The decryption of `ciphertext` under `key`: the body minus
/// `<mask, key>`.
pub open spec fn lwe_decryption<T: UnsignedTorus>(key: Seq<T>, ciphertext: Seq<T>) -> T {
    reduce(ciphertext[key.len() as int].value() - dot_product(ciphertext, key, key.len() as int))
}

/// The number of bytes that the mask of one ciphertext takes from the mask
/// generator.
pub open spec fn lwe_mask_bytes<T: UnsignedTorus>(key: Seq<T>) -> int {
    key.len() * scalar_bytes::<T>()
}

/// The encryptions of the first `count` plaintexts, one after the other:
/// each takes its mask and its noise from where the one before it left the
/// two streams.
pub open spec fn lwe_list_encryption<T: UnsignedTorus, D: NoiseDistribution<T>>(
    key: Seq<T>,
    plaintexts: Seq<T>,
    mask_stream: Seq<u8>,
    noise_stream: Seq<u8>,
    distribution: D,
    count: int,
) -> Seq<T>
    decreases count,
{
    if count <= 0 {
        Seq::empty()
    } else {
        lwe_list_encryption(key, plaintexts, mask_stream, noise_stream, distribution, count - 1)
            + lwe_encryption(
            key,
            plaintexts[count - 1],
            mask_stream.skip((count - 1) * lwe_mask_bytes(key)),
            distribution.sample(
                noise_stream.skip((count - 1) * distribution.sample_bytes()).take(
                    distribution.sample_bytes() as int,
                ),
            ),
        )
    }
}

/// The sum of the products of the scalars of `lhs` with those of `rhs`,
/// modulo `q`.
pub fn slice_wrapping_dot_product<T: UnsignedTorus>(lhs: &[T], rhs: &[T]) -> (r: T)
    requires
        lhs@.len() == rhs@.len(),
    ensures
        r == reduce::<T>(dot_product(lhs@, rhs@, lhs@.len() as int)),
{
    let n: usize = lhs.len();
    let mut acc = zero::<T>();
    let mut i: usize = 0;
    while i < n
        invariant
            i <= n,
            n == lhs@.len(),
            n == rhs@.len(),
            acc == reduce::<T>(dot_product(lhs@, rhs@, i as int)),
        decreases n - i,
    {
        let prod = lhs[i].wrapping_mul(rhs[i]);
        let next = acc.wrapping_add(prod);
        proof {
            let s = dot_product(lhs@, rhs@, i as int);
            let p = lhs@[i as int].value() * rhs@[i as int].value();
            lemma_reduce_of(prod, p);
            lemma_reduce_of(next, acc.value() + prod.value());
            lemma_reduce_add::<T>(s, reduce::<T>(p).value());
            lemma_reduce_add::<T>(p, s);
        }
        acc = next;
        i += 1;
    }
    acc
}

/// The dot product reads only the scalars that it is taken over.
pub proof fn lemma_dot_product_prefix<T: UnsignedTorus>(
    lhs: Seq<T>,
    other: Seq<T>,
    rhs: Seq<T>,
    count: int,
)
    requires
        0 <= count <= lhs.len(),
        count <= other.len(),
        forall|i: int| 0 <= i < count ==> lhs[i] == other[i],
    ensures
        dot_product(lhs, rhs, count) == dot_product(other, rhs, count),
    decreases count,
{
    if count > 0 {
        lemma_dot_product_prefix(lhs, other, rhs, count - 1);
    }
}

/// Encrypts `encoded` into the ciphertext slice `ciphertext`.
pub fn encrypt_lwe_slice<T: UnsignedTorus, G: ByteRandomGenerator, D: NoiseDistribution<T>>(
    key: &[T],
    ciphertext: &mut [T],
    encoded: T,
    noise_distribution: &D,
    generator: &mut EncryptionRandomGenerator<G>,
)
    requires
        old(ciphertext)@.len() == key@.len() + 1,
        old(generator).mask.pending().len() >= lwe_mask_bytes(key@),
        old(generator).noise.pending().len() >= noise_distribution.sample_bytes(),
    ensures
        final(ciphertext)@ == lwe_encryption(
            key@,
            encoded,
            old(generator).mask.pending(),
            noise_distribution.sample(
                old(generator).noise.pending().take(noise_distribution.sample_bytes() as int),
            ),
        ),
        final(generator).mask.pending() == old(generator).mask.pending().skip(
            lwe_mask_bytes(key@),
        ),
        final(generator).noise.pending() == old(generator).noise.pending().skip(
            noise_distribution.sample_bytes() as int,
        ),
{
    let (mask, body) = ciphertext.split_at_mut(key.len());
    generator.fill_slice_with_random_mask(mask);
    let noise = noise_distribution.generate_one(&mut generator.noise);
    let product = slice_wrapping_dot_product(mask, key);
    let sum = product.wrapping_add(encoded);
    let value = sum.wrapping_add(noise);
    proof {
        let d = dot_product(mask@, key@, key@.len() as int);
        lemma_reduce_of(sum, product.value() + encoded.value());
        lemma_reduce_add::<T>(d, encoded.value());
        lemma_reduce_of(value, sum.value() + noise.value());
        lemma_reduce_add::<T>(d + encoded.value(), noise.value());
    }
    body[0] = value;
    proof {
        assert(mask@ + body@ =~= mask@.push(value));
    }
}

/// Encrypts `encoded` into `output`.
///
/// The mask is drawn from the mask generator, the noise is one sample from
/// the noise generator.
pub fn encrypt_lwe_ciphertext<T: UnsignedTorus, G: ByteRandomGenerator, D: NoiseDistribution<T>>(
    lwe_secret_key: &LweSecretKey<T>,
    output: &mut LweCiphertext<T>,
    encoded: T,
    noise_distribution: &D,
    generator: &mut EncryptionRandomGenerator<G>,
)
    requires
        old(output)@.len() == lwe_secret_key@.len() + 1,
        old(generator).mask.pending().len() >= lwe_mask_bytes(lwe_secret_key@),
        old(generator).noise.pending().len() >= noise_distribution.sample_bytes(),
    ensures
        final(output).ciphertext_modulus == old(output).ciphertext_modulus,
        final(output)@ == lwe_encryption(
            lwe_secret_key@,
            encoded,
            old(generator).mask.pending(),
            noise_distribution.sample(
                old(generator).noise.pending().take(noise_distribution.sample_bytes() as int),
            ),
        ),
        final(generator).mask.pending() == old(generator).mask.pending().skip(
            lwe_mask_bytes(lwe_secret_key@),
        ),
        final(generator).noise.pending() == old(generator).noise.pending().skip(
            noise_distribution.sample_bytes() as int,
        ),
{
    encrypt_lwe_slice(
        lwe_secret_key.data.as_slice(),
        output.data.as_mut_slice(),
        encoded,
        noise_distribution,
        generator,
    );
}

/// The decryption of `lwe_ciphertext` under `lwe_secret_key`: the plaintext
/// that was encrypted, plus the noise.
pub fn decrypt_lwe_ciphertext<T: UnsignedTorus>(
    lwe_secret_key: &LweSecretKey<T>,
    lwe_ciphertext: &LweCiphertext<T>,
) -> (plaintext: T)
    requires
        lwe_ciphertext@.len() == lwe_secret_key@.len() + 1,
    ensures
        plaintext == lwe_decryption(lwe_secret_key@, lwe_ciphertext@),
{
    let n: usize = lwe_secret_key.data.len();
    let (mask, body) = lwe_ciphertext.data.as_slice().split_at(n);
    let product = slice_wrapping_dot_product(mask, lwe_secret_key.data.as_slice());
    let plaintext = body[0].wrapping_sub(product);
    proof {
        let d = dot_product(mask@, lwe_secret_key@, n as int);
        lemma_dot_product_prefix(mask@, lwe_ciphertext@, lwe_secret_key@, n as int);
        lemma_reduce_of(plaintext, body@[0].value() - product.value());
        lemma_reduce_add::<T>(d, body@[0].value());
    }
    plaintext
}

} // verus!
