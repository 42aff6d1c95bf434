//! Random generators: a byte generator, the scalars that are drawn from it,
//! and the pair of generators that an encryption takes its mask and its
//! noise from.
//!
//! A generator is deterministic: what it has yet to give out is a sequence
//! of bytes that its seed fixes. Every draw takes bytes from the front of
//! that sequence.

use crate::polynomial::polynomial_sum;
use crate::torus::{lemma_pow2_128, lemma_reduce_of, wrapped_add, UnsignedTorus};
use core::marker::PhantomData;
use vstd::arithmetic::power2::{lemma2_to64, lemma_pow2_adds, lemma_pow2_strictly_increases, pow2};
use vstd::prelude::*;

verus! {

/// A seed of 128 bits.
#[derive(Clone, Copy, Debug, PartialEq, Eq)]
pub struct Seed(pub u128);

/// A deterministic generator of bytes.
pub trait ByteRandomGenerator: Sized {
    /// The bytes that the generator has yet to give out, the next one first.
    spec fn pending(&self) -> Seq<u8>;

    /// The bytes that a generator made from `seed` gives out.
    spec fn seeded(seed: u128) -> Seq<u8>;

    /// A generator at the start of the stream of `seed`.
    fn new(seed: Seed) -> (generator: Self)
        ensures
            generator.pending() == Self::seeded(seed.0),
    ;

    /// The number of bytes that the generator can still give out.
    fn remaining_bytes(&self) -> (count: u128)
        ensures
            count == self.pending().len(),
    ;

    /// The next byte, or `None` where the generator is exhausted.
    fn next_byte(&mut self) -> (byte: Option<u8>)
        ensures
            old(self).pending().len() == 0 ==> {
                &&& byte is None
                &&& final(self).pending() == old(self).pending()
            },
            old(self).pending().len() > 0 ==> {
                &&& byte == Some(old(self).pending()[0])
                &&& final(self).pending() == old(self).pending().drop_first()
            },
    ;
}

/// The number that a sequence of bytes stands for, the least significant
/// byte first.
pub open spec fn le_value(bytes: Seq<u8>) -> int
    decreases bytes.len(),
{
    if bytes.len() == 0 {
        0
    } else {
        bytes[0] as int + 256 * le_value(bytes.drop_first())
    }
}

/// The number of bytes of a scalar of the torus `T`.
pub open spec fn scalar_bytes<T: UnsignedTorus>() -> int {
    (T::bits() / 8) as int
}

/// The scalar that `W / 8` bytes stand for, the least significant byte
/// first.
pub open spec fn uniform_scalar<T: UnsignedTorus>(bytes: Seq<u8>) -> T {
    T::from_value(le_value(bytes))
}

/// The `count` scalars that are drawn from the front of `stream`, one after
/// the other.
pub open spec fn uniform_scalars<T: UnsignedTorus>(stream: Seq<u8>, count: int) -> Seq<T> {
    Seq::new(
        count as nat,
        |i: int|
            uniform_scalar::<T>(
                stream.subrange(
                    i * scalar_bytes::<T>(),
                    i * scalar_bytes::<T>() + scalar_bytes::<T>(),
                ),
            ),
    )
}

/// A distribution of noise on the torus `T`, sampled from the bytes of a
/// generator. A sample takes a fixed number of bytes and is a function of
/// those bytes.
pub trait NoiseDistribution<T: UnsignedTorus> {
    /// The number of bytes that one sample takes from the generator.
    spec fn sample_bytes(&self) -> nat;

    /// The sample that is made from `bytes`.
    spec fn sample(&self, bytes: Seq<u8>) -> T;

    /// The number of bytes that one sample takes from the generator.
    fn bytes_per_sample(&self) -> (count: usize)
        ensures
            count == self.sample_bytes(),
    ;

    /// One sample, made from the next bytes of `generator`.
    fn generate_one<G: ByteRandomGenerator>(&self, generator: &mut RandomGenerator<G>) -> (r: T)
        requires
            old(generator).pending().len() >= self.sample_bytes(),
        ensures
            r == self.sample(old(generator).pending().take(self.sample_bytes() as int)),
            final(generator).pending() == old(generator).pending().skip(
                self.sample_bytes() as int,
            ),
    ;
}

/// The `count` samples of `distribution` that are made from the front of
/// `stream`, one after the other.
pub open spec fn noise_samples<T: UnsignedTorus, D: NoiseDistribution<T>>(
    distribution: D,
    stream: Seq<u8>,
    count: int,
) -> Seq<T> {
    Seq::new(
        count as nat,
        |i: int|
            distribution.sample(
                stream.subrange(
                    i * distribution.sample_bytes(),
                    i * distribution.sample_bytes() + distribution.sample_bytes(),
                ),
            ),
    )
}

/// A distribution whose samples are made by a function of the caller:
/// `sampler` turns the `bytes` bytes of one sample into the sample. It is
/// for distributions that the library does not sample itself, such as a
/// Gaussian, whose sampling takes floating point.
#[verifier::reject_recursive_types(T)]
#[verifier::reject_recursive_types(F)]
pub struct FunctionDistribution<T: UnsignedTorus, F: Fn(Vec<u8>) -> T> {
    bytes: usize,
    sampler: F,
    _phantom: PhantomData<T>,
}

/// `sampler` takes every vector of `bytes` bytes, and what it gives for a
/// vector depends on the bytes of the vector alone.
pub open spec fn is_sampler<T: UnsignedTorus, F: Fn(Vec<u8>) -> T>(sampler: F, bytes: nat) -> bool {
    &&& forall|input: Vec<u8>| input@.len() == bytes ==> call_requires(sampler, (input,))
    &&& forall|first: Vec<u8>, second: Vec<u8>, one: T, other: T|
        first@ == second@ && #[trigger] call_ensures(sampler, (first,), one)
            && #[trigger] call_ensures(sampler, (second,), other) ==> one == other
}

impl<T: UnsignedTorus, F: Fn(Vec<u8>) -> T> FunctionDistribution<T, F> {
    #[verifier::type_invariant]
    spec fn valid(self) -> bool {
        is_sampler::<T, F>(self.sampler, self.bytes as nat)
    }

    /// The number of bytes of one sample.
    pub closed spec fn bytes(&self) -> nat {
        self.bytes as nat
    }

    /// The function that makes the samples.
    pub closed spec fn sampler(&self) -> F {
        self.sampler
    }

    /// The distribution whose samples `sampler` makes from `bytes` bytes
    /// each.
    pub fn new(bytes: usize, sampler: F) -> (distribution: Self)
        requires
            is_sampler::<T, F>(sampler, bytes as nat),
        ensures
            distribution.bytes() == bytes,
            distribution.sample_bytes() == bytes,
            distribution.sampler() == sampler,
    {
        FunctionDistribution { bytes, sampler, _phantom: PhantomData }
    }

    /// The sample that is made from the bytes of `input` is what the
    /// function gives for `input`.
    pub proof fn lemma_sample(self, input: Vec<u8>, r: T)
        requires
            is_sampler::<T, F>(self.sampler(), self.bytes()),
            call_ensures(self.sampler(), (input,), r),
        ensures
            self.sample(input@) == r,
    {
        let pair = choose|other: Vec<u8>, chosen: T|
            other@ == input@ && #[trigger] call_ensures(self.sampler, (other,), chosen);
        assert(call_ensures(self.sampler, (pair.0,), pair.1));
    }
}

impl<T: UnsignedTorus, F: Fn(Vec<u8>) -> T> NoiseDistribution<T> for FunctionDistribution<T, F> {
    closed spec fn sample_bytes(&self) -> nat {
        self.bytes as nat
    }

    closed spec fn sample(&self, bytes: Seq<u8>) -> T {
        (choose|input: Vec<u8>, r: T|
            input@ == bytes && #[trigger] call_ensures(self.sampler, (input,), r)).1
    }

    fn bytes_per_sample(&self) -> (count: usize) {
        self.bytes
    }

    fn generate_one<G: ByteRandomGenerator>(&self, generator: &mut RandomGenerator<G>) -> (r: T) {
        proof {
            use_type_invariant(self);
        }
        let input = generator.generate_bytes(self.bytes);
        let ghost bytes = input@;
        let ghost given = input;
        let r = (self.sampler)(input);
        proof {
            assert(call_ensures(self.sampler, (given,), r));
            let pair = choose|other: Vec<u8>, chosen: T|
                other@ == bytes && #[trigger] call_ensures(self.sampler, (other,), chosen);
            assert(call_ensures(self.sampler, (pair.0,), pair.1));
        }
        r
    }
}

/// `n` bytes stand for a number below `2^(8n)`.
pub proof fn lemma_le_value_bound(bytes: Seq<u8>)
    ensures
        0 <= le_value(bytes) < pow2(8 * bytes.len()),
    decreases bytes.len(),
{
    if bytes.len() == 0 {
        lemma2_to64();
    } else {
        lemma_le_value_bound(bytes.drop_first());
        lemma_pow2_adds(8, 8 * bytes.drop_first().len());
        lemma2_to64();
        assert(8 + 8 * bytes.drop_first().len() == 8 * bytes.len());
    }
}

/// The number that at most 16 bytes stand for, the least significant byte
/// first.
pub fn le_bytes_to_u128(bytes: &[u8]) -> (r: u128)
    requires
        bytes@.len() <= 16,
    ensures
        r == le_value(bytes@),
{
    let n: usize = bytes.len();
    let mut acc: u128 = 0;
    let mut i: usize = n;
    proof {
        assert(bytes@.skip(n as int).len() == 0);
    }
    while i > 0
        invariant
            i <= n,
            n == bytes@.len(),
            n <= 16,
            acc == le_value(bytes@.skip(i as int)),
        decreases i,
    {
        proof {
            let rest = bytes@.skip(i as int);
            let more = bytes@.skip(i - 1);
            assert(more.drop_first() =~= rest);
            lemma_le_value_bound(rest);
            lemma_le_value_bound(more);
            lemma_pow2_128();
            if 8 * more.len() < 128 {
                lemma_pow2_strictly_increases(8 * more.len(), 128);
            }
        }
        i -= 1;
        acc = acc * 256 + bytes[i] as u128;
    }
    proof {
        assert(bytes@.skip(0) =~= bytes@);
    }
    acc
}

/// A byte generator together with the draws that the library makes from it.
pub struct RandomGenerator<G: ByteRandomGenerator>(pub G);

impl<G: ByteRandomGenerator> RandomGenerator<G> {
    /// The bytes that the generator has yet to give out, the next one first.
    pub open spec fn pending(&self) -> Seq<u8> {
        self.0.pending()
    }

    /// A generator at the start of the stream of `seed`.
    pub fn new(seed: Seed) -> (generator: Self)
        ensures
            generator.pending() == G::seeded(seed.0),
    {
        RandomGenerator(G::new(seed))
    }

    /// The number of bytes that the generator can still give out.
    pub fn remaining_bytes(&self) -> (count: u128)
        ensures
            count == self.pending().len(),
    {
        self.0.remaining_bytes()
    }

    /// The next byte of the stream.
    pub fn generate_next(&mut self) -> (byte: u8)
        requires
            old(self).pending().len() > 0,
        ensures
            byte == old(self).pending()[0],
            final(self).pending() == old(self).pending().drop_first(),
    {
        match self.0.next_byte() {
            Some(byte) => byte,
            None => vstd::pervasive::unreached(),
        }
    }

    /// The next `count` bytes of the stream.
    pub fn generate_bytes(&mut self, count: usize) -> (bytes: Vec<u8>)
        requires
            old(self).pending().len() >= count,
        ensures
            bytes@ == old(self).pending().take(count as int),
            final(self).pending() == old(self).pending().skip(count as int),
    {
        let mut bytes: Vec<u8> = Vec::new();
        let mut i: usize = 0;
        proof {
            assert(self.pending().skip(0) =~= self.pending());
        }
        while i < count
            invariant
                i <= count,
                old(self).pending().len() >= count,
                bytes@ =~= old(self).pending().take(i as int),
                self.pending() == old(self).pending().skip(i as int),
            decreases count - i,
        {
            let byte = self.generate_next();
            bytes.push(byte);
            proof {
                assert(old(self).pending().skip(i as int).drop_first() =~= old(self).pending().skip(
                    i + 1,
                ));
            }
            i += 1;
        }
        bytes
    }

    /// A scalar whose `W` bits are the next `W / 8` bytes of the stream, the
    /// least significant byte first.
    pub fn random_uniform<T: UnsignedTorus>(&mut self) -> (r: T)
        requires
            old(self).pending().len() >= scalar_bytes::<T>(),
        ensures
            r == uniform_scalar::<T>(old(self).pending().take(scalar_bytes::<T>())),
            final(self).pending() == old(self).pending().skip(scalar_bytes::<T>()),
    {
        proof {
            T::lemma_bits();
        }
        let width: usize = (T::bit_width() / 8) as usize;
        let bytes = self.generate_bytes(width);
        let x = le_bytes_to_u128(bytes.as_slice());
        proof {
            lemma_le_value_bound(bytes@);
            assert(8 * bytes@.len() == T::bits());
            T::lemma_from_value(x as int);
        }
        let r = T::from_u128(x);
        proof {
            r.lemma_value();
            uniform_scalar::<T>(bytes@).lemma_value();
        }
        r
    }

    /// Fills `output` with scalars drawn one after the other, each from the
    /// next `W / 8` bytes of the stream.
    pub fn fill_slice_with_random_uniform<T: UnsignedTorus>(&mut self, output: &mut [T])
        requires
            old(self).pending().len() >= old(output)@.len() * scalar_bytes::<T>(),
        ensures
            final(output)@ == uniform_scalars::<T>(old(self).pending(), old(output)@.len() as int),
            final(self).pending() == old(self).pending().skip(
                old(output)@.len() * scalar_bytes::<T>(),
            ),
    {
        let n: usize = output.len();
        let ghost w = scalar_bytes::<T>();
        let ghost stream = self.pending();
        let mut i: usize = 0;
        proof {
            T::lemma_bits();
            assert(stream.skip(0) =~= stream);
        }
        while i < n
            invariant
                i <= n,
                n == output@.len(),
                w == scalar_bytes::<T>(),
                0 < w,
                stream.len() >= n * w,
                self.pending() == stream.skip(i * w),
                forall|j: int|
                    0 <= j < i ==> output@[j] == uniform_scalar::<T>(
                        stream.subrange(j * w, j * w + w),
                    ),
            decreases n - i,
        {
            proof {
                lemma_sample_window(stream, n as int, w, i as int);
            }
            let x = self.random_uniform::<T>();
            output[i] = x;
            i += 1;
        }
        proof {
            assert(output@ =~= uniform_scalars::<T>(stream, n as int));
        }
    }
}

/// The two generators of an encryption: one for the mask, whose bytes may
/// be made public, and one for the noise, whose bytes stay secret.
pub struct EncryptionRandomGenerator<G: ByteRandomGenerator> {
    /// The generator of the masks.
    pub mask: RandomGenerator<G>,
    /// The generator of the noise.
    pub noise: RandomGenerator<G>,
}

impl<G: ByteRandomGenerator> EncryptionRandomGenerator<G> {
    /// The pair of generators at the start of the streams of the two seeds.
    pub fn new(mask_seed: Seed, noise_seed: Seed) -> (generator: Self)
        ensures
            generator.mask.pending() == G::seeded(mask_seed.0),
            generator.noise.pending() == G::seeded(noise_seed.0),
    {
        EncryptionRandomGenerator {
            mask: RandomGenerator::new(mask_seed),
            noise: RandomGenerator::new(noise_seed),
        }
    }

    /// The number of bytes that the mask generator can still give out.
    pub fn remaining_mask_bytes(&self) -> (count: u128)
        ensures
            count == self.mask.pending().len(),
    {
        self.mask.remaining_bytes()
    }

    /// The number of bytes that the noise generator can still give out.
    pub fn remaining_noise_bytes(&self) -> (count: u128)
        ensures
            count == self.noise.pending().len(),
    {
        self.noise.remaining_bytes()
    }

    /// Fills `output` with uniform scalars from the mask generator.
    pub fn fill_slice_with_random_mask<T: UnsignedTorus>(&mut self, output: &mut [T])
        requires
            old(self).mask.pending().len() >= old(output)@.len() * scalar_bytes::<T>(),
        ensures
            final(output)@ == uniform_scalars::<T>(
                old(self).mask.pending(),
                old(output)@.len() as int,
            ),
            final(self).mask.pending() == old(self).mask.pending().skip(
                old(output)@.len() * scalar_bytes::<T>(),
            ),
            final(self).noise == old(self).noise,
    {
        self.mask.fill_slice_with_random_uniform(output);
    }

    /// Overwrites `output` with noise: one sample of `distribution` for each
    /// scalar, from the noise generator.
    pub fn fill_slice_with_random_noise<T: UnsignedTorus, D: NoiseDistribution<T>>(
        &mut self,
        output: &mut [T],
        distribution: &D,
    )
        requires
            old(self).noise.pending().len() >= old(output)@.len() * distribution.sample_bytes(),
        ensures
            final(output)@ == noise_samples::<T, D>(
                *distribution,
                old(self).noise.pending(),
                old(output)@.len() as int,
            ),
            final(self).noise.pending() == old(self).noise.pending().skip(
                (old(output)@.len() * distribution.sample_bytes()) as int,
            ),
            final(self).mask == old(self).mask,
    {
        let n: usize = output.len();
        let ghost w = distribution.sample_bytes() as int;
        let ghost stream = self.noise.pending();
        let mut i: usize = 0;
        proof {
            assert(stream.skip(0) =~= stream);
        }
        while i < n
            invariant
                i <= n,
                n == output@.len(),
                w == distribution.sample_bytes(),
                stream.len() >= n * w,
                self.noise.pending() == stream.skip(i * w),
                self.mask == old(self).mask,
                forall|j: int|
                    0 <= j < i ==> output@[j] == distribution.sample(
                        stream.subrange(j * w, j * w + w),
                    ),
            decreases n - i,
        {
            proof {
                lemma_sample_window(stream, n as int, w, i as int);
            }
            let x = distribution.generate_one(&mut self.noise);
            output[i] = x;
            i += 1;
        }
        proof {
            assert(output@ =~= noise_samples::<T, D>(*distribution, stream, n as int));
        }
    }

    /// Adds noise to `output`: one sample of `distribution` to each scalar,
    /// from the noise generator.
    pub fn unsigned_torus_slice_wrapping_add_random_noise_assign<
        T: UnsignedTorus,
        D: NoiseDistribution<T>,
    >(&mut self, output: &mut [T], distribution: &D)
        requires
            old(self).noise.pending().len() >= old(output)@.len() * distribution.sample_bytes(),
        ensures
            final(output)@ == polynomial_sum(
                old(output)@,
                noise_samples::<T, D>(
                    *distribution,
                    old(self).noise.pending(),
                    old(output)@.len() as int,
                ),
            ),
            final(self).noise.pending() == old(self).noise.pending().skip(
                (old(output)@.len() * distribution.sample_bytes()) as int,
            ),
            final(self).mask == old(self).mask,
    {
        let n: usize = output.len();
        let ghost w = distribution.sample_bytes() as int;
        let ghost stream = self.noise.pending();
        let mut i: usize = 0;
        proof {
            assert(stream.skip(0) =~= stream);
        }
        while i < n
            invariant
                i <= n,
                n == output@.len(),
                n == old(output)@.len(),
                w == distribution.sample_bytes(),
                stream.len() >= n * w,
                self.noise.pending() == stream.skip(i * w),
                self.mask == old(self).mask,
                forall|j: int|
                    0 <= j < i ==> output@[j] == wrapped_add(
                        old(output)@[j],
                        distribution.sample(stream.subrange(j * w, j * w + w)),
                    ),
                forall|j: int| i <= j < n ==> output@[j] == old(output)@[j],
            decreases n - i,
        {
            proof {
                lemma_sample_window(stream, n as int, w, i as int);
            }
            let x = distribution.generate_one(&mut self.noise);
            let next = output[i].wrapping_add(x);
            proof {
                lemma_reduce_of(next, output@[i as int].value() + x.value());
            }
            output[i] = next;
            i += 1;
        }
        proof {
            assert(output@ =~= polynomial_sum(
                old(output)@,
                noise_samples::<T, D>(*distribution, stream, n as int),
            ));
        }
    }
}

/// Draw `i` of `n` draws of `w` bytes each takes the bytes from `i * w` on,
/// and leaves the stream at `(i + 1) * w`.
pub proof fn lemma_sample_window(stream: Seq<u8>, n: int, w: int, i: int)
    requires
        0 <= i < n,
        0 <= w,
        stream.len() >= n * w,
    ensures
        0 <= i * w,
        i * w + w <= n * w,
        (i + 1) * w == i * w + w,
        stream.skip(i * w).len() >= w,
        stream.skip(i * w).take(w) == stream.subrange(i * w, i * w + w),
        stream.skip(i * w).skip(w) == stream.skip((i + 1) * w),
{
    assert(0 <= i * w && i * w + w <= n * w && (i + 1) * w == i * w + w) by (nonlinear_arith)
        requires
            0 <= i < n,
            0 <= w,
    ;
    assert(stream.skip(i * w).take(w) =~= stream.subrange(i * w, i * w + w));
    assert(stream.skip(i * w).skip(w) =~= stream.skip((i + 1) * w));
}

} // verus!
