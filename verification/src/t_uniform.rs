//! The distribution TUniform(b) on the torus.
//!
//! Its values are the integers of `[-2^b, 2^b]`. A value strictly inside the
//! interval has probability `2^(-b-1)`, each of the two end points has
//! probability `2^(-b-2)`. A sample is made from `b + 2` uniform bits without
//! rejection: the bits are halved, and the bit that was shifted out is added
//! back, so that two bit patterns give each inner value and one gives each
//! end point.

use crate::random::{
    le_bytes_to_u128, le_value, lemma_le_value_bound, ByteRandomGenerator, NoiseDistribution,
    RandomGenerator,
};
use crate::torus::{
    lemma_modulus, lemma_pow2_128, lemma_reduce_of, modulus, power_of_two_u128, reduce,
    signed_residue, torus_distance, UnsignedTorus,
};
use core::marker::PhantomData;
use vstd::arithmetic::div_mod::{lemma_fundamental_div_mod, lemma_mod_bound, lemma_small_mod};
use vstd::arithmetic::power2::{
    lemma_pow2_pos, lemma_pow2_strictly_increases, lemma_pow2_unfold, pow2,
};
use vstd::prelude::*;

verus! {

/// The distribution TUniform(b) on the torus `T`, with `b = bound_log2`.
pub struct TUniform<T: UnsignedTorus> {
    bound_log2: u32,
    _phantom: PhantomData<T>,
}

impl<T: UnsignedTorus> Clone for TUniform<T> {
    fn clone(&self) -> (copy: Self)
        ensures
            copy == *self,
    {
        *self
    }
}

impl<T: UnsignedTorus> Copy for TUniform<T> {

}

/// The value in `[-2^b, 2^b]` that the `b + 2` uniform bits `r` give: `r`
/// halved, plus the bit that was shifted out, minus `2^b`.
pub open spec fn t_uniform_value(bound_log2: nat, r: int) -> int {
    r / 2 + r % 2 - pow2(bound_log2)
}

/// The value in `[-2^b, 2^b]` that is made from the bytes of one sample: the
/// bytes are read as a number, the least significant byte first, and the
/// low `b + 2` bits of that number are the uniform bits.
pub open spec fn t_uniform_signed_sample(bound_log2: nat, bytes: Seq<u8>) -> int {
    t_uniform_value(bound_log2, le_value(bytes) % (pow2(bound_log2 + 2) as int))
}

/// The number of bytes of one sample of TUniform(b): `b + 2` bits, rounded
/// up to whole bytes.
pub open spec fn t_uniform_sample_bytes(bound_log2: nat) -> nat {
    (bound_log2 + 2 + 7) / 8
}

impl<T: UnsignedTorus> TUniform<T> {
    #[verifier::type_invariant]
    spec fn valid(self) -> bool {
        self.bound_log2 + 2 <= T::bits()
    }

    /// The logarithm `b` of the bound of the distribution.
    pub closed spec fn log2_bound(&self) -> nat {
        self.bound_log2 as nat
    }

    /// The distribution TUniform(`bound_log2`).
    ///
    /// The bound is at most `W - 2`: with a larger one `-2^b` and `2^b`
    /// would be the same scalar.
    pub fn new(bound_log2: u32) -> (distribution: Self)
        requires
            bound_log2 + 2 <= T::bits(),
        ensures
            distribution.log2_bound() == bound_log2,
    {
        TUniform { bound_log2, _phantom: PhantomData }
    }

    /// The logarithm `b` of the bound of the distribution.
    pub fn bound_log2(&self) -> (b: u32)
        ensures
            b == self.log2_bound(),
            b + 2 <= T::bits(),
    {
        proof {
            use_type_invariant(self);
        }
        self.bound_log2
    }

    /// The number of values of the distribution: `2^(b+1) + 1`.
    pub fn distinct_value_count(&self) -> (count: usize)
        requires
            pow2(self.log2_bound() + 1) + 1 <= usize::MAX,
        ensures
            count == pow2(self.log2_bound() + 1) + 1,
    {
        proof {
            use_type_invariant(self);
            T::lemma_bits();
        }
        let span = power_of_two_u128(self.bound_log2 + 1);
        (span as usize) + 1
    }

    /// The least value of the distribution, `-2^b`.
    pub fn min_value_inclusive(&self) -> (min: T::Signed)
        ensures
            T::signed_value(min) == -pow2(self.log2_bound()),
    {
        proof {
            use_type_invariant(self);
            T::lemma_bits();
            lemma_modulus::<T>();
            lemma_pow2_strictly_increases(self.bound_log2 as nat, (self.bound_log2 + 1) as nat);
            lemma_pow2_unfold((self.bound_log2 + 1) as nat);
            lemma_pow2_unfold((self.bound_log2 + 2) as nat);
            if self.bound_log2 + 2 < T::bits() {
                lemma_pow2_strictly_increases((self.bound_log2 + 2) as nat, T::bits());
            }
        }
        let bound = T::from_u128(power_of_two_u128(self.bound_log2));
        let zero = T::from_u128(0);
        let negated = zero.wrapping_sub(bound);
        proof {
            let q = modulus::<T>();
            let p = pow2(self.bound_log2 as nat) as int;
            vstd::arithmetic::div_mod::lemma_fundamental_div_mod_converse(-p, q, -1, q - p);
        }
        negated.into_signed()
    }

    /// The greatest value of the distribution, `2^b`.
    pub fn max_value_inclusive(&self) -> (max: T::Signed)
        ensures
            T::signed_value(max) == pow2(self.log2_bound()),
    {
        proof {
            use_type_invariant(self);
            T::lemma_bits();
            lemma_modulus::<T>();
            lemma_pow2_strictly_increases(self.bound_log2 as nat, (self.bound_log2 + 1) as nat);
            lemma_pow2_unfold((self.bound_log2 + 1) as nat);
            lemma_pow2_strictly_increases((self.bound_log2 + 1) as nat, T::bits());
        }
        let bound = T::from_u128(power_of_two_u128(self.bound_log2));
        bound.into_signed()
    }
}

impl<T: UnsignedTorus> NoiseDistribution<T> for TUniform<T> {
    open spec fn sample_bytes(&self) -> nat {
        t_uniform_sample_bytes(self.log2_bound())
    }

    open spec fn sample(&self, bytes: Seq<u8>) -> T {
        reduce::<T>(t_uniform_signed_sample(self.log2_bound(), bytes))
    }

    fn bytes_per_sample(&self) -> (count: usize) {
        proof {
            use_type_invariant(self);
            T::lemma_bits();
        }
        ((self.bound_log2 + 2 + 7) / 8) as usize
    }

    fn generate_one<G: ByteRandomGenerator>(&self, generator: &mut RandomGenerator<G>) -> (r: T) {
        proof {
            use_type_invariant(self);
            T::lemma_bits();
        }
        let required_bits: u32 = self.bound_log2 + 2;
        let required_bytes: usize = ((required_bits + 7) / 8) as usize;
        let bytes = generator.generate_bytes(required_bytes);
        let native: u128 = le_bytes_to_u128(bytes.as_slice());
        let ghost b = self.bound_log2 as nat;
        proof {
            lemma_le_value_bound(bytes@);
            lemma_pow2_128();
            lemma_pow2_pos(b + 2);
        }
        let candidate: u128 = if required_bits == 128 {
            proof {
                assert(8 * bytes@.len() == 128);
                lemma_small_mod(native as nat, pow2(128));
            }
            native
        } else {
            native % power_of_two_u128(required_bits)
        };
        assert(candidate == le_value(bytes@) % (pow2(b + 2) as int));
        proof {
            lemma_mod_bound(le_value(bytes@), pow2(b + 2) as int);
            lemma_pow2_unfold(b + 2);
            lemma_pow2_unfold(b + 1);
            lemma_modulus::<T>();
            if b + 2 < T::bits() {
                lemma_pow2_strictly_increases(b + 2, T::bits());
            }
        }
        let carry: u128 = candidate % 2;
        let half: u128 = candidate / 2 + carry;
        let shift: u128 = power_of_two_u128(self.bound_log2);
        let r = T::from_u128(half).wrapping_sub(T::from_u128(shift));
        proof {
            lemma_reduce_of(r, half - shift);
        }
        r
    }
}

/// Every sample lies in `[-2^b, 2^b]`.
pub proof fn lemma_t_uniform_range(bound_log2: nat, r: int)
    requires
        0 <= r < pow2(bound_log2 + 2),
    ensures
        -pow2(bound_log2) <= t_uniform_value(bound_log2, r) <= pow2(bound_log2),
{
    lemma_pow2_unfold(bound_log2 + 2);
    lemma_pow2_unfold(bound_log2 + 1);
    lemma_fundamental_div_mod(r, 2);
}

/// The shape of the distribution: of the `2^(b+2)` patterns of uniform
/// bits, the value `v` is given by `2 (v + 2^b)` and by the pattern before
/// it, and by no other. Both lie in range for a value strictly inside
/// `[-2^b, 2^b]`, and one of them for each end point.
pub proof fn lemma_t_uniform_shape(bound_log2: nat, r: int, v: int)
    requires
        0 <= r < pow2(bound_log2 + 2),
    ensures
        t_uniform_value(bound_log2, r) == v <==> (r == 2 * (v + pow2(bound_log2)) || r == 2 * (v
            + pow2(bound_log2)) - 1),
{
    lemma_fundamental_div_mod(r, 2);
}

/// A sample of TUniform(b) stands for the value that its bits give: the
/// integer of least absolute value that the sample stands for is that
/// value.
pub proof fn lemma_t_uniform_sample_value<T: UnsignedTorus>(
    distribution: TUniform<T>,
    bytes: Seq<u8>,
)
    requires
        distribution.log2_bound() + 2 <= T::bits(),
    ensures
        signed_residue(distribution.sample(bytes)) == t_uniform_signed_sample(
            distribution.log2_bound(),
            bytes,
        ),
{
    let b = distribution.log2_bound();
    let q = modulus::<T>();
    lemma_modulus::<T>();
    lemma_pow2_pos(b + 2);
    let bits = le_value(bytes) % (pow2(b + 2) as int);
    lemma_mod_bound(le_value(bytes), pow2(b + 2) as int);
    lemma_t_uniform_range(b, bits);
    let v = t_uniform_value(b, bits);
    lemma_pow2_unfold(b + 2);
    lemma_pow2_unfold(b + 1);
    if b + 2 < T::bits() {
        lemma_pow2_strictly_increases(b + 2, T::bits());
    }
    crate::torus::lemma_reduce_value::<T>(v);
    if v >= 0 {
        lemma_small_mod(v as nat, q as nat);
    } else {
        vstd::arithmetic::div_mod::lemma_fundamental_div_mod_converse(v, q, -1, q + v);
    }
}

/// A sample of TUniform(b) stands for a value of `[-2^b, 2^b]`: its
/// distance from zero on the torus is at most `2^b`.
pub proof fn lemma_t_uniform_sample_distance<T: UnsignedTorus>(
    distribution: TUniform<T>,
    bytes: Seq<u8>,
)
    requires
        distribution.log2_bound() + 2 <= T::bits(),
    ensures
        torus_distance(distribution.sample(bytes)) <= pow2(distribution.log2_bound()),
{
    let b = distribution.log2_bound();
    let q = modulus::<T>();
    lemma_modulus::<T>();
    lemma_pow2_pos(b + 2);
    let bits = le_value(bytes) % (pow2(b + 2) as int);
    lemma_mod_bound(le_value(bytes), pow2(b + 2) as int);
    lemma_t_uniform_range(b, bits);
    let v = t_uniform_value(b, bits);
    lemma_pow2_unfold(b + 2);
    lemma_pow2_unfold(b + 1);
    if b + 2 < T::bits() {
        lemma_pow2_strictly_increases(b + 2, T::bits());
    }
    crate::torus::lemma_reduce_value::<T>(v);
    if v >= 0 {
        lemma_small_mod(v as nat, q as nat);
    } else {
        vstd::arithmetic::div_mod::lemma_fundamental_div_mod_converse(v, q, -1, q + v);
    }
}

} // verus!
