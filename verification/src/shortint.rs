//! Ciphertexts of small integers: an LWE ciphertext of 64-bit scalars
//! together with the message modulus `m` and the carry modulus `c` that it
//! is read by.
//!
//! The product `m * c` is a power of two. A value `v` below `m * c` is
//! encoded as `v * delta` with `delta = 2^63 / (m * c)`: it takes the bits
//! below the most significant one, which stays clear as the padding bit.

use crate::entities::filled;
use crate::lwe::{
    decrypt_lwe_ciphertext, encrypt_lwe_ciphertext, lwe_decryption, lwe_encryption, lwe_mask_bytes,
    CiphertextModulus, LweCiphertext, LweDimension, LweSecretKey, LweSize,
};
use crate::random::{ByteRandomGenerator, EncryptionRandomGenerator, NoiseDistribution};
use vstd::arithmetic::div_mod::lemma_div_is_ordered_by_denominator;
use vstd::arithmetic::power2::{
    lemma2_to64, lemma2_to64_rest, lemma_pow2_adds, lemma_pow2_pos, lemma_pow2_strictly_increases,
    lemma_pow2_unfold, pow2,
};
use vstd::prelude::*;

verus! {

/// The modulus `m` of the message of a ciphertext.
#[derive(Clone, Copy, Debug, PartialEq, Eq)]
pub struct MessageModulus(pub usize);

/// The modulus `c` of the carry of a ciphertext.
#[derive(Clone, Copy, Debug, PartialEq, Eq)]
pub struct CarryModulus(pub usize);

/// The greatest logarithm of a full modulus `m * c`: the encoded value and
/// the padding bit take 63 bits, and one bit is left for the rounding.
pub const MAX_FULL_MODULUS_LOG: u32 = 62;

/// The full modulus `m * c` of a pair of moduli.
pub open spec fn full_modulus(message_modulus: MessageModulus, carry_modulus: CarryModulus) -> int {
    message_modulus.0 * carry_modulus.0
}

/// The full modulus `m * c` of a pair of moduli.
pub fn full_message_modulus(message_modulus: MessageModulus, carry_modulus: CarryModulus) -> (full:
    u128)
    ensures
        full == full_modulus(message_modulus, carry_modulus),
{
    let m: u128 = message_modulus.0 as u128;
    let c: u128 = carry_modulus.0 as u128;
    proof {
        assert(m * c <= 0xffff_ffff_ffff_ffff * 0xffff_ffff_ffff_ffff) by (nonlinear_arith)
            requires
                m <= 0xffff_ffff_ffff_ffff,
                c <= 0xffff_ffff_ffff_ffff,
        ;
    }
    m * c
}

/// `x` is `2^e` for an `e` of at most 62.
pub open spec fn is_cast_modulus(x: int) -> bool {
    exists|e: nat| e <= MAX_FULL_MODULUS_LOG && x == #[trigger] pow2(e)
}

/// The `e` with `x == 2^e`, where there is one.
pub open spec fn log2_of(x: int) -> nat {
    choose|e: nat| e <= MAX_FULL_MODULUS_LOG && x == #[trigger] pow2(e)
}

/// A power of two has one logarithm.
pub proof fn lemma_log2_unique(x: int, e: nat)
    requires
        e <= MAX_FULL_MODULUS_LOG,
        x == pow2(e),
    ensures
        is_cast_modulus(x),
        log2_of(x) == e,
{
    let f = log2_of(x);
    if f < e {
        lemma_pow2_strictly_increases(f, e);
    } else if e < f {
        lemma_pow2_strictly_increases(e, f);
    }
}

/// The logarithm of `x`, where `x` is a power of two of at most `2^62`.
pub fn checked_log2(x: u128) -> (log: Option<u32>)
    ensures
        log is Some <==> is_cast_modulus(x as int),
        log is Some ==> {
            &&& log->0 <= MAX_FULL_MODULUS_LOG
            &&& x == pow2(log->0 as nat)
            &&& log->0 == log2_of(x as int)
        },
{
    let mut power: u128 = 1;
    let mut e: u32 = 0;
    proof {
        lemma2_to64();
    }
    while e <= 62
        invariant
            e <= 63,
            e <= 62 ==> power == pow2(e as nat),
            forall|f: nat| f < e ==> x as int != #[trigger] pow2(f),
        decreases 63 - e,
    {
        if x == power {
            proof {
                lemma_log2_unique(x as int, e as nat);
            }
            return Some(e);
        }
        proof {
            lemma_pow2_unfold((e + 1) as nat);
            lemma2_to64_rest();
            if e + 1 < 63 {
                lemma_pow2_strictly_increases((e + 1) as nat, 63);
            }
        }
        if e < 62 {
            power = power * 2;
        }
        e += 1;
    }
    None
}

/// The factor `delta = 2^63 / (m * c)` of the encoding.
pub open spec fn encoding_delta(full_modulus: int) -> int {
    0x8000_0000_0000_0000int / full_modulus
}

/// The value that the scalar `x` decodes to: `x / delta` rounded to the
/// nearest, modulo `2 * m * c`.
pub open spec fn decoded(x: int, full_modulus: int) -> int {
    let delta = encoding_delta(full_modulus);
    (x / delta + (x / (delta / 2)) % 2) % (2 * full_modulus)
}

/// The parameters of a key of a client, as far as the library reads them.
#[derive(Clone, Copy, Debug, PartialEq, Eq)]
pub struct ShortintParameters {
    /// The modulus of the message.
    pub message_modulus: MessageModulus,
    /// The modulus of the carry.
    pub carry_modulus: CarryModulus,
    /// The modulus of the ciphertexts.
    pub ciphertext_modulus: CiphertextModulus,
}

impl ShortintParameters {
    /// The full modulus is a power of two of at most `2^62`.
    pub open spec fn wf(&self) -> bool {
        is_cast_modulus(full_modulus(self.message_modulus, self.carry_modulus))
    }
}

/// The decomposition that a keyswitch key between two parameter sets is
/// made with.
#[derive(Clone, Copy, Debug, PartialEq, Eq)]
pub struct ShortintKeySwitchingParameters {
    /// The logarithm of the base of the decomposition.
    pub ks_base_log: crate::decomposition::DecompositionBaseLog,
    /// The number of levels of the decomposition.
    pub ks_level: crate::decomposition::DecompositionLevelCount,
}

/// A ciphertext of a small integer.
pub struct Ciphertext {
    /// The LWE ciphertext.
    pub ct: LweCiphertext<u64>,
    /// The modulus of the message.
    pub message_modulus: MessageModulus,
    /// The modulus of the carry.
    pub carry_modulus: CarryModulus,
}

/// The key of a client: the secret key that its ciphertexts are made
/// with, and its parameters.
pub struct ClientKey {
    /// The LWE secret key of the ciphertexts.
    pub lwe_secret_key: LweSecretKey<u64>,
    /// The parameters of the key.
    pub parameters: ShortintParameters,
}

/// `2^63 / 2^e` and its half, for `e <= 62`.
pub proof fn lemma_delta(e: nat)
    requires
        e <= MAX_FULL_MODULUS_LOG,
    ensures
        encoding_delta(pow2(e) as int) == pow2((63 - e) as nat),
        encoding_delta(pow2(e) as int) >= 2,
        encoding_delta(pow2(e) as int) / 2 == pow2((62 - e) as nat),
        encoding_delta(pow2(e) as int) == 2 * pow2((62 - e) as nat),
        pow2(e) * encoding_delta(pow2(e) as int) == 0x8000_0000_0000_0000,
        pow2(e) * pow2((63 - e) as nat) == 0x8000_0000_0000_0000,
        1 <= pow2(e) <= 0x4000_0000_0000_0000,
{
    lemma2_to64();
    lemma2_to64_rest();
    lemma_pow2_adds(e, (63 - e) as nat);
    lemma_pow2_pos(e);
    lemma_pow2_pos((62 - e) as nat);
    lemma_pow2_unfold((63 - e) as nat);
    if e < 62 {
        lemma_pow2_strictly_increases(e, 62);
    }
    let d = pow2((63 - e) as nat) as int;
    let p = pow2(e) as int;
    assert(p * d == d * p) by (nonlinear_arith);
    vstd::arithmetic::div_mod::lemma_div_by_multiple(d, p);
}

impl ClientKey {
    /// The parameters are well formed.
    pub open spec fn wf(&self) -> bool {
        self.parameters.wf()
    }

    /// The full modulus `m * c` of the key.
    pub open spec fn full_modulus(&self) -> int {
        full_modulus(self.parameters.message_modulus, self.parameters.carry_modulus)
    }

    /// The encryption of `message` modulo the message modulus: the LWE
    /// encryption of its encoding.
    pub fn encrypt<G: ByteRandomGenerator, D: NoiseDistribution<u64>>(
        &self,
        message: u64,
        noise_distribution: &D,
        generator: &mut EncryptionRandomGenerator<G>,
    ) -> (ciphertext: Ciphertext)
        requires
            self.wf(),
            self.parameters.message_modulus.0 > 0,
            self.lwe_secret_key@.len() < usize::MAX,
            old(generator).mask.pending().len() >= lwe_mask_bytes(self.lwe_secret_key@),
            old(generator).noise.pending().len() >= noise_distribution.sample_bytes(),
        ensures
            ciphertext.message_modulus == self.parameters.message_modulus,
            ciphertext.carry_modulus == self.parameters.carry_modulus,
            ciphertext.ct.ciphertext_modulus == self.parameters.ciphertext_modulus,
            ciphertext.ct@ == lwe_encryption(
                self.lwe_secret_key@,
                ((message % (self.parameters.message_modulus.0 as u64)) * encoding_delta(
                    self.full_modulus(),
                )) as u64,
                old(generator).mask.pending(),
                noise_distribution.sample(
                    old(generator).noise.pending().take(noise_distribution.sample_bytes() as int),
                ),
            ),
            final(generator).mask.pending() == old(generator).mask.pending().skip(
                lwe_mask_bytes(self.lwe_secret_key@),
            ),
            final(generator).noise.pending() == old(generator).noise.pending().skip(
                noise_distribution.sample_bytes() as int,
            ),
    {
        let message_modulus = self.parameters.message_modulus.0;
        let carry_modulus = self.parameters.carry_modulus.0;
        let ghost e = log2_of(self.full_modulus());
        proof {
            lemma_delta(e);
            assert(message_modulus <= message_modulus * carry_modulus) by (nonlinear_arith)
                requires
                    message_modulus * carry_modulus >= 1,
                    message_modulus >= 1,
            ;
        }
        let full: u64 = (message_modulus as u64) * (carry_modulus as u64);
        let delta: u64 = 0x8000_0000_0000_0000u64 / full;
        let reduced: u64 = message % (message_modulus as u64);
        proof {
            assert(reduced * delta < 0x8000_0000_0000_0000) by (nonlinear_arith)
                requires
                    reduced < full,
                    full * delta == 0x8000_0000_0000_0000,
                    delta >= 1,
            ;
        }
        let encoded: u64 = reduced * delta;
        let mut ct = LweCiphertext::new(
            0u64,
            LweSize(self.lwe_secret_key.data.len() + 1),
            self.parameters.ciphertext_modulus,
        );
        encrypt_lwe_ciphertext(
            &self.lwe_secret_key,
            &mut ct,
            encoded,
            noise_distribution,
            generator,
        );
        Ciphertext {
            ct,
            message_modulus: self.parameters.message_modulus,
            carry_modulus: self.parameters.carry_modulus,
        }
    }

    /// The message and the carry of `ciphertext`: its decryption, decoded.
    pub fn decrypt_message_and_carry(&self, ciphertext: &Ciphertext) -> (value: u64)
        requires
            self.wf(),
            ciphertext.ct@.len() == self.lwe_secret_key@.len() + 1,
        ensures
            value == decoded(
                lwe_decryption(self.lwe_secret_key@, ciphertext.ct@) as int,
                self.full_modulus(),
            ),
    {
        let x: u64 = decrypt_lwe_ciphertext(&self.lwe_secret_key, &ciphertext.ct);
        let ghost e = log2_of(self.full_modulus());
        proof {
            lemma_delta(e);
        }
        let full: u64 = (self.parameters.message_modulus.0 as u64) * (
            self.parameters.carry_modulus.0 as u64
        );
        let delta: u64 = 0x8000_0000_0000_0000u64 / full;
        proof {
            lemma_div_is_ordered_by_denominator(x as int, 2, delta as int);
        }
        let rounded: u64 = x / delta + (x / (delta / 2)) % 2;
        rounded % (2 * full)
    }

    /// The message of `ciphertext`: its decryption, decoded, modulo the
    /// message modulus of the ciphertext.
    pub fn decrypt(&self, ciphertext: &Ciphertext) -> (message: u64)
        requires
            self.wf(),
            ciphertext.ct@.len() == self.lwe_secret_key@.len() + 1,
            ciphertext.message_modulus.0 > 0,
        ensures
            message == decoded(
                lwe_decryption(self.lwe_secret_key@, ciphertext.ct@) as int,
                self.full_modulus(),
            ) % (ciphertext.message_modulus.0 as int),
    {
        self.decrypt_message_and_carry(ciphertext) % (ciphertext.message_modulus.0 as u64)
    }
}

/// What the library reads of the key of a server: the moduli of its
/// ciphertexts and their size. The bootstrapping key itself stays with the
/// caller, who evaluates lookup tables for the library.
#[derive(Clone, Copy, Debug, PartialEq, Eq)]
pub struct ServerKey {
    /// The modulus of the message.
    pub message_modulus: MessageModulus,
    /// The modulus of the carry.
    pub carry_modulus: CarryModulus,
    /// The dimension of the key of the ciphertexts.
    pub lwe_dimension: LweDimension,
    /// The modulus of the ciphertexts.
    pub ciphertext_modulus: CiphertextModulus,
}

impl ServerKey {
    /// The full modulus `m * c` of the key.
    pub open spec fn full_modulus(&self) -> int {
        full_modulus(self.message_modulus, self.carry_modulus)
    }

    /// The dimension of the key of the ciphertexts.
    pub fn ciphertext_lwe_dimension(&self) -> (dimension: LweDimension)
        ensures
            dimension == self.lwe_dimension,
    {
        self.lwe_dimension
    }

    /// The trivial ciphertext of `value` modulo the message modulus: a mask
    /// of zeros, and the encoding of the value as the body.
    pub fn create_trivial(&self, value: u64) -> (ciphertext: Ciphertext)
        requires
            is_cast_modulus(self.full_modulus()),
            self.message_modulus.0 > 0,
            self.lwe_dimension.0 < usize::MAX,
        ensures
            ciphertext.message_modulus == self.message_modulus,
            ciphertext.carry_modulus == self.carry_modulus,
            ciphertext.ct.ciphertext_modulus == self.ciphertext_modulus,
            ciphertext.ct@ == Seq::new(self.lwe_dimension.0 as nat, |i: int| 0u64).push(
                ((value % (self.message_modulus.0 as u64)) * encoding_delta(self.full_modulus()))
                    as u64,
            ),
    {
        let message_modulus = self.message_modulus.0;
        let carry_modulus = self.carry_modulus.0;
        let ghost e = log2_of(self.full_modulus());
        proof {
            lemma_delta(e);
            assert(message_modulus <= message_modulus * carry_modulus) by (nonlinear_arith)
                requires
                    message_modulus * carry_modulus >= 1,
                    message_modulus >= 1,
            ;
        }
        let full: u64 = (message_modulus as u64) * (carry_modulus as u64);
        let delta: u64 = 0x8000_0000_0000_0000u64 / full;
        let reduced: u64 = value % (message_modulus as u64);
        proof {
            assert(reduced * delta < 0x8000_0000_0000_0000) by (nonlinear_arith)
                requires
                    reduced < full,
                    full * delta == 0x8000_0000_0000_0000,
                    delta >= 1,
            ;
        }
        let encoded: u64 = reduced * delta;
        let mut data: Vec<u64> = filled(0u64, self.lwe_dimension.0);
        data.push(encoded);
        proof {
            assert(data@ =~= Seq::new(self.lwe_dimension.0 as nat, |i: int| 0u64).push(encoded));
        }
        Ciphertext {
            ct: LweCiphertext { data, ciphertext_modulus: self.ciphertext_modulus },
            message_modulus: self.message_modulus,
            carry_modulus: self.carry_modulus,
        }
    }
}

} // verus!
