//! The key-switching bridge: the key that casts a ciphertext from one set
//! of parameters to another.
//!
//! A cast switches the ciphertext from the key of the source parameters to
//! the key of the destination parameters. Where the two full moduli
//! differ, the encoded value is also moved to its place under the
//! destination modulus, by one evaluation of a lookup table under
//! encryption. The bridge decides which table is evaluated, under which
//! parameters, and on which side of the keyswitch; the evaluation itself is
//! the caller's, who holds the bootstrapping keys.

use crate::decomposition::decomposition_fits;
use crate::lwe::{lwe_list_encryption, lwe_mask_bytes};
use crate::lwe_keyswitch::{
    allocate_and_generate_new_lwe_keyswitch_key, keyswitch_lwe_ciphertext, keyswitch_plaintexts,
    keyswitched, LweKeyswitchKey,
};
use crate::random::{ByteRandomGenerator, EncryptionRandomGenerator, NoiseDistribution};
use crate::shortint::{
    checked_log2, encoding_delta, full_message_modulus, is_cast_modulus, lemma_delta, log2_of,
    Ciphertext, ClientKey, ServerKey, ShortintKeySwitchingParameters, MAX_FULL_MODULUS_LOG,
};
use crate::torus::power_of_two_u128;
use vstd::arithmetic::div_mod::{lemma_mod_bound, lemma_mul_mod_noop_left};
use vstd::arithmetic::power2::{lemma_pow2_pos, pow2};
use vstd::prelude::*;

verus! {

/// The function of a lookup table of a cast. With a shift `i >= 0` it is
/// `n -> n >> i`; with a shift `i < 0` it is `n -> (n << -i) mod modulus`.
#[derive(Clone, Copy, Debug, PartialEq, Eq)]
pub struct CastFunction {
    /// The shift to the right; a negative one is a shift to the left.
    pub cast_rshift: i8,
    /// The modulus that the outcome of a shift to the left is taken by.
    pub modulus: u64,
}

impl CastFunction {
    /// The value of the function at `n`.
    pub open spec fn value_at(&self, n: u64) -> int {
        if self.cast_rshift >= 0 {
            n as int / (pow2(self.cast_rshift as nat) as int)
        } else {
            (n * pow2((-self.cast_rshift) as nat)) % (self.modulus as int)
        }
    }

    /// The shift is one between two full moduli, and a shift to the left
    /// has a modulus to be taken by.
    pub open spec fn wf(&self) -> bool {
        &&& -MAX_FULL_MODULUS_LOG <= self.cast_rshift <= MAX_FULL_MODULUS_LOG
        &&& self.cast_rshift < 0 ==> self.modulus > 0
    }

    /// The value of the function at `n`.
    pub fn evaluate(&self, n: u64) -> (value: u64)
        requires
            self.wf(),
        ensures
            value == self.value_at(n),
    {
        if self.cast_rshift >= 0 {
            let divisor: u128 = power_of_two_u128(self.cast_rshift as u32);
            proof {
                lemma_pow2_pos(self.cast_rshift as nat);
                vstd::arithmetic::div_mod::lemma_div_is_ordered_by_denominator(
                    n as int,
                    1,
                    divisor as int,
                );
            }
            ((n as u128) / divisor) as u64
        } else {
            let factor: u128 = power_of_two_u128((-self.cast_rshift) as u32);
            let modulus: u128 = self.modulus as u128;
            let reduced: u128 = (n as u128) % modulus;
            proof {
                vstd::arithmetic::power2::lemma2_to64_rest();
                if (-self.cast_rshift) < 62 {
                    vstd::arithmetic::power2::lemma_pow2_strictly_increases(
                        (-self.cast_rshift) as nat,
                        62,
                    );
                }
                assert(reduced * factor <= 0xffff_ffff_ffff_ffff * 0x4000_0000_0000_0000)
                    by (nonlinear_arith)
                    requires
                        reduced <= 0xffff_ffff_ffff_ffff,
                        factor <= 0x4000_0000_0000_0000,
                ;
                lemma_mul_mod_noop_left(n as int, factor as int, modulus as int);
                lemma_mod_bound(reduced * factor, modulus as int);
            }
            ((reduced * factor) % modulus) as u64
        }
    }
}

/// Two ciphertexts are read by the same moduli.
pub open spec fn same_tags(first: Ciphertext, second: Ciphertext) -> bool {
    &&& first.ct.ciphertext_modulus == second.ct.ciphertext_modulus
    &&& first.message_modulus == second.message_modulus
    &&& first.carry_modulus == second.carry_modulus
}

/// A ciphertext is read by the moduli of `server_key`.
pub open spec fn has_tags_of(server_key: ServerKey, ciphertext: Ciphertext) -> bool {
    &&& ciphertext.ct.ciphertext_modulus == server_key.ciphertext_modulus
    &&& ciphertext.message_modulus == server_key.message_modulus
    &&& ciphertext.carry_modulus == server_key.carry_modulus
}

/// The trivial ciphertext of zero under the parameters of `server_key`.
pub open spec fn is_trivial_zero(server_key: ServerKey, ciphertext: Ciphertext) -> bool {
    &&& ciphertext.ct@ == Seq::new(server_key.lwe_dimension.0 as nat, |i: int| 0u64).push(0u64)
    &&& has_tags_of(server_key, ciphertext)
}

/// What holds of the parts of a bridge: the keyswitch key goes from the
/// dimension of the source to that of the destination, the three moduli of
/// the ciphertexts are the same, the two full moduli are powers of two,
/// and the shift is the difference of their logarithms.
pub open spec fn raw_parts_compatible(
    key_switching_key: LweKeyswitchKey<u64>,
    dest_server_key: ServerKey,
    src_server_key: ServerKey,
    cast_rshift: i8,
) -> bool {
    &&& key_switching_key.wf()
    &&& src_server_key.lwe_dimension.0 == key_switching_key.input_dimension()
    &&& dest_server_key.lwe_dimension.0 == key_switching_key.output_lwe_size.0 - 1
    &&& src_server_key.ciphertext_modulus == dest_server_key.ciphertext_modulus
    &&& key_switching_key.ciphertext_modulus == dest_server_key.ciphertext_modulus
    &&& is_cast_modulus(src_server_key.full_modulus())
    &&& is_cast_modulus(dest_server_key.full_modulus())
    &&& cast_rshift == log2_of(dest_server_key.full_modulus()) - log2_of(
        src_server_key.full_modulus(),
    )
}

/// Whether the parts can be put together to a bridge.
pub fn raw_parts_are_compatible(
    key_switching_key: &LweKeyswitchKey<u64>,
    dest_server_key: &ServerKey,
    src_server_key: &ServerKey,
    cast_rshift: i8,
) -> (ok: bool)
    ensures
        ok == raw_parts_compatible(
            *key_switching_key,
            *dest_server_key,
            *src_server_key,
            cast_rshift,
        ),
{
    if !key_switching_key.is_well_formed() {
        return false;
    }
    if src_server_key.lwe_dimension.0 != key_switching_key.input_key_lwe_dimension().0 {
        return false;
    }
    if dest_server_key.lwe_dimension.0 != key_switching_key.output_key_lwe_dimension().0 {
        return false;
    }
    if src_server_key.ciphertext_modulus.0 != dest_server_key.ciphertext_modulus.0 {
        return false;
    }
    if key_switching_key.ciphertext_modulus.0 != dest_server_key.ciphertext_modulus.0 {
        return false;
    }
    let src_log = checked_log2(
        full_message_modulus(src_server_key.message_modulus, src_server_key.carry_modulus),
    );
    let dest_log = checked_log2(
        full_message_modulus(dest_server_key.message_modulus, dest_server_key.carry_modulus),
    );
    match (src_log, dest_log) {
        (Some(src_log), Some(dest_log)) => cast_rshift as i32 == dest_log as i32 - src_log as i32,
        _ => false,
    }
}

/// The key that casts ciphertexts from the parameters of a source key to
/// those of a destination key.
pub struct KeySwitchingKey {
    /// The keyswitch key from the key of the source to that of the
    /// destination.
    pub key_switching_key: LweKeyswitchKey<u64>,
    /// The key of the server of the destination.
    pub dest_server_key: ServerKey,
    /// The key of the server of the source.
    pub src_server_key: ServerKey,
    /// The logarithm of the full modulus of the destination minus that of
    /// the source.
    pub cast_rshift: i8,
}

impl KeySwitchingKey {
    /// The parts of the bridge fit together.
    pub open spec fn wf(&self) -> bool {
        raw_parts_compatible(
            self.key_switching_key,
            self.dest_server_key,
            self.src_server_key,
            self.cast_rshift,
        )
    }

    /// The lookup table that a cast evaluates under the parameters of the
    /// destination, after the keyswitch, where the destination is wider.
    pub open spec fn dest_function(&self) -> CastFunction {
        CastFunction {
            cast_rshift: self.cast_rshift,
            modulus: self.dest_server_key.full_modulus() as u64,
        }
    }

    /// The lookup table that a cast evaluates under the parameters of the
    /// source, before the keyswitch, where the destination is narrower.
    pub open spec fn src_function(&self) -> CastFunction {
        CastFunction {
            cast_rshift: self.cast_rshift,
            modulus: self.src_server_key.full_modulus() as u64,
        }
    }

    /// The keyswitch of `ciphertext` by the keyswitch key of the bridge.
    pub open spec fn switched(&self, ciphertext: Seq<u64>) -> Seq<u64> {
        keyswitched(
            self.key_switching_key@,
            self.key_switching_key.decomp_base_log.0 as nat,
            self.key_switching_key.decomp_level_count.0 as nat,
            self.key_switching_key.output_lwe_size.0 as int,
            ciphertext,
        )
    }

    /// A ciphertext that the bridge can cast: one under the key and the
    /// moduli of the source.
    pub open spec fn accepts(&self, ct: &Ciphertext) -> bool {
        &&& ct.ct@.len() == self.key_switching_key.input_dimension() + 1
        &&& ct.ct.ciphertext_modulus == self.key_switching_key.ciphertext_modulus
        &&& ct.message_modulus == self.src_server_key.message_modulus
        &&& ct.carry_modulus == self.src_server_key.carry_modulus
    }

    /// A ciphertext that the bridge can cast into: one of the size and the
    /// modulus of the destination.
    pub open spec fn fills(&self, ct_dest: &Ciphertext) -> bool {
        &&& ct_dest.ct@.len() == self.key_switching_key.output_lwe_size.0
        &&& ct_dest.ct.ciphertext_modulus == self.key_switching_key.ciphertext_modulus
    }

    /// What a cast of `ct` makes of a destination that held `before`.
    ///
    /// With a shift of zero the destination holds the keyswitch of `ct`.
    /// With a shift to the right it holds what `evaluate_dest` made of the
    /// keyswitch of `ct` and the table of the destination. With a shift to
    /// the left it holds the keyswitch of what `evaluate_src` made of `ct`
    /// and the table of the source, if that has the size and the modulus of
    /// `ct`; else it holds what it held before.
    pub open spec fn cast_outcome<FS, FD>(
        &self,
        ct: &Ciphertext,
        before: Ciphertext,
        evaluate_src: FS,
        evaluate_dest: FD,
        after: Ciphertext,
    ) -> bool where
        FS: Fn(&Ciphertext, CastFunction) -> Ciphertext,
        FD: Fn(&Ciphertext, CastFunction) -> Ciphertext,
     {
        &&& self.cast_rshift == 0 ==> {
            &&& after.ct@ == self.switched(ct.ct@)
            &&& same_tags(after, before)
        }
        &&& self.cast_rshift > 0 ==> exists|switched: &Ciphertext|
            {
                &&& switched.ct@ == self.switched(ct.ct@)
                &&& same_tags(*switched, before)
                &&& #[trigger] call_ensures(
                    evaluate_dest,
                    (switched, self.dest_function()),
                    after,
                )
            }
        &&& self.cast_rshift < 0 ==> exists|shifted: Ciphertext|
            {
                &&& #[trigger] call_ensures(evaluate_src, (ct, self.src_function()), shifted)
                &&& same_tags(after, before)
                &&& if shifted.ct@.len() == ct.ct@.len() && shifted.ct.ciphertext_modulus
                    == ct.ct.ciphertext_modulus {
                    after.ct@ == self.switched(shifted.ct@)
                } else {
                    after.ct@ == before.ct@
                }
            }
    }

    /// A new bridge from the keys of `key_pair_1` to those of `key_pair_2`:
    /// a fresh keyswitch key between the secret keys of the two clients,
    /// with the decomposition of `params`, and the shift between the two
    /// full moduli.
    pub fn new<G: ByteRandomGenerator, D: NoiseDistribution<u64>>(
        key_pair_1: (&ClientKey, &ServerKey),
        key_pair_2: (&ClientKey, &ServerKey),
        params: ShortintKeySwitchingParameters,
        noise_distribution: &D,
        generator: &mut EncryptionRandomGenerator<G>,
    ) -> (key: Self)
        requires
            is_cast_modulus(key_pair_1.0.full_modulus()),
            is_cast_modulus(key_pair_2.0.full_modulus()),
            key_pair_1.1.message_modulus == key_pair_1.0.parameters.message_modulus,
            key_pair_1.1.carry_modulus == key_pair_1.0.parameters.carry_modulus,
            key_pair_2.1.message_modulus == key_pair_2.0.parameters.message_modulus,
            key_pair_2.1.carry_modulus == key_pair_2.0.parameters.carry_modulus,
            key_pair_1.1.lwe_dimension.0 == key_pair_1.0.lwe_secret_key@.len(),
            key_pair_2.1.lwe_dimension.0 == key_pair_2.0.lwe_secret_key@.len(),
            key_pair_1.1.ciphertext_modulus == key_pair_2.1.ciphertext_modulus,
            key_pair_2.0.parameters.ciphertext_modulus == key_pair_2.1.ciphertext_modulus,
            decomposition_fits::<u64>(params.ks_base_log.0 as nat, params.ks_level.0 as nat),
            key_pair_1.0.lwe_secret_key@.len() * (params.ks_level.0 * (
            key_pair_2.0.lwe_secret_key@.len() + 1)) <= usize::MAX,
            params.ks_level.0 * (key_pair_2.0.lwe_secret_key@.len() + 1) <= usize::MAX,
            old(generator).mask.pending().len() >= key_pair_1.0.lwe_secret_key@.len()
                * params.ks_level.0 * lwe_mask_bytes(key_pair_2.0.lwe_secret_key@),
            old(generator).noise.pending().len() >= key_pair_1.0.lwe_secret_key@.len()
                * params.ks_level.0 * noise_distribution.sample_bytes(),
        ensures
            key.wf(),
            key.dest_server_key == *key_pair_2.1,
            key.src_server_key == *key_pair_1.1,
            key.cast_rshift == log2_of(key_pair_2.0.full_modulus()) - log2_of(
                key_pair_1.0.full_modulus(),
            ),
            key.key_switching_key.decomp_base_log == params.ks_base_log,
            key.key_switching_key.decomp_level_count == params.ks_level,
            key.key_switching_key@ == lwe_list_encryption(
                key_pair_2.0.lwe_secret_key@,
                keyswitch_plaintexts(
                    key_pair_1.0.lwe_secret_key@,
                    params.ks_base_log.0 as nat,
                    params.ks_level.0 as nat,
                ),
                old(generator).mask.pending(),
                old(generator).noise.pending(),
                *noise_distribution,
                key_pair_1.0.lwe_secret_key@.len() * params.ks_level.0,
            ),
            final(generator).mask.pending() == old(generator).mask.pending().skip(
                key_pair_1.0.lwe_secret_key@.len() * params.ks_level.0 * lwe_mask_bytes(
                    key_pair_2.0.lwe_secret_key@,
                ),
            ),
            final(generator).noise.pending() == old(generator).noise.pending().skip(
                key_pair_1.0.lwe_secret_key@.len() * params.ks_level.0
                    * noise_distribution.sample_bytes(),
            ),
    {
        let key_switching_key = allocate_and_generate_new_lwe_keyswitch_key(
            &key_pair_1.0.lwe_secret_key,
            &key_pair_2.0.lwe_secret_key,
            params.ks_base_log,
            params.ks_level,
            noise_distribution,
            key_pair_2.0.parameters.ciphertext_modulus,
            generator,
        );
        let full_message_modulus_1: u128 = full_message_modulus(
            key_pair_1.0.parameters.message_modulus,
            key_pair_1.0.parameters.carry_modulus,
        );
        let full_message_modulus_2: u128 = full_message_modulus(
            key_pair_2.0.parameters.message_modulus,
            key_pair_2.0.parameters.carry_modulus,
        );
        let nb_bits_1: i8 = match checked_log2(full_message_modulus_1) {
            Some(log) => log as i8,
            None => vstd::pervasive::unreached(),
        };
        let nb_bits_2: i8 = match checked_log2(full_message_modulus_2) {
            Some(log) => log as i8,
            None => vstd::pervasive::unreached(),
        };
        KeySwitchingKey {
            key_switching_key,
            dest_server_key: *key_pair_2.1,
            src_server_key: *key_pair_1.1,
            cast_rshift: nb_bits_2 - nb_bits_1,
        }
    }

    /// Casts `ct` from the parameters of the source to those of the
    /// destination, into `ct_dest`.
    ///
    /// With a shift of zero the cast is the keyswitch. Where the
    /// destination is wider, the ciphertext is switched first, and the
    /// table `n -> n >> cast_rshift` is then evaluated on the outcome under
    /// the destination parameters: the bits that the keyswitch leaves below
    /// the value hold only noise, and the table clears them. Where the
    /// destination is narrower, the table
    /// `n -> (n << -cast_rshift) mod (m * c)` is evaluated first, under the
    /// source parameters, and the outcome is switched: the shift has to be
    /// made while the padding bit is still clear.
    ///
    /// `evaluate_src` and `evaluate_dest` evaluate a lookup table on a
    /// ciphertext under the bootstrapping key of the source and of the
    /// destination. What `evaluate_src` hands back is switched only if it has
    /// the size and the modulus of the ciphertext that it was given;
    /// otherwise `ct_dest` is left as it was.
    pub fn cast_into<FS, FD>(
        &self,
        ct: &Ciphertext,
        ct_dest: &mut Ciphertext,
        evaluate_src: FS,
        evaluate_dest: FD,
    ) where FS: Fn(&Ciphertext, CastFunction) -> Ciphertext, FD: Fn(
        &Ciphertext,
        CastFunction,
    ) -> Ciphertext
        requires
            self.wf(),
            self.accepts(ct),
            self.fills(old(ct_dest)),
            self.cast_rshift < 0 ==> call_requires(evaluate_src, (ct, self.src_function())),
            self.cast_rshift > 0 ==> forall|switched: &Ciphertext|
                switched.ct@ == self.switched(ct.ct@) && same_tags(*switched, *old(ct_dest))
                    ==> call_requires(evaluate_dest, (switched, self.dest_function())),
        ensures
            self.cast_outcome(ct, *old(ct_dest), evaluate_src, evaluate_dest, *final(ct_dest)),
    {
        let i = self.cast_rshift;
        proof {
            lemma_delta(log2_of(self.src_server_key.full_modulus()));
            lemma_delta(log2_of(self.dest_server_key.full_modulus()));
        }
        if i == 0 {
            keyswitch_lwe_ciphertext(&self.key_switching_key, &ct.ct, &mut ct_dest.ct);
        } else if i > 0 {
            keyswitch_lwe_ciphertext(&self.key_switching_key, &ct.ct, &mut ct_dest.ct);
            let table = CastFunction {
                cast_rshift: i,
                modulus: full_message_modulus(
                    self.dest_server_key.message_modulus,
                    self.dest_server_key.carry_modulus,
                ) as u64,
            };
            let ghost switched = *ct_dest;
            proof {
                assert(same_tags(switched, *old(ct_dest)));
            }
            let evaluated = evaluate_dest(&*ct_dest, table);
            *ct_dest = evaluated;
            proof {
                assert(call_ensures(evaluate_dest, (&switched, self.dest_function()), *ct_dest));
            }
        } else {
            let table = CastFunction {
                cast_rshift: i,
                modulus: full_message_modulus(
                    self.src_server_key.message_modulus,
                    self.src_server_key.carry_modulus,
                ) as u64,
            };
            let shifted_cipher = evaluate_src(ct, table);
            if shifted_cipher.ct.data.len() == ct.ct.data.len()
                && shifted_cipher.ct.ciphertext_modulus.0 == ct.ct.ciphertext_modulus.0 {
                keyswitch_lwe_ciphertext(
                    &self.key_switching_key,
                    &shifted_cipher.ct,
                    &mut ct_dest.ct,
                );
            }
            proof {
                assert(call_ensures(evaluate_src, (ct, self.src_function()), shifted_cipher));
                assert(shifted_cipher.ct.ciphertext_modulus == ct.ct.ciphertext_modulus
                    <==> shifted_cipher.ct.ciphertext_modulus.0 == ct.ct.ciphertext_modulus.0);
            }
        }
    }

    /// Casts `ct` from the parameters of the source to those of the
    /// destination, into a new ciphertext: a trivial ciphertext of zero
    /// under the destination parameters, which `cast_into` then fills.
    pub fn cast<FS, FD>(&self, ct: &Ciphertext, evaluate_src: FS, evaluate_dest: FD) -> (ret:
        Ciphertext) where
        FS: Fn(&Ciphertext, CastFunction) -> Ciphertext,
        FD: Fn(&Ciphertext, CastFunction) -> Ciphertext,

        requires
            self.wf(),
            self.accepts(ct),
            self.dest_server_key.message_modulus.0 > 0,
            self.cast_rshift < 0 ==> call_requires(evaluate_src, (ct, self.src_function())),
            self.cast_rshift > 0 ==> forall|switched: &Ciphertext|
                switched.ct@ == self.switched(ct.ct@) && has_tags_of(
                    self.dest_server_key,
                    *switched,
                ) ==> call_requires(evaluate_dest, (switched, self.dest_function())),
        ensures
            exists|before: Ciphertext|
                is_trivial_zero(self.dest_server_key, before) && #[trigger] self.cast_outcome(
                    ct,
                    before,
                    evaluate_src,
                    evaluate_dest,
                    ret,
                ),
    {
        let mut ret = self.dest_server_key.create_trivial(0);
        let ghost before = ret;
        proof {
            let delta = encoding_delta(self.dest_server_key.full_modulus());
            let zero = 0u64 % (self.dest_server_key.message_modulus.0 as u64);
            assert(zero * delta == 0) by (nonlinear_arith)
                requires
                    zero == 0,
            ;
            assert(is_trivial_zero(self.dest_server_key, before));
            if self.cast_rshift > 0 {
                assert forall|switched: &Ciphertext|
                    switched.ct@ == self.switched(ct.ct@) && same_tags(
                        *switched,
                        before,
                    ) implies call_requires(evaluate_dest, (switched, self.dest_function())) by {
                    assert(has_tags_of(self.dest_server_key, *switched));
                }
            }
        }
        self.cast_into(ct, &mut ret, evaluate_src, evaluate_dest);
        ret
    }

    /// The parts of the bridge.
    pub fn into_raw_parts(self) -> (parts: (LweKeyswitchKey<u64>, ServerKey, ServerKey, i8))
        ensures
            parts.0 == self.key_switching_key,
            parts.1 == self.dest_server_key,
            parts.2 == self.src_server_key,
            parts.3 == self.cast_rshift,
    {
        let Self { key_switching_key, dest_server_key, src_server_key, cast_rshift } = self;
        (key_switching_key, dest_server_key, src_server_key, cast_rshift)
    }

    /// The bridge of the given parts, which fit together.
    pub fn from_raw_parts(
        key_switching_key: LweKeyswitchKey<u64>,
        dest_server_key: ServerKey,
        src_server_key: ServerKey,
        cast_rshift: i8,
    ) -> (key: Self)
        requires
            raw_parts_compatible(key_switching_key, dest_server_key, src_server_key, cast_rshift),
        ensures
            key.wf(),
            key.key_switching_key == key_switching_key,
            key.dest_server_key == dest_server_key,
            key.src_server_key == src_server_key,
            key.cast_rshift == cast_rshift,
    {
        KeySwitchingKey { key_switching_key, dest_server_key, src_server_key, cast_rshift }
    }
}

} // verus!
