//! Verified core of a GLWE-based homomorphic encryption library.
//!
//! - `torus`, `polynomial`: scalars modulo `2^W` and polynomials modulo
//!   `X^N + 1` over them.
//! - `random`, `csprng`, `t_uniform`: the byte generators, the pair of a
//!   mask and a noise generator, and the noise distributions.
//! - `entities`, `glwe_encryption`, `wire`: GLWE keys and ciphertexts, their
//!   encryption, decryption and trivial encryption, and their layout in
//!   bytes.
//! - `lwe`, `decomposition`, `lwe_keyswitch`: LWE ciphertexts and the
//!   keyswitch between two LWE keys.
//! - `shortint`, `key_switching_key`: ciphertexts of small integers, and
//!   the bridge that casts them from one set of parameters to another.
//! - `glwe_laws`, `lwe_laws`, `keyswitch_laws`, `cast_laws`: what is proved
//!   of these together: decryption undoes encryption up to the noise, a
//!   keyswitch and a cast keep the message.

pub mod cast_laws;
pub mod csprng;
pub mod decomposition;
pub mod entities;
pub mod glwe_encryption;
pub mod glwe_laws;
pub mod key_switching_key;
pub mod keyswitch_laws;
pub mod lwe;
pub mod lwe_keyswitch;
pub mod lwe_laws;
pub mod polynomial;
pub mod random;
pub mod shortint;
pub mod t_uniform;
pub mod torus;
pub mod wire;
