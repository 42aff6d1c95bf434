//! The layout of ciphertexts on the wire: the scalars in their order, each
//! as its `W / 8` bytes, the least significant byte first.
//!
//! A GLWE ciphertext is written as the scalars of its mask, then those of
//! its body, each polynomial with its coefficients in natural order; a list
//! of ciphertexts is written as its ciphertexts one after the other.

use crate::random::{
    le_bytes_to_u128, le_value, lemma_le_value_bound, scalar_bytes, uniform_scalar, uniform_scalars,
};
use crate::torus::{lemma_modulus, UnsignedTorus};
use vstd::arithmetic::div_mod::lemma_fundamental_div_mod;
use vstd::arithmetic::power2::{lemma2_to64, lemma_pow2_adds, lemma_pow2_pos, pow2};
use vstd::prelude::*;

verus! {

/// The `count` least significant bytes of `value`, the least significant
/// first.
pub open spec fn le_bytes(value: int, count: nat) -> Seq<u8>
    decreases count,
{
    if count == 0 {
        Seq::empty()
    } else {
        seq![(value % 256) as u8] + le_bytes(value / 256, (count - 1) as nat)
    }
}

/// The bytes of a run of scalars on the wire.
pub open spec fn wire_bytes<T: UnsignedTorus>(scalars: Seq<T>) -> Seq<u8>
    decreases scalars.len(),
{
    if scalars.len() == 0 {
        Seq::empty()
    } else {
        wire_bytes(scalars.drop_last()) + le_bytes(
            scalars.last().value(),
            scalar_bytes::<T>() as nat,
        )
    }
}

/// `count` bytes are written for `count` bytes.
pub proof fn lemma_le_bytes_len(value: int, count: nat)
    ensures
        le_bytes(value, count).len() == count,
    decreases count,
{
    if count > 0 {
        lemma_le_bytes_len(value / 256, (count - 1) as nat);
    }
}

/// The bytes of a number below `2^(8 count)` stand for the number.
pub proof fn lemma_le_value_of_le_bytes(value: int, count: nat)
    requires
        0 <= value < pow2(8 * count),
    ensures
        le_value(le_bytes(value, count)) == value,
    decreases count,
{
    if count == 0 {
        lemma2_to64();
    } else {
        let rest = (count - 1) as nat;
        lemma2_to64();
        lemma_pow2_adds(8, 8 * rest);
        assert(8 + 8 * rest == 8 * count);
        lemma_pow2_pos(8 * rest);
        lemma_fundamental_div_mod(value, 256);
        assert(value / 256 < pow2(8 * rest)) by (nonlinear_arith)
            requires
                value == 256 * (value / 256) + value % 256,
                0 <= value % 256,
                value < 256 * pow2(8 * rest),
        ;
        lemma_le_value_of_le_bytes(value / 256, rest);
        let bytes = le_bytes(value, count);
        assert(bytes.drop_first() =~= le_bytes(value / 256, rest));
    }
}

/// A run of `n` scalars takes `n * W / 8` bytes on the wire.
pub proof fn lemma_wire_bytes_len<T: UnsignedTorus>(scalars: Seq<T>)
    ensures
        wire_bytes(scalars).len() == scalars.len() * scalar_bytes::<T>(),
    decreases scalars.len(),
{
    if scalars.len() > 0 {
        lemma_wire_bytes_len(scalars.drop_last());
        lemma_le_bytes_len(scalars.last().value(), scalar_bytes::<T>() as nat);
        assert((scalars.len() - 1) * scalar_bytes::<T>() + scalar_bytes::<T>() == scalars.len()
            * scalar_bytes::<T>()) by (nonlinear_arith);
    } else {
        assert(0 * scalar_bytes::<T>() == 0) by (nonlinear_arith);
    }
}

/// Reading back what was written gives the scalars that were written, bit
/// for bit.
pub proof fn lemma_read_of_written<T: UnsignedTorus>(scalars: Seq<T>)
    ensures
        uniform_scalars::<T>(wire_bytes(scalars), scalars.len() as int) == scalars,
    decreases scalars.len(),
{
    let w = scalar_bytes::<T>();
    let bytes = wire_bytes(scalars);
    let read = uniform_scalars::<T>(bytes, scalars.len() as int);
    T::lemma_bits();
    if scalars.len() > 0 {
        let before = scalars.drop_last();
        let last = scalars.last();
        lemma_read_of_written(before);
        lemma_wire_bytes_len(before);
        lemma_le_bytes_len(last.value(), w as nat);
        assert forall|i: int| 0 <= i < scalars.len() implies read[i] == scalars[i] by {
            assert(0 <= i * w && i * w + w <= scalars.len() * w) by (nonlinear_arith)
                requires
                    0 <= i < scalars.len(),
                    0 <= w,
            ;
            if i < before.len() {
                assert(i * w + w <= before.len() * w) by (nonlinear_arith)
                    requires
                        0 <= i < before.len(),
                        0 <= w,
                ;
                assert(bytes.subrange(i * w, i * w + w) =~= wire_bytes(before).subrange(
                    i * w,
                    i * w + w,
                ));
                assert(uniform_scalars::<T>(wire_bytes(before), before.len() as int)[i]
                    == before[i]);
            } else {
                assert(bytes.subrange(i * w, i * w + w) =~= le_bytes(last.value(), w as nat));
                last.lemma_value();
                assert(8 * (w as nat) == T::bits());
                lemma_le_value_of_le_bytes(last.value(), w as nat);
            }
        }
        assert(read =~= scalars);
    } else {
        assert(read =~= scalars);
    }
}

/// The bytes of `scalars` on the wire.
pub fn scalars_to_le_bytes<T: UnsignedTorus>(scalars: &[T]) -> (bytes: Vec<u8>)
    ensures
        bytes@ == wire_bytes(scalars@),
{
    proof {
        T::lemma_bits();
    }
    let width: usize = (T::bit_width() / 8) as usize;
    let n: usize = scalars.len();
    let mut bytes: Vec<u8> = Vec::new();
    let mut i: usize = 0;
    proof {
        assert(scalars@.take(0) =~= Seq::<T>::empty());
    }
    while i < n
        invariant
            i <= n,
            n == scalars@.len(),
            width == scalar_bytes::<T>(),
            bytes@ == wire_bytes(scalars@.take(i as int)),
        decreases n - i,
    {
        let mut rest: u128 = scalars[i].to_u128();
        let ghost value = rest as int;
        let ghost before = bytes@;
        let mut j: usize = 0;
        proof {
            assert(before + Seq::<u8>::empty() =~= before);
        }
        while j < width
            invariant
                j <= width,
                bytes@.len() == before.len() + j,
                bytes@ + le_bytes(rest as int, (width - j) as nat) == before + le_bytes(
                    value,
                    width as nat,
                ),
            decreases width - j,
        {
            let ghost old_bytes = bytes@;
            bytes.push((rest % 256) as u8);
            proof {
                assert(bytes@ + le_bytes((rest / 256) as int, (width - j - 1) as nat)
                    =~= old_bytes + le_bytes(rest as int, (width - j) as nat));
            }
            rest = rest / 256;
            j += 1;
        }
        proof {
            assert(bytes@ + Seq::<u8>::empty() =~= bytes@);
            let taken = scalars@.take(i + 1);
            assert(taken.drop_last() =~= scalars@.take(i as int));
        }
        i += 1;
    }
    proof {
        assert(scalars@.take(n as int) =~= scalars@);
    }
    bytes
}

/// The scalars that `bytes` hold on the wire, where `bytes` is a whole
/// number of scalars.
pub fn scalars_from_le_bytes<T: UnsignedTorus>(bytes: &[u8]) -> (scalars: Option<Vec<T>>)
    ensures
        scalars is Some <==> bytes@.len() % (scalar_bytes::<T>() as nat) == 0,
        scalars is Some ==> scalars->0@ == uniform_scalars::<T>(
            bytes@,
            (bytes@.len() / (scalar_bytes::<T>() as nat)) as int,
        ),
{
    proof {
        T::lemma_bits();
    }
    let width: usize = (T::bit_width() / 8) as usize;
    if bytes.len() % width != 0 {
        return None;
    }
    let count: usize = bytes.len() / width;
    let mut scalars: Vec<T> = Vec::new();
    let mut i: usize = 0;
    let mut start: usize = 0;
    proof {
        lemma_fundamental_div_mod(bytes@.len() as int, width as int);
        assert(width * count == count * width) by (nonlinear_arith);
        assert(bytes.len() == bytes@.len());
    }
    while i < count
        invariant
            i <= count,
            width == scalar_bytes::<T>(),
            0 < width <= 16,
            8 * width == T::bits(),
            bytes@.len() == count * width,
            bytes@.len() <= usize::MAX,
            start == i * width,
            scalars@.len() == i,
            forall|j: int|
                0 <= j < i ==> scalars@[j] == uniform_scalar::<T>(
                    bytes@.subrange(j * width, j * width + width),
                ),
        decreases count - i,
    {
        proof {
            assert(i * width + width <= count * width && (i + 1) * width == i * width + width)
                by (nonlinear_arith)
                requires
                    i < count,
                    0 < width,
            ;
        }
        let chunk = vstd::slice::slice_subrange(bytes, start, start + width);
        let x = le_bytes_to_u128(chunk);
        proof {
            lemma_le_value_bound(chunk@);
            lemma_modulus::<T>();
        }
        let scalar = T::from_u128(x);
        proof {
            scalar.lemma_value();
            uniform_scalar::<T>(chunk@).lemma_value();
            T::lemma_from_value(x as int);
        }
        scalars.push(scalar);
        i += 1;
        start += width;
    }
    proof {
        assert(scalars@ =~= uniform_scalars::<T>(bytes@, count as int));
    }
    Some(scalars)
}

} // verus!
