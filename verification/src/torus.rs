//! Torus scalars: unsigned integers of a fixed width `W`, read as residues
//! modulo `2^W`.

use vstd::arithmetic::div_mod::{
    lemma_fundamental_div_mod, lemma_fundamental_div_mod_converse, lemma_mod_bound,
    lemma_mod_multiples_basic, lemma_mod_multiples_vanish, lemma_small_mod,
};
use vstd::arithmetic::mul::lemma_mul_is_commutative;
use vstd::arithmetic::power2::{
    lemma2_to64, lemma_pow2_adds, lemma_pow2_strictly_increases, lemma_pow2_unfold, pow2,
};
use vstd::prelude::*;

verus! {

/// An unsigned integer type of width `W`, with arithmetic modulo `2^W` and a
/// signed companion of the same width.
pub trait UnsignedTorus: Copy {
    /// The signed integer type of the same width.
    type Signed: Copy;

    /// The width `W` in bits.
    spec fn bits() -> nat;

    /// The residue in `[0, 2^W)` that the scalar stands for.
    spec fn value(self) -> int;

    /// The scalar that stands for the residue `v`.
    spec fn from_value(v: int) -> Self;

    /// The integer that a value of the signed companion stands for.
    spec fn signed_value(s: Self::Signed) -> int;

    /// The width is one of the five supported ones.
    proof fn lemma_bits()
        ensures
            Self::bits() == 8 || Self::bits() == 16 || Self::bits() == 32 || Self::bits() == 64
                || Self::bits() == 128,
    ;

    /// Scalars and residues below `2^W` correspond one to one.
    proof fn lemma_value(self)
        ensures
            0 <= self.value() < pow2(Self::bits()),
            Self::from_value(self.value()) == self,
    ;

    /// Scalars and residues below `2^W` correspond one to one.
    proof fn lemma_from_value(v: int)
        requires
            0 <= v < pow2(Self::bits()),
        ensures
            Self::from_value(v).value() == v,
    ;

    /// The width `W` in bits.
    fn bit_width() -> (w: u32)
        ensures
            w == Self::bits(),
    ;

    /// The scalar of a residue that is given as a `u128`.
    fn from_u128(x: u128) -> (r: Self)
        requires
            x < pow2(Self::bits()),
        ensures
            r.value() == x,
    ;

    /// The residue of the scalar, as a `u128`.
    fn to_u128(self) -> (x: u128)
        ensures
            x == self.value(),
    ;

    /// Addition modulo `2^W`.
    fn wrapping_add(self, rhs: Self) -> (r: Self)
        ensures
            r.value() == (self.value() + rhs.value()) % (pow2(Self::bits()) as int),
    ;

    /// Subtraction modulo `2^W`.
    fn wrapping_sub(self, rhs: Self) -> (r: Self)
        ensures
            r.value() == (self.value() - rhs.value()) % (pow2(Self::bits()) as int),
    ;

    /// Multiplication modulo `2^W`.
    fn wrapping_mul(self, rhs: Self) -> (r: Self)
        ensures
            r.value() == (self.value() * rhs.value()) % (pow2(Self::bits()) as int),
    ;

    /// The same bits read as a two's complement number.
    fn into_signed(self) -> (s: Self::Signed)
        ensures
            Self::signed_value(s) == if 2 * self.value() < pow2(Self::bits()) {
                self.value()
            } else {
                self.value() - pow2(Self::bits())
            },
    ;
}

/// A number in `[-q, 2q)` is brought into `[0, q)` by one step of `q`.
pub proof fn lemma_mod_one_step(x: int, q: int)
    requires
        q > 0,
        -q <= x < 2 * q,
    ensures
        x % q == if x < 0 {
            x + q
        } else if x < q {
            x
        } else {
            x - q
        },
{
    if x < 0 {
        lemma_fundamental_div_mod_converse(x, q, -1, x + q);
    } else if x < q {
        lemma_fundamental_div_mod_converse(x, q, 0, x);
    } else {
        lemma_fundamental_div_mod_converse(x, q, 1, x - q);
    }
}

/// `2^128`, written out.
pub proof fn lemma_pow2_128()
    ensures
        pow2(128) == 0x1_0000_0000_0000_0000_0000_0000_0000_0000int,
        pow2(64) == 0x1_0000_0000_0000_0000,
{
    lemma2_to64();
    lemma_pow2_adds(64, 64);
}

impl UnsignedTorus for u8 {
    type Signed = i8;

    open spec fn bits() -> nat {
        8
    }

    open spec fn value(self) -> int {
        self as int
    }

    open spec fn from_value(v: int) -> u8 {
        v as u8
    }

    open spec fn signed_value(s: i8) -> int {
        s as int
    }

    proof fn lemma_bits() {
    }

    proof fn lemma_value(self) {
        lemma2_to64();
    }

    proof fn lemma_from_value(v: int) {
        lemma2_to64();
    }

    fn bit_width() -> (w: u32) {
        8
    }

    fn from_u128(x: u128) -> (r: u8) {
        proof {
            lemma2_to64();
        }
        x as u8
    }

    fn to_u128(self) -> (x: u128) {
        self as u128
    }

    fn wrapping_add(self, rhs: u8) -> (r: u8) {
        proof {
            lemma2_to64();
            lemma_mod_one_step(self + rhs, 0x100);
        }
        self.wrapping_add(rhs)
    }

    fn wrapping_sub(self, rhs: u8) -> (r: u8) {
        proof {
            lemma2_to64();
            lemma_mod_one_step(self - rhs, 0x100);
        }
        self.wrapping_sub(rhs)
    }

    fn wrapping_mul(self, rhs: u8) -> (r: u8) {
        proof {
            lemma2_to64();
        }
        self.wrapping_mul(rhs)
    }

    fn into_signed(self) -> (s: i8) {
        proof {
            lemma2_to64();
        }
        if self < 0x80 {
            self as i8
        } else {
            ((self - 0x80) as i8) + i8::MIN
        }
    }
}

impl UnsignedTorus for u16 {
    type Signed = i16;

    open spec fn bits() -> nat {
        16
    }

    open spec fn value(self) -> int {
        self as int
    }

    open spec fn from_value(v: int) -> u16 {
        v as u16
    }

    open spec fn signed_value(s: i16) -> int {
        s as int
    }

    proof fn lemma_bits() {
    }

    proof fn lemma_value(self) {
        lemma2_to64();
    }

    proof fn lemma_from_value(v: int) {
        lemma2_to64();
    }

    fn bit_width() -> (w: u32) {
        16
    }

    fn from_u128(x: u128) -> (r: u16) {
        proof {
            lemma2_to64();
        }
        x as u16
    }

    fn to_u128(self) -> (x: u128) {
        self as u128
    }

    fn wrapping_add(self, rhs: u16) -> (r: u16) {
        proof {
            lemma2_to64();
            lemma_mod_one_step(self + rhs, 0x1_0000);
        }
        self.wrapping_add(rhs)
    }

    fn wrapping_sub(self, rhs: u16) -> (r: u16) {
        proof {
            lemma2_to64();
            lemma_mod_one_step(self - rhs, 0x1_0000);
        }
        self.wrapping_sub(rhs)
    }

    fn wrapping_mul(self, rhs: u16) -> (r: u16) {
        proof {
            lemma2_to64();
        }
        self.wrapping_mul(rhs)
    }

    fn into_signed(self) -> (s: i16) {
        proof {
            lemma2_to64();
        }
        if self < 0x8000 {
            self as i16
        } else {
            ((self - 0x8000) as i16) + i16::MIN
        }
    }
}

impl UnsignedTorus for u32 {
    type Signed = i32;

    open spec fn bits() -> nat {
        32
    }

    open spec fn value(self) -> int {
        self as int
    }

    open spec fn from_value(v: int) -> u32 {
        v as u32
    }

    open spec fn signed_value(s: i32) -> int {
        s as int
    }

    proof fn lemma_bits() {
    }

    proof fn lemma_value(self) {
        lemma2_to64();
    }

    proof fn lemma_from_value(v: int) {
        lemma2_to64();
    }

    fn bit_width() -> (w: u32) {
        32
    }

    fn from_u128(x: u128) -> (r: u32) {
        proof {
            lemma2_to64();
        }
        x as u32
    }

    fn to_u128(self) -> (x: u128) {
        self as u128
    }

    fn wrapping_add(self, rhs: u32) -> (r: u32) {
        proof {
            lemma2_to64();
            lemma_mod_one_step(self + rhs, 0x1_0000_0000);
        }
        self.wrapping_add(rhs)
    }

    fn wrapping_sub(self, rhs: u32) -> (r: u32) {
        proof {
            lemma2_to64();
            lemma_mod_one_step(self - rhs, 0x1_0000_0000);
        }
        self.wrapping_sub(rhs)
    }

    fn wrapping_mul(self, rhs: u32) -> (r: u32) {
        proof {
            lemma2_to64();
        }
        self.wrapping_mul(rhs)
    }

    fn into_signed(self) -> (s: i32) {
        proof {
            lemma2_to64();
        }
        if self < 0x8000_0000 {
            self as i32
        } else {
            ((self - 0x8000_0000) as i32) + i32::MIN
        }
    }
}

impl UnsignedTorus for u64 {
    type Signed = i64;

    open spec fn bits() -> nat {
        64
    }

    open spec fn value(self) -> int {
        self as int
    }

    open spec fn from_value(v: int) -> u64 {
        v as u64
    }

    open spec fn signed_value(s: i64) -> int {
        s as int
    }

    proof fn lemma_bits() {
    }

    proof fn lemma_value(self) {
        lemma2_to64();
    }

    proof fn lemma_from_value(v: int) {
        lemma2_to64();
    }

    fn bit_width() -> (w: u32) {
        64
    }

    fn from_u128(x: u128) -> (r: u64) {
        proof {
            lemma2_to64();
        }
        x as u64
    }

    fn to_u128(self) -> (x: u128) {
        self as u128
    }

    fn wrapping_add(self, rhs: u64) -> (r: u64) {
        proof {
            lemma2_to64();
            lemma_mod_one_step(self + rhs, 0x1_0000_0000_0000_0000);
        }
        self.wrapping_add(rhs)
    }

    fn wrapping_sub(self, rhs: u64) -> (r: u64) {
        proof {
            lemma2_to64();
            lemma_mod_one_step(self - rhs, 0x1_0000_0000_0000_0000);
        }
        self.wrapping_sub(rhs)
    }

    fn wrapping_mul(self, rhs: u64) -> (r: u64) {
        proof {
            lemma2_to64();
        }
        self.wrapping_mul(rhs)
    }

    fn into_signed(self) -> (s: i64) {
        proof {
            lemma2_to64();
        }
        if self < 0x8000_0000_0000_0000 {
            self as i64
        } else {
            ((self - 0x8000_0000_0000_0000) as i64) + i64::MIN
        }
    }
}

impl UnsignedTorus for u128 {
    type Signed = i128;

    open spec fn bits() -> nat {
        128
    }

    open spec fn value(self) -> int {
        self as int
    }

    open spec fn from_value(v: int) -> u128 {
        v as u128
    }

    open spec fn signed_value(s: i128) -> int {
        s as int
    }

    proof fn lemma_bits() {
    }

    proof fn lemma_value(self) {
        lemma_pow2_128();
    }

    proof fn lemma_from_value(v: int) {
        lemma_pow2_128();
    }

    fn bit_width() -> (w: u32) {
        128
    }

    fn from_u128(x: u128) -> (r: u128) {
        proof {
            lemma_pow2_128();
        }
        x as u128
    }

    fn to_u128(self) -> (x: u128) {
        self as u128
    }

    fn wrapping_add(self, rhs: u128) -> (r: u128) {
        proof {
            lemma_pow2_128();
            lemma_mod_one_step(self + rhs, 0x1_0000_0000_0000_0000_0000_0000_0000_0000int);
        }
        self.wrapping_add(rhs)
    }

    fn wrapping_sub(self, rhs: u128) -> (r: u128) {
        proof {
            lemma_pow2_128();
            lemma_mod_one_step(self - rhs, 0x1_0000_0000_0000_0000_0000_0000_0000_0000int);
        }
        self.wrapping_sub(rhs)
    }

    fn wrapping_mul(self, rhs: u128) -> (r: u128) {
        proof {
            lemma_pow2_128();
        }
        self.wrapping_mul(rhs)
    }

    fn into_signed(self) -> (s: i128) {
        proof {
            lemma_pow2_128();
        }
        if self < 0x8000_0000_0000_0000_0000_0000_0000_0000 {
            self as i128
        } else {
            ((self - 0x8000_0000_0000_0000_0000_0000_0000_0000) as i128) + i128::MIN
        }
    }
}

/// `2^exponent`, for an exponent below 128.
pub fn power_of_two_u128(exponent: u32) -> (r: u128)
    requires
        exponent < 128,
    ensures
        r == pow2(exponent as nat),
{
    let mut r: u128 = 1;
    let mut i: u32 = 0;
    proof {
        lemma2_to64();
    }
    while i < exponent
        invariant
            i <= exponent,
            exponent < 128,
            r == pow2(i as nat),
        decreases exponent - i,
    {
        proof {
            lemma_pow2_unfold((i + 1) as nat);
            lemma_pow2_128();
            lemma_pow2_strictly_increases((i + 1) as nat, 128);
        }
        r = r * 2;
        i += 1;
    }
    r
}

/// The modulus `2^W` of the torus `T`.
pub open spec fn modulus<T: UnsignedTorus>() -> int {
    pow2(T::bits()) as int
}

/// The scalar that stands for the integer `x` modulo `2^W`.
pub open spec fn reduce<T: UnsignedTorus>(x: int) -> T {
    T::from_value(x % modulus::<T>())
}

/// The sum of two scalars modulo `2^W`.
pub open spec fn wrapped_add<T: UnsignedTorus>(a: T, b: T) -> T {
    reduce(a.value() + b.value())
}

/// The difference of two scalars modulo `2^W`.
pub open spec fn wrapped_sub<T: UnsignedTorus>(a: T, b: T) -> T {
    reduce(a.value() - b.value())
}

/// The distance of a scalar from zero on the torus: its two's complement
/// reading, without the sign.
pub open spec fn torus_distance<T: UnsignedTorus>(a: T) -> int {
    if 2 * a.value() < modulus::<T>() {
        a.value()
    } else {
        modulus::<T>() - a.value()
    }
}

/// The scalar zero.
pub fn zero<T: UnsignedTorus>() -> (r: T)
    ensures
        r.value() == 0,
        r == T::from_value(0),
        r == reduce::<T>(0),
{
    proof {
        lemma_modulus::<T>();
    }
    let r = T::from_u128(0);
    proof {
        r.lemma_value();
        lemma_small_mod(0, modulus::<T>() as nat);
    }
    r
}

/// The modulus is positive, and at least `2^8`.
pub proof fn lemma_modulus<T: UnsignedTorus>()
    ensures
        modulus::<T>() >= 256,
        T::bits() >= 8,
{
    T::lemma_bits();
    lemma2_to64();
    if T::bits() > 8 {
        lemma_pow2_strictly_increases(8, T::bits());
    }
}

/// `reduce(x)` stands for `x % 2^W`.
pub proof fn lemma_reduce_value<T: UnsignedTorus>(x: int)
    ensures
        reduce::<T>(x).value() == x % modulus::<T>(),
{
    lemma_modulus::<T>();
    lemma_mod_bound(x, modulus::<T>());
    T::lemma_from_value(x % modulus::<T>());
}

/// Two scalars that stand for the same residue are the same scalar.
pub proof fn lemma_same_value<T: UnsignedTorus>(a: T, b: T)
    requires
        a.value() == b.value(),
    ensures
        a == b,
{
    a.lemma_value();
    b.lemma_value();
}

/// A scalar is the reduction of every integer in its residue class.
pub proof fn lemma_reduce_of<T: UnsignedTorus>(a: T, x: int)
    requires
        a.value() == x % modulus::<T>(),
    ensures
        a == reduce::<T>(x),
{
    lemma_reduce_value::<T>(x);
    lemma_same_value(a, reduce::<T>(x));
}

/// Congruent integers reduce to the same scalar.
pub proof fn lemma_reduce_congruent<T: UnsignedTorus>(x: int, y: int)
    requires
        (x - y) % modulus::<T>() == 0,
    ensures
        reduce::<T>(x) == reduce::<T>(y),
{
    lemma_modulus::<T>();
    let q = modulus::<T>();
    lemma_fundamental_div_mod(x - y, q);
    lemma_mod_multiples_vanish((x - y) / q, y, q);
    assert(q * ((x - y) / q) + y == x);
}

/// Reducing may be put off: the residue of a scalar may stand for the
/// scalar inside a product.
pub proof fn lemma_reduce_mul<T: UnsignedTorus>(x: int, y: int)
    ensures
        reduce::<T>(reduce::<T>(x).value() * y) == reduce::<T>(x * y),
        reduce::<T>(y * reduce::<T>(x).value()) == reduce::<T>(y * x),
{
    lemma_modulus::<T>();
    let q = modulus::<T>();
    lemma_reduce_value::<T>(x);
    lemma_fundamental_div_mod(x, q);
    let d = x / q;
    assert((x % q) * y - x * y == q * (-d * y) && y * (x % q) - y * x == q * (-d * y))
        by (nonlinear_arith)
        requires
            x == q * d + x % q,
    ;
    lemma_mod_multiples_basic(-d * y, q);
    assert((q * (-d * y)) % q == 0) by {
        lemma_mul_is_commutative(q, -d * y);
    }
    lemma_reduce_congruent::<T>((x % q) * y, x * y);
    lemma_reduce_congruent::<T>(y * (x % q), y * x);
}

/// Reducing may be put off: the residue of a scalar may stand for the
/// scalar inside a sum.
pub proof fn lemma_reduce_add<T: UnsignedTorus>(x: int, y: int)
    ensures
        reduce::<T>(reduce::<T>(x).value() + y) == reduce::<T>(x + y),
        reduce::<T>(y + reduce::<T>(x).value()) == reduce::<T>(y + x),
        reduce::<T>(y - reduce::<T>(x).value()) == reduce::<T>(y - x),
{
    lemma_modulus::<T>();
    let q = modulus::<T>();
    lemma_reduce_value::<T>(x);
    lemma_fundamental_div_mod(x, q);
    let d = x / q;
    assert(x % q + y - (x + y) == q * (-d)) by (nonlinear_arith)
        requires
            x == q * d + x % q,
    ;
    lemma_mod_multiples_basic(-d, q);
    assert((q * (-d)) % q == 0) by {
        lemma_mul_is_commutative(q, -d);
    }
    lemma_reduce_congruent::<T>(x % q + y, x + y);
    assert(y - x % q - (y - x) == q * d) by (nonlinear_arith)
        requires
            x == q * d + x % q,
    ;
    lemma_mod_multiples_basic(d, q);
    assert((q * d) % q == 0) by {
        lemma_mul_is_commutative(q, d);
    }
    lemma_reduce_congruent::<T>(y - x % q, y - x);
}

/// Two integers stand for the same scalar: they differ by a multiple of
/// `2^W`.
pub open spec fn congruent<T: UnsignedTorus>(a: int, b: int) -> bool {
    (a - b) % modulus::<T>() == 0
}

/// Integers that differ by `k * 2^W` are congruent.
pub proof fn lemma_congruent_by<T: UnsignedTorus>(a: int, b: int, k: int)
    requires
        a - b == modulus::<T>() * k,
    ensures
        congruent::<T>(a, b),
{
    lemma_modulus::<T>();
    lemma_mod_multiples_basic(k, modulus::<T>());
    lemma_mul_is_commutative(k, modulus::<T>());
}

/// Every integer is congruent to itself.
pub proof fn lemma_congruent_refl<T: UnsignedTorus>(a: int)
    ensures
        congruent::<T>(a, a),
{
    lemma_congruent_by::<T>(a, a, 0);
}

/// Congruence is symmetric.
pub proof fn lemma_congruent_sym<T: UnsignedTorus>(a: int, b: int)
    requires
        congruent::<T>(a, b),
    ensures
        congruent::<T>(b, a),
{
    let k = lemma_congruent_witness::<T>(a, b);
    let q = modulus::<T>();
    assert(b - a == q * (-k)) by (nonlinear_arith)
        requires
            a - b == q * k,
    ;
    lemma_congruent_by::<T>(b, a, -k);
}

/// Congruent integers differ by a multiple of `2^W`.
pub proof fn lemma_congruent_witness<T: UnsignedTorus>(a: int, b: int) -> (k: int)
    requires
        congruent::<T>(a, b),
    ensures
        a - b == modulus::<T>() * k,
{
    lemma_modulus::<T>();
    lemma_fundamental_div_mod(a - b, modulus::<T>());
    (a - b) / modulus::<T>()
}

/// Congruence is transitive and symmetric.
pub proof fn lemma_congruent_trans<T: UnsignedTorus>(a: int, b: int, c: int)
    requires
        congruent::<T>(a, b),
        congruent::<T>(b, c),
    ensures
        congruent::<T>(a, c),
        congruent::<T>(b, a),
        congruent::<T>(a, a),
{
    let k = lemma_congruent_witness::<T>(a, b);
    let l = lemma_congruent_witness::<T>(b, c);
    let q = modulus::<T>();
    assert(a - c == q * (k + l) && b - a == q * (-k) && a - a == q * 0) by (nonlinear_arith)
        requires
            a - b == q * k,
            b - c == q * l,
    ;
    lemma_congruent_by::<T>(a, c, k + l);
    lemma_congruent_by::<T>(b, a, -k);
    lemma_congruent_by::<T>(a, a, 0);
}

/// Sums and differences of congruent integers are congruent.
pub proof fn lemma_congruent_add<T: UnsignedTorus>(a: int, b: int, c: int, d: int)
    requires
        congruent::<T>(a, b),
        congruent::<T>(c, d),
    ensures
        congruent::<T>(a + c, b + d),
        congruent::<T>(a - c, b - d),
{
    let k = lemma_congruent_witness::<T>(a, b);
    let l = lemma_congruent_witness::<T>(c, d);
    let q = modulus::<T>();
    assert((a + c) - (b + d) == q * (k + l) && (a - c) - (b - d) == q * (k - l))
        by (nonlinear_arith)
        requires
            a - b == q * k,
            c - d == q * l,
    ;
    lemma_congruent_by::<T>(a + c, b + d, k + l);
    lemma_congruent_by::<T>(a - c, b - d, k - l);
}

/// Multiples of congruent integers are congruent.
pub proof fn lemma_congruent_mul<T: UnsignedTorus>(a: int, b: int, factor: int)
    requires
        congruent::<T>(a, b),
    ensures
        congruent::<T>(a * factor, b * factor),
        congruent::<T>(factor * a, factor * b),
{
    let k = lemma_congruent_witness::<T>(a, b);
    let q = modulus::<T>();
    assert(a * factor - b * factor == q * (k * factor) && factor * a - factor * b == q * (k
        * factor)) by (nonlinear_arith)
        requires
            a - b == q * k,
    ;
    lemma_congruent_by::<T>(a * factor, b * factor, k * factor);
    lemma_congruent_by::<T>(factor * a, factor * b, k * factor);
}

/// The residue of the scalar of an integer is congruent to the integer.
pub proof fn lemma_congruent_reduce<T: UnsignedTorus>(x: int)
    ensures
        congruent::<T>(reduce::<T>(x).value(), x),
{
    lemma_modulus::<T>();
    lemma_reduce_value::<T>(x);
    lemma_fundamental_div_mod(x, modulus::<T>());
    let q = modulus::<T>();
    assert(x % q - x == q * (-(x / q))) by (nonlinear_arith)
        requires
            x == q * (x / q) + x % q,
    ;
    lemma_congruent_by::<T>(x % q, x, -(x / q));
}

/// Integers with the same scalar are congruent.
pub proof fn lemma_congruent_of_reduce<T: UnsignedTorus>(a: int, b: int)
    requires
        reduce::<T>(a) == reduce::<T>(b),
    ensures
        congruent::<T>(a, b),
{
    lemma_congruent_reduce::<T>(a);
    lemma_congruent_reduce::<T>(b);
    lemma_congruent_sym::<T>(reduce::<T>(a).value(), a);
    lemma_congruent_trans::<T>(a, reduce::<T>(b).value(), b);
}

/// The integer of least absolute value that a scalar stands for: its
/// residue, or its residue minus `2^W` from half the torus on.
pub open spec fn signed_residue<T: UnsignedTorus>(a: T) -> int {
    if 2 * a.value() < modulus::<T>() {
        a.value()
    } else {
        a.value() - modulus::<T>()
    }
}

/// The signed residue of a scalar is congruent to its residue, and as far
/// from zero as the scalar is on the torus.
pub proof fn lemma_signed_residue<T: UnsignedTorus>(a: T)
    ensures
        congruent::<T>(a.value(), signed_residue(a)),
        signed_residue(a) <= torus_distance(a),
        -torus_distance(a) <= signed_residue(a),
{
    if 2 * a.value() < modulus::<T>() {
        lemma_congruent_by::<T>(a.value(), signed_residue(a), 0);
    } else {
        lemma_congruent_by::<T>(a.value(), signed_residue(a), 1);
    }
    a.lemma_value();
}

} // verus!
