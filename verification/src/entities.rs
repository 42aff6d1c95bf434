//! The data of the GLWE scheme: plaintext lists, secret keys, ciphertexts
//! and lists of ciphertexts, each a flat run of torus scalars together with
//! the sizes that give it its shape.

use crate::random::{ByteRandomGenerator, RandomGenerator};
use crate::torus::UnsignedTorus;
use vstd::prelude::*;

verus! {

/// The number of polynomials of a GLWE ciphertext: those of the mask and
/// the body.
#[derive(Clone, Copy, Debug, PartialEq, Eq)]
pub struct GlweSize(pub usize);

/// The number `k` of polynomials of a GLWE secret key, and of the mask of a
/// GLWE ciphertext.
#[derive(Clone, Copy, Debug, PartialEq, Eq)]
pub struct GlweDimension(pub usize);

/// The number `N` of coefficients of a polynomial.
#[derive(Clone, Copy, Debug, PartialEq, Eq)]
pub struct PolynomialSize(pub usize);

/// The number of scalars of a plaintext list.
#[derive(Clone, Copy, Debug, PartialEq, Eq)]
pub struct PlaintextCount(pub usize);

/// The number of ciphertexts of a list of GLWE ciphertexts.
#[derive(Clone, Copy, Debug, PartialEq, Eq)]
pub struct GlweCiphertextCount(pub usize);

impl GlweSize {
    /// The dimension of the keys that ciphertexts of this size are made
    /// with.
    pub fn to_glwe_dimension(&self) -> (dimension: GlweDimension)
        requires
            self.0 > 0,
        ensures
            dimension.0 == self.0 - 1,
    {
        GlweDimension(self.0 - 1)
    }
}

impl GlweDimension {
    /// The size of the ciphertexts that keys of this dimension make.
    pub fn to_glwe_size(&self) -> (size: GlweSize)
        requires
            self.0 < usize::MAX,
        ensures
            size.0 == self.0 + 1,
    {
        GlweSize(self.0 + 1)
    }
}

/// A vector of `count` copies of `fill`.
pub fn filled<T: Copy>(fill: T, count: usize) -> (data: Vec<T>)
    ensures
        data@ == Seq::new(count as nat, |i: int| fill),
{
    let mut data: Vec<T> = Vec::new();
    let mut i: usize = 0;
    while i < count
        invariant
            i <= count,
            data@.len() == i,
            forall|j: int| 0 <= j < i ==> data@[j] == fill,
        decreases count - i,
    {
        data.push(fill);
        i += 1;
    }
    proof {
        assert(data@ =~= Seq::new(count as nat, |i: int| fill));
    }
    data
}

/// An ordered list of plaintext scalars. It reads as one polynomial, or as
/// one polynomial for each run of `N` scalars.
pub struct PlaintextList<T: UnsignedTorus> {
    /// The scalars, in order.
    pub data: Vec<T>,
}

impl<T: UnsignedTorus> View for PlaintextList<T> {
    type V = Seq<T>;

    open spec fn view(&self) -> Seq<T> {
        self.data@
    }
}

impl<T: UnsignedTorus> PlaintextList<T> {
    /// A list of `count` copies of `fill`.
    pub fn new(fill: T, count: PlaintextCount) -> (list: Self)
        ensures
            list@ == Seq::new(count.0 as nat, |i: int| fill),
    {
        PlaintextList { data: filled(fill, count.0) }
    }

    /// The list of the scalars of `container`.
    pub fn from_container(container: Vec<T>) -> (list: Self)
        ensures
            list@ == container@,
    {
        PlaintextList { data: container }
    }

    /// The scalars of the list.
    pub fn into_container(self) -> (container: Vec<T>)
        ensures
            container@ == self@,
    {
        self.data
    }

    /// The number of scalars of the list.
    pub fn plaintext_count(&self) -> (count: PlaintextCount)
        ensures
            count.0 == self@.len(),
    {
        PlaintextCount(self.data.len())
    }
}

/// A GLWE secret key: `k` polynomials of `N` coefficients, one after the
/// other.
pub struct GlweSecretKey<T: UnsignedTorus> {
    /// The coefficients of the `k` polynomials.
    pub data: Vec<T>,
    /// The number `N` of coefficients of each polynomial.
    pub polynomial_size: PolynomialSize,
}

impl<T: UnsignedTorus> View for GlweSecretKey<T> {
    type V = Seq<T>;

    open spec fn view(&self) -> Seq<T> {
        self.data@
    }
}

impl<T: UnsignedTorus> GlweSecretKey<T> {
    /// The key is made of whole polynomials.
    pub open spec fn wf(&self) -> bool {
        &&& self.polynomial_size.0 > 0
        &&& self.data@.len() % (self.polynomial_size.0 as nat) == 0
    }

    /// The number `k` of polynomials of the key.
    pub open spec fn dimension(&self) -> nat {
        self.data@.len() / (self.polynomial_size.0 as nat)
    }

    /// Every coefficient of the key is 0 or 1.
    pub open spec fn is_binary(&self) -> bool {
        forall|i: int| 0 <= i < self@.len() ==> self@[i].value() == 0 || self@[i].value() == 1
    }

    /// The key of the coefficients of `container`.
    pub fn from_container(container: Vec<T>, polynomial_size: PolynomialSize) -> (key: Self)
        requires
            polynomial_size.0 > 0,
            container@.len() % (polynomial_size.0 as nat) == 0,
        ensures
            key.wf(),
            key@ == container@,
            key.polynomial_size == polynomial_size,
    {
        GlweSecretKey { data: container, polynomial_size }
    }

    /// The coefficients of the key.
    pub fn into_container(self) -> (container: Vec<T>)
        ensures
            container@ == self@,
    {
        self.data
    }

    /// The number `k` of polynomials of the key.
    pub fn glwe_dimension(&self) -> (dimension: GlweDimension)
        requires
            self.wf(),
        ensures
            dimension.0 == self.dimension(),
    {
        GlweDimension(self.data.len() / self.polynomial_size.0)
    }

    /// The number `N` of coefficients of each polynomial.
    pub fn polynomial_size(&self) -> (size: PolynomialSize)
        ensures
            size == self.polynomial_size,
    {
        self.polynomial_size
    }
}

/// A fresh binary GLWE secret key: each coefficient is the low bit of the
/// next byte of `generator`.
pub fn allocate_and_generate_new_binary_glwe_secret_key<T: UnsignedTorus, G: ByteRandomGenerator>(
    glwe_dimension: GlweDimension,
    polynomial_size: PolynomialSize,
    generator: &mut RandomGenerator<G>,
) -> (key: GlweSecretKey<T>)
    requires
        polynomial_size.0 > 0,
        glwe_dimension.0 * polynomial_size.0 <= usize::MAX,
        old(generator).pending().len() >= glwe_dimension.0 * polynomial_size.0,
    ensures
        key.wf(),
        key.is_binary(),
        key.polynomial_size == polynomial_size,
        key.dimension() == glwe_dimension.0,
        key@.len() == glwe_dimension.0 * polynomial_size.0,
        forall|i: int|
            0 <= i < key@.len() ==> key@[i].value() == old(generator).pending()[i] as int % 2,
        final(generator).pending() == old(generator).pending().skip(key@.len() as int),
{
    let count: usize = glwe_dimension.0 * polynomial_size.0;
    let mut data: Vec<T> = Vec::new();
    let mut i: usize = 0;
    proof {
        assert(generator.pending().skip(0) =~= generator.pending());
        T::lemma_bits();
        vstd::arithmetic::power2::lemma2_to64();
        crate::torus::lemma_modulus::<T>();
    }
    while i < count
        invariant
            i <= count,
            data@.len() == i,
            old(generator).pending().len() >= count,
            generator.pending() == old(generator).pending().skip(i as int),
            crate::torus::modulus::<T>() >= 256,
            forall|j: int|
                0 <= j < i ==> data@[j].value() == old(generator).pending()[j] as int % 2,
        decreases count - i,
    {
        let byte = generator.generate_next();
        let bit = T::from_u128((byte % 2) as u128);
        data.push(bit);
        proof {
            assert(old(generator).pending().skip(i as int).drop_first() =~= old(
                generator,
            ).pending().skip(i + 1));
        }
        i += 1;
    }
    proof {
        vstd::arithmetic::div_mod::lemma_mod_multiples_basic(
            glwe_dimension.0 as int,
            polynomial_size.0 as int,
        );
        vstd::arithmetic::div_mod::lemma_div_by_multiple(
            glwe_dimension.0 as int,
            polynomial_size.0 as int,
        );
    }
    GlweSecretKey { data, polynomial_size }
}

/// A GLWE ciphertext: the `k` polynomials of the mask, then the polynomial
/// of the body, `N` coefficients each.
pub struct GlweCiphertext<T: UnsignedTorus> {
    /// The coefficients of the mask, then those of the body.
    pub data: Vec<T>,
    /// The number `N` of coefficients of each polynomial.
    pub polynomial_size: PolynomialSize,
}

impl<T: UnsignedTorus> View for GlweCiphertext<T> {
    type V = Seq<T>;

    open spec fn view(&self) -> Seq<T> {
        self.data@
    }
}

impl<T: UnsignedTorus> GlweCiphertext<T> {
    /// The ciphertext is made of whole polynomials, and has a body.
    pub open spec fn wf(&self) -> bool {
        &&& self.polynomial_size.0 > 0
        &&& self.data@.len() % (self.polynomial_size.0 as nat) == 0
        &&& self.data@.len() >= self.polynomial_size.0
    }

    /// The number `k + 1` of polynomials of the ciphertext.
    pub open spec fn size(&self) -> nat {
        self.data@.len() / (self.polynomial_size.0 as nat)
    }

    /// The number of scalars of the mask.
    pub open spec fn mask_len(&self) -> int {
        self.data@.len() - self.polynomial_size.0
    }

    /// The coefficients of the mask.
    pub open spec fn mask(&self) -> Seq<T> {
        self.data@.subrange(0, self.mask_len())
    }

    /// The coefficients of the body.
    pub open spec fn body(&self) -> Seq<T> {
        self.data@.subrange(self.mask_len(), self.data@.len() as int)
    }

    /// A ciphertext of the given shape with every scalar equal to `fill`.
    pub fn new(fill: T, glwe_size: GlweSize, polynomial_size: PolynomialSize) -> (ciphertext: Self)
        requires
            glwe_size.0 > 0,
            polynomial_size.0 > 0,
            glwe_size.0 * polynomial_size.0 <= usize::MAX,
        ensures
            ciphertext.wf(),
            ciphertext.polynomial_size == polynomial_size,
            ciphertext.size() == glwe_size.0,
            ciphertext@ == Seq::new((glwe_size.0 * polynomial_size.0) as nat, |i: int| fill),
    {
        proof {
            lemma_whole_polynomials(glwe_size.0 as int, polynomial_size.0 as int);
        }
        GlweCiphertext { data: filled(fill, glwe_size.0 * polynomial_size.0), polynomial_size }
    }

    /// The ciphertext of the scalars of `container`.
    pub fn from_container(container: Vec<T>, polynomial_size: PolynomialSize) -> (ciphertext: Self)
        requires
            polynomial_size.0 > 0,
            container@.len() > 0,
            container@.len() % (polynomial_size.0 as nat) == 0,
        ensures
            ciphertext.wf(),
            ciphertext@ == container@,
            ciphertext.polynomial_size == polynomial_size,
    {
        proof {
            vstd::arithmetic::div_mod::lemma_fundamental_div_mod(
                container@.len() as int,
                polynomial_size.0 as int,
            );
            let q = container@.len() as int / polynomial_size.0 as int;
            assert(q >= 1 ==> polynomial_size.0 * q >= polynomial_size.0) by (nonlinear_arith);
            assert(q <= 0 ==> polynomial_size.0 * q <= 0) by (nonlinear_arith);
        }
        GlweCiphertext { data: container, polynomial_size }
    }

    /// The scalars of the ciphertext.
    pub fn into_container(self) -> (container: Vec<T>)
        ensures
            container@ == self@,
    {
        self.data
    }

    /// The number `k + 1` of polynomials of the ciphertext.
    pub fn glwe_size(&self) -> (size: GlweSize)
        requires
            self.wf(),
        ensures
            size.0 == self.size(),
            size.0 > 0,
    {
        proof {
            vstd::arithmetic::div_mod::lemma_div_is_ordered(
                self.polynomial_size.0 as int,
                self.data@.len() as int,
                self.polynomial_size.0 as int,
            );
            vstd::arithmetic::div_mod::lemma_div_by_self(self.polynomial_size.0 as int);
        }
        GlweSize(self.data.len() / self.polynomial_size.0)
    }

    /// The number `N` of coefficients of each polynomial.
    pub fn polynomial_size(&self) -> (size: PolynomialSize)
        ensures
            size == self.polynomial_size,
    {
        self.polynomial_size
    }

    /// The coefficients of the mask.
    pub fn get_mask(&self) -> (mask: &[T])
        requires
            self.wf(),
        ensures
            mask@ == self.mask(),
    {
        let split: usize = self.data.len() - self.polynomial_size.0;
        vstd::slice::slice_subrange(self.data.as_slice(), 0, split)
    }

    /// The coefficients of the body.
    pub fn get_body(&self) -> (body: &[T])
        requires
            self.wf(),
        ensures
            body@ == self.body(),
    {
        let split: usize = self.data.len() - self.polynomial_size.0;
        vstd::slice::slice_subrange(self.data.as_slice(), split, self.data.len())
    }
}

/// `count` polynomials of `n` coefficients are `count * n` scalars, and
/// back.
pub proof fn lemma_whole_polynomials(count: int, n: int)
    requires
        0 <= count,
        0 < n,
    ensures
        (count * n) % n == 0,
        (count * n) / n == count,
        count > 0 ==> count * n >= n,
        count * n >= 0,
{
    vstd::arithmetic::div_mod::lemma_mod_multiples_basic(count, n);
    vstd::arithmetic::div_mod::lemma_div_by_multiple(count, n);
    assert(count > 0 ==> count * n >= n) by (nonlinear_arith)
        requires
            0 < n,
    ;
    assert(count * n >= 0) by (nonlinear_arith)
        requires
            0 <= count,
            0 < n,
    ;
}

/// A list of GLWE ciphertexts of one shape, one after the other.
pub struct GlweCiphertextList<T: UnsignedTorus> {
    /// The scalars of the ciphertexts, in the order of the list.
    pub data: Vec<T>,
    /// The number `k + 1` of polynomials of each ciphertext.
    pub glwe_size: GlweSize,
    /// The number `N` of coefficients of each polynomial.
    pub polynomial_size: PolynomialSize,
}

impl<T: UnsignedTorus> View for GlweCiphertextList<T> {
    type V = Seq<T>;

    open spec fn view(&self) -> Seq<T> {
        self.data@
    }
}

impl<T: UnsignedTorus> GlweCiphertextList<T> {
    /// The number of scalars of one ciphertext of the list.
    pub open spec fn ciphertext_len(&self) -> int {
        self.glwe_size.0 * self.polynomial_size.0
    }

    /// The list is made of whole ciphertexts.
    pub open spec fn wf(&self) -> bool {
        &&& self.polynomial_size.0 > 0
        &&& self.glwe_size.0 > 0
        &&& self.ciphertext_len() <= usize::MAX
        &&& self.data@.len() % (self.ciphertext_len() as nat) == 0
    }

    /// The number of ciphertexts of the list.
    pub open spec fn count(&self) -> nat {
        self.data@.len() / (self.ciphertext_len() as nat)
    }

    /// The scalars of the ciphertext of index `i`.
    pub open spec fn ciphertext(&self, i: int) -> Seq<T> {
        self.data@.subrange(
            i * self.ciphertext_len(),
            i * self.ciphertext_len() + self.ciphertext_len(),
        )
    }

    /// A list of `count` ciphertexts of the given shape with every scalar
    /// equal to `fill`.
    pub fn new(
        fill: T,
        glwe_size: GlweSize,
        polynomial_size: PolynomialSize,
        count: GlweCiphertextCount,
    ) -> (list: Self)
        requires
            glwe_size.0 > 0,
            polynomial_size.0 > 0,
            glwe_size.0 * polynomial_size.0 <= usize::MAX,
            glwe_size.0 * polynomial_size.0 * count.0 <= usize::MAX,
        ensures
            list.wf(),
            list.glwe_size == glwe_size,
            list.polynomial_size == polynomial_size,
            list.count() == count.0,
            list@ == Seq::new(
                (glwe_size.0 * polynomial_size.0 * count.0) as nat,
                |i: int| fill,
            ),
    {
        proof {
            let len = glwe_size.0 * polynomial_size.0;
            assert(len > 0) by (nonlinear_arith)
                requires
                    len == glwe_size.0 * polynomial_size.0,
                    glwe_size.0 > 0,
                    polynomial_size.0 > 0,
            ;
            lemma_whole_polynomials(count.0 as int, len);
            assert(count.0 * len == len * count.0) by (nonlinear_arith);
        }
        let len: usize = glwe_size.0 * polynomial_size.0;
        GlweCiphertextList { data: filled(fill, len * count.0), glwe_size, polynomial_size }
    }

    /// The list of the scalars of `container`.
    pub fn from_container(
        container: Vec<T>,
        glwe_size: GlweSize,
        polynomial_size: PolynomialSize,
    ) -> (list: Self)
        requires
            glwe_size.0 > 0,
            polynomial_size.0 > 0,
            glwe_size.0 * polynomial_size.0 <= usize::MAX,
            container@.len() % ((glwe_size.0 * polynomial_size.0) as nat) == 0,
        ensures
            list.wf(),
            list@ == container@,
            list.glwe_size == glwe_size,
            list.polynomial_size == polynomial_size,
    {
        GlweCiphertextList { data: container, glwe_size, polynomial_size }
    }

    /// The scalars of the list.
    pub fn into_container(self) -> (container: Vec<T>)
        ensures
            container@ == self@,
    {
        self.data
    }

    /// The number of ciphertexts of the list.
    pub fn glwe_ciphertext_count(&self) -> (count: GlweCiphertextCount)
        requires
            self.wf(),
        ensures
            count.0 == self.count(),
    {
        proof {
            assert(self.ciphertext_len() > 0) by (nonlinear_arith)
                requires
                    self.glwe_size.0 > 0,
                    self.polynomial_size.0 > 0,
                    self.ciphertext_len() == self.glwe_size.0 * self.polynomial_size.0,
            ;
        }
        GlweCiphertextCount(self.data.len() / (self.glwe_size.0 * self.polynomial_size.0))
    }

    /// The number `k + 1` of polynomials of each ciphertext.
    pub fn glwe_size(&self) -> (size: GlweSize)
        ensures
            size == self.glwe_size,
    {
        self.glwe_size
    }

    /// The number `N` of coefficients of each polynomial.
    pub fn polynomial_size(&self) -> (size: PolynomialSize)
        ensures
            size == self.polynomial_size,
    {
        self.polynomial_size
    }
}

} // verus!
