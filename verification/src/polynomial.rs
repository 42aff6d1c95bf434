//! Polynomials over the torus, as slices of coefficients in natural order.
//!
//! A slice of `N` scalars stands for an element of `Z_q[X]/(X^N + 1)` with
//! `q = 2^W`; a slice of `k * N` scalars stands for `k` such polynomials, one
//! after the other. Sums are taken coefficient by coefficient, products
//! follow the negacyclic rule `X^N = -1`.

use crate::torus::{
    lemma_modulus, lemma_reduce_of, lemma_reduce_value, modulus, reduce, wrapped_add, wrapped_sub,
    zero, UnsignedTorus,
};
use vstd::arithmetic::div_mod::{
    lemma_add_mod_noop, lemma_fundamental_div_mod, lemma_small_mod, lemma_sub_mod_noop,
};
use vstd::prelude::*;

verus! {

/// What `lhs[t]` adds to coefficient `i` of the negacyclic product
/// `lhs * rhs`, as an integer: `lhs[t] * rhs[i - t]` where `t <= i`, and
/// `-lhs[t] * rhs[N + i - t]` where the degrees wrap around.
pub open spec fn negacyclic_term<T: UnsignedTorus>(
    lhs: Seq<T>,
    rhs: Seq<T>,
    i: int,
    t: int,
) -> int {
    if t <= i {
        lhs[t].value() * rhs[i - t].value()
    } else {
        -(lhs[t].value() * rhs[lhs.len() + i - t].value())
    }
}

/// The sum of the terms of `lhs[0], .., lhs[n - 1]` in coefficient `i` of
/// `lhs * rhs`.
pub open spec fn negacyclic_sum<T: UnsignedTorus>(lhs: Seq<T>, rhs: Seq<T>, i: int, n: int) -> int
    decreases n,
{
    if n <= 0 {
        0
    } else {
        negacyclic_sum(lhs, rhs, i, n - 1) + negacyclic_term(lhs, rhs, i, n - 1)
    }
}

/// Coefficient `i` of the negacyclic product `lhs * rhs`, as an integer
/// that is yet to be reduced modulo `q`.
pub open spec fn negacyclic_coefficient<T: UnsignedTorus>(lhs: Seq<T>, rhs: Seq<T>, i: int) -> int {
    negacyclic_sum(lhs, rhs, i, lhs.len() as int)
}

/// The polynomial of index `j` in a list of polynomials of `n` coefficients.
pub open spec fn polynomial_at<T>(list: Seq<T>, n: int, j: int) -> Seq<T> {
    list.subrange(j * n, j * n + n)
}

/// Coefficient `i` of the sum of the products of the first `count`
/// polynomials of `lhs` with those of `rhs`, as an integer that is yet to be
/// reduced modulo `q`.
pub open spec fn multisum_coefficient<T: UnsignedTorus>(
    lhs: Seq<T>,
    rhs: Seq<T>,
    n: int,
    i: int,
    count: int,
) -> int
    decreases count,
{
    if count <= 0 {
        0
    } else {
        multisum_coefficient(lhs, rhs, n, i, count - 1) + negacyclic_coefficient(
            polynomial_at(lhs, n, count - 1),
            polynomial_at(rhs, n, count - 1),
            i,
        )
    }
}

/// Coefficient `i` of the inner product of two lists of polynomials of `n`
/// coefficients each, as an integer that is yet to be reduced modulo `q`.
pub open spec fn inner_product_coefficient<T: UnsignedTorus>(
    lhs: Seq<T>,
    rhs: Seq<T>,
    n: int,
    i: int,
) -> int {
    multisum_coefficient(lhs, rhs, n, i, (lhs.len() as int) / n)
}

/// The sum of two polynomials.
pub open spec fn polynomial_sum<T: UnsignedTorus>(lhs: Seq<T>, rhs: Seq<T>) -> Seq<T> {
    Seq::new(lhs.len(), |i: int| wrapped_add(lhs[i], rhs[i]))
}

/// The difference of two polynomials.
pub open spec fn polynomial_difference<T: UnsignedTorus>(lhs: Seq<T>, rhs: Seq<T>) -> Seq<T> {
    Seq::new(lhs.len(), |i: int| wrapped_sub(lhs[i], rhs[i]))
}

/// `acc` plus the inner product of two lists of polynomials.
pub open spec fn polynomial_add_multisum<T: UnsignedTorus>(
    acc: Seq<T>,
    lhs: Seq<T>,
    rhs: Seq<T>,
) -> Seq<T> {
    Seq::new(
        acc.len(),
        |i: int| reduce(acc[i].value() + inner_product_coefficient(lhs, rhs, acc.len() as int, i)),
    )
}

/// `acc` minus the inner product of two lists of polynomials.
pub open spec fn polynomial_sub_multisum<T: UnsignedTorus>(
    acc: Seq<T>,
    lhs: Seq<T>,
    rhs: Seq<T>,
) -> Seq<T> {
    Seq::new(
        acc.len(),
        |i: int| reduce(acc[i].value() - inner_product_coefficient(lhs, rhs, acc.len() as int, i)),
    )
}

/// A sum modulo `q` of two reduced numbers is the reduced sum.
proof fn lemma_accumulate<T: UnsignedTorus>(acc: T, prod: T, next: T, s: int, p: int, add: bool)
    requires
        acc == reduce::<T>(s),
        prod.value() == p % modulus::<T>(),
        next.value() == if add {
            (acc.value() + prod.value()) % modulus::<T>()
        } else {
            (acc.value() - prod.value()) % modulus::<T>()
        },
    ensures
        next == if add {
            reduce::<T>(s + p)
        } else {
            reduce::<T>(s - p)
        },
{
    lemma_modulus::<T>();
    lemma_reduce_value::<T>(s);
    if add {
        lemma_add_mod_noop(s, p, modulus::<T>());
        lemma_reduce_of(next, s + p);
    } else {
        lemma_sub_mod_noop(s, p, modulus::<T>());
        lemma_reduce_of(next, s - p);
    }
}

/// The polynomials of a list lie inside the list.
proof fn lemma_polynomial_bounds(n: int, count: int, j: int)
    requires
        0 <= j < count,
        0 < n,
    ensures
        0 <= j * n,
        j * n + n <= count * n,
        (j + 1) * n == j * n + n,
{
    assert(0 <= j * n && j * n + n <= count * n && (j + 1) * n == j * n + n) by (nonlinear_arith)
        requires
            0 <= j < count,
            0 < n,
    ;
}

/// Coefficient `i` of the inner product of two lists of polynomials of
/// `polynomial_size` coefficients each, reduced modulo `q`.
pub fn polynomial_list_multisum_coefficient<T: UnsignedTorus>(
    lhs: &[T],
    rhs: &[T],
    polynomial_size: usize,
    i: usize,
) -> (r: T)
    requires
        i < polynomial_size,
        lhs@.len() == rhs@.len(),
        lhs@.len() % (polynomial_size as nat) == 0,
    ensures
        r == reduce::<T>(inner_product_coefficient(lhs@, rhs@, polynomial_size as int, i as int)),
{
    let n = polynomial_size;
    let count: usize = lhs.len() / n;
    proof {
        lemma_fundamental_div_mod(lhs@.len() as int, n as int);
    }
    let mut acc = zero::<T>();
    let mut j: usize = 0;
    let mut base: usize = 0;
    while j < count
        invariant
            0 < n,
            i < n,
            j <= count,
            base == j * n,
            lhs@.len() == n * count,
            lhs@.len() <= usize::MAX,
            rhs@.len() == lhs@.len(),
            acc == reduce::<T>(multisum_coefficient(lhs@, rhs@, n as int, i as int, j as int)),
        decreases count - j,
    {
        proof {
            lemma_polynomial_bounds(n as int, count as int, j as int);
            assert(n * count == count * n) by (nonlinear_arith);
        }
        let ghost done = multisum_coefficient(lhs@, rhs@, n as int, i as int, j as int);
        let ghost a = polynomial_at(lhs@, n as int, j as int);
        let ghost b = polynomial_at(rhs@, n as int, j as int);
        let mut t: usize = 0;
        while t <= i
            invariant
                i < n,
                t <= i + 1,
                base + n <= lhs@.len(),
                lhs@.len() <= usize::MAX,
                rhs@.len() == lhs@.len(),
                a == lhs@.subrange(base as int, base + n),
                b == rhs@.subrange(base as int, base + n),
                acc == reduce::<T>(done + negacyclic_sum(a, b, i as int, t as int)),
            decreases i + 1 - t,
        {
            let x = lhs[base + t];
            let y = rhs[base + (i - t)];
            let prod = x.wrapping_mul(y);
            let next = acc.wrapping_add(prod);
            proof {
                assert(negacyclic_term(a, b, i as int, t as int) == x.value() * y.value());
                lemma_accumulate(
                    acc,
                    prod,
                    next,
                    done + negacyclic_sum(a, b, i as int, t as int),
                    x.value() * y.value(),
                    true,
                );
            }
            acc = next;
            t += 1;
        }
        while t < n
            invariant
                i < t <= n,
                base + n <= lhs@.len(),
                lhs@.len() <= usize::MAX,
                rhs@.len() == lhs@.len(),
                a == lhs@.subrange(base as int, base + n),
                b == rhs@.subrange(base as int, base + n),
                acc == reduce::<T>(done + negacyclic_sum(a, b, i as int, t as int)),
            decreases n - t,
        {
            let x = lhs[base + t];
            let y = rhs[base + (n - t + i)];
            let prod = x.wrapping_mul(y);
            let next = acc.wrapping_sub(prod);
            proof {
                assert(negacyclic_term(a, b, i as int, t as int) == -(x.value() * y.value()));
                lemma_accumulate(
                    acc,
                    prod,
                    next,
                    done + negacyclic_sum(a, b, i as int, t as int),
                    x.value() * y.value(),
                    false,
                );
            }
            acc = next;
            t += 1;
        }
        j += 1;
        base += n;
    }
    acc
}

/// Adds `rhs` to `lhs`, coefficient by coefficient.
pub fn polynomial_wrapping_add_assign<T: UnsignedTorus>(lhs: &mut [T], rhs: &[T])
    requires
        old(lhs)@.len() == rhs@.len(),
    ensures
        final(lhs)@ == polynomial_sum(old(lhs)@, rhs@),
{
    let n: usize = lhs.len();
    let mut i: usize = 0;
    while i < n
        invariant
            i <= n,
            lhs@.len() == n,
            rhs@.len() == n,
            old(lhs)@.len() == n,
            forall|j: int| 0 <= j < i ==> lhs@[j] == wrapped_add(old(lhs)@[j], rhs@[j]),
            forall|j: int| i <= j < n ==> lhs@[j] == old(lhs)@[j],
        decreases n - i,
    {
        let next = lhs[i].wrapping_add(rhs[i]);
        proof {
            lemma_reduce_of(next, lhs@[i as int].value() + rhs@[i as int].value());
        }
        lhs[i] = next;
        i += 1;
    }
}

/// Subtracts `rhs` from `lhs`, coefficient by coefficient.
pub fn polynomial_wrapping_sub_assign<T: UnsignedTorus>(lhs: &mut [T], rhs: &[T])
    requires
        old(lhs)@.len() == rhs@.len(),
    ensures
        final(lhs)@ == polynomial_difference(old(lhs)@, rhs@),
{
    let n: usize = lhs.len();
    let mut i: usize = 0;
    while i < n
        invariant
            i <= n,
            lhs@.len() == n,
            rhs@.len() == n,
            old(lhs)@.len() == n,
            forall|j: int| 0 <= j < i ==> lhs@[j] == wrapped_sub(old(lhs)@[j], rhs@[j]),
            forall|j: int| i <= j < n ==> lhs@[j] == old(lhs)@[j],
        decreases n - i,
    {
        let next = lhs[i].wrapping_sub(rhs[i]);
        proof {
            lemma_reduce_of(next, lhs@[i as int].value() - rhs@[i as int].value());
        }
        lhs[i] = next;
        i += 1;
    }
}

/// Adds to `output` the inner product of two lists of polynomials of the
/// size of `output`.
pub fn polynomial_wrapping_add_multisum_assign<T: UnsignedTorus>(
    output: &mut [T],
    lhs: &[T],
    rhs: &[T],
)
    requires
        old(output)@.len() > 0,
        lhs@.len() == rhs@.len(),
        lhs@.len() % old(output)@.len() == 0,
    ensures
        final(output)@ == polynomial_add_multisum(old(output)@, lhs@, rhs@),
{
    let n: usize = output.len();
    let mut i: usize = 0;
    while i < n
        invariant
            i <= n,
            output@.len() == n,
            old(output)@.len() == n,
            lhs@.len() == rhs@.len(),
            lhs@.len() % (n as nat) == 0,
            forall|j: int|
                0 <= j < i ==> output@[j] == reduce::<T>(
                    old(output)@[j].value() + inner_product_coefficient(lhs@, rhs@, n as int, j),
                ),
            forall|j: int| i <= j < n ==> output@[j] == old(output)@[j],
        decreases n - i,
    {
        let m = polynomial_list_multisum_coefficient(lhs, rhs, n, i);
        let next = output[i].wrapping_add(m);
        proof {
            let s = inner_product_coefficient(lhs@, rhs@, n as int, i as int);
            lemma_reduce_value::<T>(s);
            lemma_modulus::<T>();
            lemma_add_mod_noop(output@[i as int].value(), s, modulus::<T>());
            output@[i as int].lemma_value();
            lemma_small_mod(output@[i as int].value() as nat, modulus::<T>() as nat);
            lemma_reduce_of(next, output@[i as int].value() + s);
        }
        output[i] = next;
        i += 1;
    }
}

/// Subtracts from `output` the inner product of two lists of polynomials of
/// the size of `output`.
pub fn polynomial_wrapping_sub_multisum_assign<T: UnsignedTorus>(
    output: &mut [T],
    lhs: &[T],
    rhs: &[T],
)
    requires
        old(output)@.len() > 0,
        lhs@.len() == rhs@.len(),
        lhs@.len() % old(output)@.len() == 0,
    ensures
        final(output)@ == polynomial_sub_multisum(old(output)@, lhs@, rhs@),
{
    let n: usize = output.len();
    let mut i: usize = 0;
    while i < n
        invariant
            i <= n,
            output@.len() == n,
            old(output)@.len() == n,
            lhs@.len() == rhs@.len(),
            lhs@.len() % (n as nat) == 0,
            forall|j: int|
                0 <= j < i ==> output@[j] == reduce::<T>(
                    old(output)@[j].value() - inner_product_coefficient(lhs@, rhs@, n as int, j),
                ),
            forall|j: int| i <= j < n ==> output@[j] == old(output)@[j],
        decreases n - i,
    {
        let m = polynomial_list_multisum_coefficient(lhs, rhs, n, i);
        let next = output[i].wrapping_sub(m);
        proof {
            let s = inner_product_coefficient(lhs@, rhs@, n as int, i as int);
            lemma_reduce_value::<T>(s);
            lemma_modulus::<T>();
            lemma_sub_mod_noop(output@[i as int].value(), s, modulus::<T>());
            output@[i as int].lemma_value();
            lemma_small_mod(output@[i as int].value() as nat, modulus::<T>() as nat);
            lemma_reduce_of(next, output@[i as int].value() - s);
        }
        output[i] = next;
        i += 1;
    }
}

} // verus!
