//! Laws of the algebra of cell states.

use crate::ga_core::{
    blade_sign, geometric_product, has_vector, is_multivector, is_tri, mv_add, mv_pure, mv_zero,
    popcount, product_coefficient, product_term, swap_count, tri_add, tri_mul,
};
use vstd::arithmetic::power2::pow2;
use vstd::prelude::*;

verus! {

//================================================================================
// Scalars
//================================================================================

/// Wraparound addition stays within -1, 0, +1.
pub proof fn lemma_tri_add_closed(a: int, b: int)
    requires
        is_tri(a),
        is_tri(b),
    ensures
        is_tri(tri_add(a, b)),
{
}

/// Wraparound addition is commutative.
pub proof fn lemma_tri_add_commutative(a: int, b: int)
    ensures
        tri_add(a, b) == tri_add(b, a),
{
}

/// On tristate values wraparound addition is addition modulo 3, so the way
/// in which a sum of three is bracketed does not change it.
pub proof fn lemma_tri_add_associative(a: int, b: int, c: int)
    requires
        is_tri(a),
        is_tri(b),
        is_tri(c),
    ensures
        tri_add(tri_add(a, b), c) == tri_add(a, tri_add(b, c)),
{
}

//================================================================================
// Multivectors
//================================================================================

/// The zero multivector is a multivector.
pub proof fn lemma_zero_is_multivector(p: nat)
    ensures
        is_multivector(mv_zero(p), p),
{
}

/// The sum of two multivectors of one algebra is a multivector of it.
pub proof fn lemma_sum_is_multivector(a: Seq<int>, b: Seq<int>, p: nat)
    requires
        is_multivector(a, p),
        is_multivector(b, p),
    ensures
        is_multivector(mv_add(a, b), p),
{
}

/// The sum of two multivectors of one algebra does not depend on their order.
pub proof fn lemma_mv_add_commutative(a: Seq<int>, b: Seq<int>)
    requires
        a.len() == b.len(),
    ensures
        mv_add(a, b) == mv_add(b, a),
{
    assert(mv_add(a, b) =~= mv_add(b, a));
}

/// Every accumulated coefficient of a product is a tristate value.
pub proof fn lemma_product_coefficient_is_tri(a: Seq<int>, b: Seq<int>, p: nat, r: usize, n: nat)
    ensures
        is_tri(product_coefficient(a, b, p, r, n)),
    decreases n,
{
    if n > 0 {
        lemma_product_coefficient_is_tri(a, b, p, r, (n - 1) as nat);
    }
}

/// The product of two multivectors of one algebra is a multivector of it.
pub proof fn lemma_product_is_multivector(a: Seq<int>, b: Seq<int>, p: nat)
    ensures
        is_multivector(geometric_product(a, b, p), p),
{
    let product = geometric_product(a, b, p);
    assert forall|r: int| 0 <= r < product.len() implies is_tri(#[trigger] product[r]) by {
        lemma_product_coefficient_is_tri(a, b, p, r as usize, pow2(p));
    }
}

/// Zero times anything contributes nothing.
proof fn lemma_zero_coefficient(x: Seq<int>, p: nat, r: usize, n: nat)
    requires
        n <= pow2(p),
    ensures
        product_coefficient(mv_zero(p), x, p, r, n) == 0,
    decreases n,
{
    if n > 0 {
        let i = (n - 1) as usize;
        lemma_zero_coefficient(x, p, r, (n - 1) as nat);
        let j = i ^ r;
        assert(mv_zero(p)[i as int] == 0);
        assert(tri_mul(0, x[j as int]) == 0) by (nonlinear_arith);
        assert(tri_mul(0, blade_sign(i, j, p)) == 0) by (nonlinear_arith);
    }
}

/// The zero multivector annihilates from the left: its product with any
/// multivector is zero.
pub proof fn lemma_zero_annihilates(x: Seq<int>, p: nat)
    ensures
        geometric_product(mv_zero(p), x, p) == mv_zero(p),
{
    let product = geometric_product(mv_zero(p), x, p);
    assert forall|r: int| 0 <= r < product.len() implies #[trigger] product[r] == 0 by {
        lemma_zero_coefficient(x, p, r as usize, pow2(p));
    }
    assert(product =~= mv_zero(p));
}

/// The index of the blade made of basis vector `k` alone.
pub open spec fn vector_blade(k: nat) -> usize {
    1usize << (k as usize)
}

/// The blade of basis vector `k` is a blade of every algebra with more than
/// `k` basis vectors, it is not the scalar blade, and it holds no basis
/// vector but `k`.
pub proof fn lemma_vector_blade(p: nat, k: nat)
    requires
        k < p < usize::BITS,
    ensures
        0 < vector_blade(k) < pow2(p),
        forall|m: nat| m < usize::BITS ==> (#[trigger] has_vector(vector_blade(k), m) <==> m == k),
        vector_blade(k) >> ((k + 1) as usize) == 0,
{
    let ku = k as usize;
    let pu = p as usize;
    vstd::bits::lemma_usize_pow2_no_overflow(p);
    vstd::bits::lemma_usize_shl_is_mul(1, pu);
    assert(0 < (1usize << ku) < (1usize << pu)) by (bit_vector)
        requires
            ku < pu < usize::BITS,
    ;
    assert forall|m: nat| m < usize::BITS implies (#[trigger] has_vector(vector_blade(k), m) <==> m
        == k) by {
        let mu = m as usize;
        assert((((1usize << ku) >> mu) & 1 == 1) <==> mu == ku) by (bit_vector)
            requires
                ku < usize::BITS,
                mu < usize::BITS,
        ;
    }
    assert((1usize << ku) >> ((ku + 1) as usize) == 0) by (bit_vector)
        requires
            ku + 1 < usize::BITS,
    ;
}

/// A basis vector moves past itself without a transposition.
proof fn lemma_vector_swaps(p: nat, k: nat, m: nat)
    requires
        k < p < usize::BITS,
        m <= p,
    ensures
        swap_count(vector_blade(k), vector_blade(k), m) == 0,
    decreases m,
{
    if m > 0 {
        lemma_vector_swaps(p, k, (m - 1) as nat);
        lemma_vector_blade(p, k);
        let j = (m - 1) as nat;
        if has_vector(vector_blade(k), j) {
            assert(j == k);
            assert(popcount(0) == 0);
        }
    }
}

/// Coefficient of blade `r` of the square of basis vector `k`, while the
/// blades of the left factor contribute: nothing before the blade of the
/// vector, and +1 on the scalar blade from then on.
proof fn lemma_vector_square_coefficient(p: nat, k: nat, r: usize, n: nat)
    requires
        k < p < usize::BITS,
        r < pow2(p),
        n <= pow2(p),
    ensures
        product_coefficient(
            mv_pure(p, vector_blade(k) as int, 1),
            mv_pure(p, vector_blade(k) as int, 1),
            p,
            r,
            n,
        ) == (if r == 0 && n > vector_blade(k) {
            1int
        } else {
            0int
        }),
    decreases n,
{
    if n > 0 {
        let e = vector_blade(k);
        let a = mv_pure(p, e as int, 1);
        let i = (n - 1) as usize;
        let j = i ^ r;
        lemma_vector_square_coefficient(p, k, r, (n - 1) as nat);
        lemma_vector_blade(p, k);
        vstd::bits::lemma_usize_pow2_no_overflow(p);
        vstd::bits::lemma_usize_shl_is_mul(1, p as usize);
        crate::ga_core::lemma_xor_pairs(i, r, p as usize);
        crate::ga_core::lemma_xor_meets(i, j, r);
        assert((e ^ r == e) <==> r == 0) by (bit_vector);
        if i == e && r == 0 {
            lemma_vector_swaps(p, k, p);
            assert(j == e);
            assert(a[i as int] == 1 && a[j as int] == 1);
            assert(tri_mul(tri_mul(1, 1), 1) == 1) by (nonlinear_arith);
            assert(product_term(a, a, p, i, r) == 1);
        } else {
            if i == e {
                assert(j != e);
                assert(a[j as int] == 0);
                assert(tri_mul(1, 0) == 0) by (nonlinear_arith);
            } else {
                assert(a[i as int] == 0);
                assert(tri_mul(0, a[j as int]) == 0) by (nonlinear_arith);
            }
            assert(tri_mul(0, blade_sign(i, j, p)) == 0) by (nonlinear_arith);
            assert(product_term(a, a, p, i, r) == 0);
        }
    }
}

/// Every basis vector squares to the scalar +1.
pub proof fn lemma_basis_vector_squares(p: nat, k: nat)
    requires
        k < p < usize::BITS,
    ensures
        geometric_product(
            mv_pure(p, vector_blade(k) as int, 1),
            mv_pure(p, vector_blade(k) as int, 1),
            p,
        ) == mv_pure(p, 0, 1),
{
    let a = mv_pure(p, vector_blade(k) as int, 1);
    let square = geometric_product(a, a, p);
    lemma_vector_blade(p, k);
    vstd::bits::lemma_usize_pow2_no_overflow(p);
    assert forall|r: int| 0 <= r < square.len() implies #[trigger] square[r] == mv_pure(p, 0, 1)[r] by {
        lemma_vector_square_coefficient(p, k, r as usize, pow2(p));
    }
    assert(square =~= mv_pure(p, 0, 1));
}

} // verus!
