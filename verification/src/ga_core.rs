//! The algebra of cell states: tristate scalars and multivectors of a
//! geometric algebra with `p` orthonormal basis vectors, each squaring to +1.

use crate::chance::random_in_range;
use std::ops::{Add, Mul};
use vstd::arithmetic::power2::pow2;
use vstd::prelude::*;
use vstd::std_specs::ops::{AddSpecImpl, MulSpecImpl};

verus! {

//================================================================================
// Tristate scalars
//================================================================================

/// Whether `v` is one of -1, 0, +1.
pub open spec fn is_tri(v: int) -> bool {
    -1 <= v <= 1
}

/// Sign of an integer: -1, 0 or +1.
pub open spec fn tri_sign(v: int) -> int {
    if v > 0 {
        1
    } else if v < 0 {
        -1
    } else {
        0
    }
}

/// Wraparound sum of two tristate values: a raw sum above 1 becomes -1, one
/// below -1 becomes +1.
pub open spec fn tri_add(a: int, b: int) -> int {
    let s = a + b;
    if s > 1 {
        -1
    } else if s < -1 {
        1
    } else {
        s
    }
}

/// Product of two tristate values.
pub open spec fn tri_mul(a: int, b: int) -> int {
    a * b
}

/// A tristate scalar: one of -1, 0, +1.
#[derive(Clone, Copy, Debug, PartialEq, Eq, PartialOrd, Ord, Structural)]
pub struct Mod3(i8);

impl View for Mod3 {
    type V = int;

    closed spec fn view(&self) -> int {
        self.0 as int
    }
}

impl Mod3 {
    #[verifier::type_invariant]
    pub open spec fn valid(self) -> bool {
        is_tri(self@)
    }

    /// Normalizes any `i8` to its sign.
    pub fn new(val: i8) -> (r: Self)
        ensures
            r@ == tri_sign(val as int),
            r.valid(),
    {
        if val > 0 {
            Mod3(1)
        } else if val < 0 {
            Mod3(-1)
        } else {
            Mod3(0)
        }
    }

    /// The scalar as a machine integer.
    pub fn value(self) -> (v: i8)
        ensures
            v as int == self@,
            is_tri(v as int),
    {
        proof {
            use_type_invariant(&self);
        }
        self.0
    }
}

impl AddSpecImpl for Mod3 {
    open spec fn obeys_add_spec() -> bool {
        true
    }

    open spec fn add_req(self, rhs: Mod3) -> bool {
        true
    }

    closed spec fn add_spec(self, rhs: Mod3) -> Mod3 {
        Mod3(tri_add(self.0 as int, rhs.0 as int) as i8)
    }
}

impl Add for Mod3 {
    type Output = Self;

    /// Wraparound addition.
    fn add(self, rhs: Self) -> (r: Self)
        ensures
            r@ == tri_add(self@, rhs@),
            r.valid(),
    {
        proof {
            use_type_invariant(&self);
            use_type_invariant(&rhs);
        }
        let sum: i8 = self.0 + rhs.0;
        if sum > 1 {
            Mod3(-1)
        } else if sum < -1 {
            Mod3(1)
        } else {
            Mod3(sum)
        }
    }
}

impl MulSpecImpl for Mod3 {
    open spec fn obeys_mul_spec() -> bool {
        true
    }

    open spec fn mul_req(self, rhs: Mod3) -> bool {
        true
    }

    closed spec fn mul_spec(self, rhs: Mod3) -> Mod3 {
        Mod3(tri_mul(self.0 as int, rhs.0 as int) as i8)
    }
}

impl Mul for Mod3 {
    type Output = Self;

    /// Ordinary multiplication, which stays within -1, 0, +1.
    fn mul(self, rhs: Self) -> (r: Self)
        ensures
            r@ == tri_mul(self@, rhs@),
            r.valid(),
    {
        proof {
            use_type_invariant(&self);
            use_type_invariant(&rhs);
            lemma_tri_mul_closed(self@, rhs@);
        }
        Mod3(self.0 * rhs.0)
    }
}

/// The product of two tristate values is a tristate value.
pub proof fn lemma_tri_mul_closed(a: int, b: int)
    requires
        is_tri(a),
        is_tri(b),
    ensures
        is_tri(tri_mul(a, b)),
        tri_mul(a, b) == (if a == 0 || b == 0 {
            0
        } else if a == b {
            1
        } else {
            -1
        }),
{
    assert(is_tri(a * b) && a * b == (if a == 0 || b == 0 {
        0int
    } else if a == b {
        1int
    } else {
        -1int
    })) by (nonlinear_arith)
        requires
            -1 <= a <= 1,
            -1 <= b <= 1,
    ;
}

//================================================================================
// Basis blades
//================================================================================

/// Number of set bits of `x`. The grade of a basis blade is the number of set
/// bits of its index.
pub open spec fn popcount(x: nat) -> nat
    decreases x,
{
    if x == 0 {
        0
    } else {
        x % 2 + popcount(x / 2)
    }
}

/// A number has at most as many set bits as its value.
pub proof fn lemma_popcount_le(x: nat)
    ensures
        popcount(x) <= x,
    decreases x,
{
    if x != 0 {
        lemma_popcount_le(x / 2);
    }
}

/// The grade of the basis blade with index `blade`.
pub fn grade(blade: usize) -> (g: usize)
    ensures
        g == popcount(blade as nat),
{
    let mut rest: usize = blade;
    let mut ones: usize = 0;
    proof {
        lemma_popcount_le(blade as nat);
    }
    while rest > 0
        invariant
            ones + popcount(rest as nat) == popcount(blade as nat),
            popcount(blade as nat) <= blade,
        decreases rest,
    {
        ones = ones + rest % 2;
        rest = rest / 2;
    }
    ones
}

/// Whether basis vector `k` takes part in the blade with index `blade`.
pub open spec fn has_vector(blade: usize, k: nat) -> bool {
    (blade >> (k as usize)) & 1 == 1
}

/// How many transpositions of basis vectors bring the vectors of blade `j`,
/// among the first `p` basis vectors, past those of blade `i`: for every
/// vector `k` of `j`, the number of vectors of `i` with an index above `k`.
pub open spec fn swap_count(i: usize, j: usize, p: nat) -> nat
    decreases p,
{
    if p == 0 {
        0
    } else {
        let k = (p - 1) as nat;
        swap_count(i, j, k) + if has_vector(j, k) {
            popcount((i >> ((k + 1) as usize)) as nat)
        } else {
            0
        }
    }
}

/// Sign of the product of blade `i` with blade `j`: +1 for an even number of
/// transpositions, -1 for an odd one.
pub open spec fn blade_sign(i: usize, j: usize, p: nat) -> int {
    if swap_count(i, j, p) % 2 == 0 {
        1
    } else {
        -1
    }
}

/// Computes the sign of the product of blade `i` with blade `j`.
pub fn reorder_sign(i: usize, j: usize, p: usize) -> (sign: Mod3)
    requires
        p < usize::BITS,
    ensures
        sign@ == blade_sign(i, j, p as nat),
{
    let mut odd: bool = false;
    let mut bit_j: usize = 0;
    while bit_j < p
        invariant
            bit_j <= p,
            p < usize::BITS,
            odd == (swap_count(i, j, bit_j as nat) % 2 == 1),
        decreases p - bit_j,
    {
        if (j >> bit_j) & 1 != 0 {
            assert(((j >> bit_j) & 1 != 0) ==> ((j >> bit_j) & 1 == 1)) by (bit_vector);
            let above: usize = i >> (bit_j + 1);
            if grade(above) % 2 == 1 {
                odd = !odd;
            }
        }
        bit_j = bit_j + 1;
    }
    if odd {
        Mod3::new(-1)
    } else {
        Mod3::new(1)
    }
}

//================================================================================
// Multivectors
//================================================================================

/// Whether `s` holds the coefficients of a multivector over `p` basis
/// vectors: one tristate value for each of the `2^p` basis blades.
pub open spec fn is_multivector(s: Seq<int>, p: nat) -> bool {
    &&& s.len() == pow2(p)
    &&& forall|i: int| 0 <= i < s.len() ==> is_tri(#[trigger] s[i])
}

/// The multivector over `p` basis vectors with every coefficient 0.
pub open spec fn mv_zero(p: nat) -> Seq<int> {
    Seq::new(pow2(p), |i: int| 0int)
}

/// The multivector whose only nonzero coefficient is `value`, at `blade`.
pub open spec fn mv_pure(p: nat, blade: int, value: int) -> Seq<int> {
    Seq::new(
        pow2(p),
        |i: int|
            if i == blade {
                value
            } else {
                0int
            },
    )
}

/// Componentwise wraparound sum.
pub open spec fn mv_add(a: Seq<int>, b: Seq<int>) -> Seq<int> {
    Seq::new(a.len(), |i: int| tri_add(a[i], b[i]))
}

/// What blade `i` of `a` contributes to blade `r` of the product `a b`: it
/// meets blade `i ^ r` of `b`, the only one that it sends to `r`.
pub open spec fn product_term(a: Seq<int>, b: Seq<int>, p: nat, i: usize, r: usize) -> int {
    let j = i ^ r;
    tri_mul(tri_mul(a[i as int], b[j as int]), blade_sign(i, j, p))
}

/// Coefficient of blade `r` in the product `a b` once the first `n` blades of
/// `a` have contributed, in increasing order, by wraparound addition.
pub open spec fn product_coefficient(a: Seq<int>, b: Seq<int>, p: nat, r: usize, n: nat) -> int
    decreases n,
{
    if n == 0 {
        0
    } else {
        tri_add(
            product_coefficient(a, b, p, r, (n - 1) as nat),
            product_term(a, b, p, (n - 1) as usize, r),
        )
    }
}

/// The geometric product `a b` of two multivectors over `p` basis vectors.
pub open spec fn geometric_product(a: Seq<int>, b: Seq<int>, p: nat) -> Seq<int> {
    Seq::new(pow2(p), |r: int| product_coefficient(a, b, p, r as usize, pow2(p)))
}

/// Two multivectors of different algebras met in one operation.
#[derive(Clone, Copy, Debug, PartialEq, Eq, Structural)]
pub struct DimensionMismatch {
    /// Number of basis vectors of the left operand.
    pub left: usize,
    /// Number of basis vectors of the right operand.
    pub right: usize,
}

/// A multivector of the geometric algebra over `p` orthonormal basis vectors,
/// with tristate coefficients. The coefficient at index `i` belongs to the
/// basis blade made of the basis vectors whose bits are set in `i`.
#[derive(Debug, PartialEq, Eq)]
pub struct Multivector {
    p: usize,
    coefficients: Vec<Mod3>,
}

impl View for Multivector {
    type V = Seq<int>;

    closed spec fn view(&self) -> Seq<int> {
        Seq::new(self.coefficients@.len(), |i: int| self.coefficients@[i]@)
    }
}

impl Clone for Multivector {
    fn clone(&self) -> (r: Self)
        ensures
            r@ == self@,
            r.dim() == self.dim(),
    {
        let r = Multivector { p: self.p, coefficients: self.coefficients.clone() };
        assert(r@ =~= self@);
        r
    }
}

impl Multivector {
    /// Number of basis vectors of the algebra.
    pub closed spec fn dim(&self) -> nat {
        self.p as nat
    }

    /// The coefficient vector has one tristate entry for each basis blade.
    pub open spec fn wf(&self) -> bool {
        &&& self.dim() < usize::BITS
        &&& is_multivector(self@, self.dim())
    }

    /// The zero multivector over `p` basis vectors.
    pub fn zero(p: usize) -> (r: Self)
        requires
            p < usize::BITS,
        ensures
            r.wf(),
            r.dim() == p,
            r@ == mv_zero(p as nat),
    {
        let blades: usize = blade_count(p);
        let mut coefficients: Vec<Mod3> = Vec::new();
        let mut i: usize = 0;
        while i < blades
            invariant
                i <= blades,
                coefficients@.len() == i,
                forall|k: int| 0 <= k < i ==> (#[trigger] coefficients@[k])@ == 0,
            decreases blades - i,
        {
            coefficients.push(Mod3::new(0));
            i = i + 1;
        }
        let r = Multivector { p, coefficients };
        assert(r@ =~= mv_zero(p as nat));
        r
    }

    /// A multivector over `p` basis vectors with each coefficient drawn at
    /// random from -1, 0, +1.
    pub fn random(p: usize) -> (r: Self)
        requires
            p < usize::BITS,
        ensures
            r.wf(),
            r.dim() == p,
    {
        let blades: usize = blade_count(p);
        let mut coefficients: Vec<Mod3> = Vec::new();
        let mut i: usize = 0;
        while i < blades
            invariant
                i <= blades,
                coefficients@.len() == i,
                forall|k: int| 0 <= k < i ==> is_tri((#[trigger] coefficients@[k])@),
            decreases blades - i,
        {
            coefficients.push(Mod3::new(random_in_range(-1, 1)));
            i = i + 1;
        }
        Multivector { p, coefficients }
    }

    /// The multivector over `p` basis vectors with the given coefficients, if
    /// there is one for each of the `2^p` blades.
    pub fn from_coefficients(p: usize, coefficients: Vec<Mod3>) -> (r: Option<Self>)
        ensures
            r.is_some() <==> (p < usize::BITS && coefficients@.len() == pow2(p as nat)),
            r matches Some(m) ==> m.wf() && m.dim() == p && m@.len() == coefficients@.len()
                && forall|i: int| 0 <= i < m@.len() ==> m@[i] == (#[trigger] coefficients@[i])@,
    {
        if p >= usize::BITS as usize {
            return None;
        }
        if coefficients.len() != blade_count(p) {
            return None;
        }
        let mut i: usize = 0;
        while i < coefficients.len()
            invariant
                i <= coefficients@.len(),
                forall|k: int| 0 <= k < i ==> is_tri((#[trigger] coefficients@[k])@),
            decreases coefficients@.len() - i,
        {
            let c: Mod3 = coefficients[i];
            proof {
                use_type_invariant(&c);
            }
            i = i + 1;
        }
        Some(Multivector { p, coefficients })
    }

    /// Number of basis vectors of the algebra.
    pub fn p(&self) -> (p: usize)
        ensures
            p == self.dim(),
    {
        self.p
    }

    /// Number of coefficients.
    pub fn len(&self) -> (n: usize)
        ensures
            n == self@.len(),
    {
        self.coefficients.len()
    }

    /// The coefficient of the blade with index `blade`.
    pub fn get(&self, blade: usize) -> (c: Mod3)
        requires
            blade < self@.len(),
        ensures
            c@ == self@[blade as int],
    {
        self.coefficients[blade]
    }

    /// Replaces the coefficient of the blade with index `blade`.
    pub fn set(&mut self, blade: usize, c: Mod3)
        requires
            blade < old(self)@.len(),
        ensures
            final(self)@ == old(self)@.update(blade as int, c@),
            final(self).dim() == old(self).dim(),
            old(self).wf() ==> final(self).wf(),
    {
        proof {
            use_type_invariant(&c);
        }
        self.coefficients[blade] = c;
        assert(self@ =~= old(self)@.update(blade as int, c@));
    }

    /// Componentwise wraparound sum of two multivectors of one algebra.
    pub fn add(&self, rhs: &Multivector) -> (r: Result<Multivector, DimensionMismatch>)
        requires
            self.wf(),
            rhs.wf(),
        ensures
            self.dim() != rhs.dim() <==> r.is_err(),
            r matches Err(e) ==> e.left == self.dim() && e.right == rhs.dim(),
            r matches Ok(sum) ==> sum.wf() && sum.dim() == self.dim() && sum@ == mv_add(
                self@,
                rhs@,
            ),
    {
        if self.p != rhs.p {
            return Err(DimensionMismatch { left: self.p, right: rhs.p });
        }
        let blades: usize = self.coefficients.len();
        let mut result = Multivector::zero(self.p);
        let mut i: usize = 0;
        while i < blades
            invariant
                i <= blades,
                blades == self@.len(),
                self@.len() == rhs@.len(),
                result@.len() == blades,
                result.dim() == self.dim(),
                forall|k: int| 0 <= k < i ==> #[trigger] result@[k] == tri_add(self@[k], rhs@[k]),
            decreases blades - i,
        {
            let c: Mod3 = self.coefficients[i] + rhs.coefficients[i];
            result.set(i, c);
            i = i + 1;
        }
        assert(result@ =~= mv_add(self@, rhs@));
        Ok(result)
    }

    /// The geometric product `self rhs` of two multivectors of one algebra.
    ///
    /// Every pair of a blade `i` of `self` and a blade `j` of `rhs` with
    /// nonzero coefficients adds the product of the two coefficients and of
    /// the sign of the blade product to blade `i ^ j` of the result, by
    /// wraparound addition. The pairs are taken in increasing order of `i`,
    /// then of `j`.
    pub fn geometric_product(&self, rhs: &Multivector) -> (r: Result<
        Multivector,
        DimensionMismatch,
    >)
        requires
            self.wf(),
            rhs.wf(),
        ensures
            self.dim() != rhs.dim() <==> r.is_err(),
            r matches Err(e) ==> e.left == self.dim() && e.right == rhs.dim(),
            r matches Ok(product) ==> product.wf() && product.dim() == self.dim() && product@
                == geometric_product(self@, rhs@, self.dim()),
    {
        if self.p != rhs.p {
            return Err(DimensionMismatch { left: self.p, right: rhs.p });
        }
        let p: usize = self.p;
        let ghost a = self@;
        let ghost b = rhs@;
        let mut result = Multivector::zero(p);
        let num_blades: usize = blade_count(p);
        let mut i: usize = 0;
        while i < num_blades
            invariant
                i <= num_blades,
                p < usize::BITS,
                p == self.dim(),
                num_blades == pow2(p as nat),
                num_blades == 1usize << p,
                a == self@,
                b == rhs@,
                is_multivector(a, p as nat),
                is_multivector(b, p as nat),
                is_multivector(result@, p as nat),
                result.dim() == p,
                forall|r: int|
                    0 <= r < num_blades ==> #[trigger] result@[r] == product_coefficient(
                        a,
                        b,
                        p as nat,
                        r as usize,
                        i as nat,
                    ),
            decreases num_blades - i,
        {
            let a_coeff: Mod3 = self.coefficients[i];
            let ghost before = result@;
            if a_coeff.value() != 0 {
                let mut j: usize = 0;
                while j < num_blades
                    invariant
                        j <= num_blades,
                        i < num_blades,
                        p < usize::BITS,
                        num_blades == pow2(p as nat),
                        num_blades == 1usize << p,
                        a == self@,
                        b == rhs@,
                        a_coeff@ == a[i as int],
                        is_multivector(a, p as nat),
                        is_multivector(b, p as nat),
                        is_multivector(result@, p as nat),
                        is_multivector(before, p as nat),
                        result.dim() == p,
                        forall|r: int|
                            0 <= r < num_blades ==> #[trigger] result@[r] == (if (i ^ (r as usize))
                                < j {
                                tri_add(before[r], product_term(a, b, p as nat, i, r as usize))
                            } else {
                                before[r]
                            }),
                    decreases num_blades - j,
                {
                    let b_coeff: Mod3 = rhs.coefficients[j];
                    let result_blade: usize = i ^ j;
                    proof {
                        lemma_xor_pairs(i, j, p);
                        lemma_tri_mul_closed(a[i as int], b[j as int]);
                        lemma_tri_mul_closed(
                            tri_mul(a[i as int], b[j as int]),
                            blade_sign(i, j, p as nat),
                        );
                    }
                    let ghost previous = result@;
                    if b_coeff.value() != 0 {
                        let sign: Mod3 = reorder_sign(i, j, p);
                        let product_coeff: Mod3 = a_coeff * b_coeff * sign;
                        let sum: Mod3 = result.coefficients[result_blade] + product_coeff;
                        result.set(result_blade, sum);
                    }
                    proof {
                        assert forall|r: int| 0 <= r < num_blades implies #[trigger] result@[r] == (
                        if (i ^ (r as usize)) < j + 1 {
                            tri_add(before[r], product_term(a, b, p as nat, i, r as usize))
                        } else {
                            before[r]
                        }) by {
                            lemma_xor_pairs(i, r as usize, p);
                            lemma_xor_meets(i, j, r as usize);
                            if r == result_blade {
                                assert(b_coeff@ == b[j as int]);
                                assert(previous[r] == before[r]);
                                if b_coeff@ == 0 {
                                    assert(tri_mul(a[i as int], 0) == 0) by (nonlinear_arith);
                                    assert(tri_mul(0, blade_sign(i, j, p as nat)) == 0)
                                        by (nonlinear_arith);
                                    assert(product_term(a, b, p as nat, i, r as usize) == 0);
                                    assert(is_tri(before[r]));
                                } else {
                                    assert(result@[r] == tri_add(
                                        previous[r],
                                        tri_mul(
                                            tri_mul(a[i as int], b[j as int]),
                                            blade_sign(i, j, p as nat),
                                        ),
                                    ));
                                }
                            } else {
                                assert(result@[r] == previous[r]);
                            }
                        }
                    }
                    j = j + 1;
                }
                proof {
                    assert forall|r: int| 0 <= r < num_blades implies #[trigger] result@[r]
                        == product_coefficient(a, b, p as nat, r as usize, (i + 1) as nat) by {
                        lemma_xor_pairs(i, r as usize, p);
                    }
                }
            } else {
                proof {
                    assert forall|r: int| 0 <= r < num_blades implies #[trigger] result@[r]
                        == product_coefficient(a, b, p as nat, r as usize, (i + 1) as nat) by {
                        lemma_xor_pairs(i, r as usize, p);
                        let j = i ^ (r as usize);
                        lemma_tri_mul_closed(a[i as int], b[j as int]);
                        assert(tri_mul(0, blade_sign(i, j, p as nat)) == 0) by (nonlinear_arith);
                    }
                }
            }
            i = i + 1;
        }
        assert(result@ =~= geometric_product(a, b, p as nat));
        Ok(result)
    }
}

/// For blades `i`, `j` of the algebra over `p` basis vectors, `i ^ j` is a
/// blade of that algebra too, and `i ^ (i ^ j)` is `j` again.
pub proof fn lemma_xor_pairs(i: usize, j: usize, p: usize)
    requires
        p < usize::BITS,
        i < (1usize << p),
        j < (1usize << p),
    ensures
        (i ^ j) < (1usize << p),
        i ^ (i ^ j) == j,
{
    assert((i ^ j) < (1usize << p)) by (bit_vector)
        requires
            p < usize::BITS,
            i < (1usize << p),
            j < (1usize << p),
    ;
    assert(i ^ (i ^ j) == j) by (bit_vector);
}

/// Blade `i` sends blade `j` to `r` exactly when it sends `r` to `j`.
pub proof fn lemma_xor_meets(i: usize, j: usize, r: usize)
    ensures
        (i ^ r == j) <==> (r == i ^ j),
{
    assert((i ^ r == j) <==> (r == i ^ j)) by (bit_vector);
}

/// Number of basis blades of the algebra over `p` basis vectors.
pub fn blade_count(p: usize) -> (n: usize)
    requires
        p < usize::BITS,
    ensures
        n == pow2(p as nat),
        n == 1usize << p,
{
    proof {
        vstd::bits::lemma_usize_pow2_no_overflow(p as nat);
        vstd::bits::lemma_usize_shl_is_mul(1, p);
    }
    1usize << p
}

} // verus!
