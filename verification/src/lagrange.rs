use crate::error::ShamirError;
use crate::field::{
    gf_add, gf_div, gf_mul, gf_sub, lemma_add_self, lemma_add_zero, lemma_div_distributive,
    lemma_div_is_mul_inverse, lemma_div_mul_cancel, lemma_div_self, lemma_mul_associative,
    lemma_mul_commutative, lemma_mul_distributive, lemma_mul_exchange, lemma_mul_interchange,
    lemma_mul_one, lemma_mul_zero, lemma_sub_zero_iff_equal, GFC256,
};
use crate::polynomial::{lemma_poly_quotient, poly_eval, poly_quotient};
use vstd::prelude::*;

verus! {

/// What the point at `other` contributes to the Lagrange weight at zero of the
/// point at `point`: `other / (point - other)`.
pub open spec fn basis_factor(point: u8, other: u8) -> u8 {
    gf_div(other, gf_sub(point, other))
}

/// The product of `basis_factor(point, xs[j])` over the first `n` entries of `xs`.
pub open spec fn factor_product(xs: Seq<u8>, point: u8, n: int) -> u8
    decreases n,
{
    if n <= 0 {
        1
    } else {
        gf_mul(factor_product(xs, point, n - 1), basis_factor(point, xs[n - 1]))
    }
}

/// The Lagrange weight at zero of the point `i` among the first `n` points:
/// the product of `xs[j] / (xs[i] - xs[j])` over every `j < n` other than `i`.
pub open spec fn basis_weight(xs: Seq<u8>, i: int, n: int) -> u8
    decreases n,
{
    if n <= 0 {
        1
    } else if n - 1 == i {
        basis_weight(xs, i, n - 1)
    } else {
        gf_mul(basis_weight(xs, i, n - 1), basis_factor(xs[i], xs[n - 1]))
    }
}

/// The sum over the first `m` points of the weight of the point, taken among
/// all the points, times its ordinate.
pub open spec fn weighted_sum(xs: Seq<u8>, ys: Seq<u8>, m: int) -> u8
    decreases m,
{
    if m <= 0 {
        0
    } else {
        gf_add(
            weighted_sum(xs, ys, m - 1),
            gf_mul(basis_weight(xs, m - 1, xs.len() as int), ys[m - 1]),
        )
    }
}

/// Lagrange's formula at zero for the points `(xs[i], ys[i])`:
/// the sum over `i` of `ys[i]` times the product over `j != i` of
/// `xs[j] / (xs[i] - xs[j])`.
pub open spec fn interpolate_at_zero(xs: Seq<u8>, ys: Seq<u8>) -> u8 {
    weighted_sum(xs, ys, xs.len() as int)
}

/// No two entries of `xs` are equal.
pub open spec fn distinct(xs: Seq<u8>) -> bool {
    forall|i: int, j: int| 0 <= i < j < xs.len() ==> xs[i] != xs[j]
}

/// The first coordinates of a list of points, each a pair `[x, y]`.
pub open spec fn abscissas(points: Seq<Vec<u8>>) -> Seq<u8> {
    Seq::new(points.len(), |i: int| points[i]@[0])
}

/// The second coordinates of a list of points, each a pair `[x, y]`.
pub open spec fn ordinates(points: Seq<Vec<u8>>) -> Seq<u8> {
    Seq::new(points.len(), |i: int| points[i]@[1])
}

/// The values of the polynomial `p` at the entries of `xs`.
pub open spec fn values_at(p: Seq<u8>, xs: Seq<u8>) -> Seq<u8> {
    Seq::new(xs.len(), |i: int| poly_eval(p, xs[i]))
}

/// The values at the entries of `xs` of the function `x -> pole / (x - pole)`.
pub open spec fn pole_values(xs: Seq<u8>, pole: u8) -> Seq<u8> {
    Seq::new(xs.len(), |i: int| basis_factor(xs[i], pole))
}

/// The entries of `ys`, each times the value of `x -> pole / (x - pole)` at
/// the entry of `xs` in the same place.
pub open spec fn scaled_by_poles(xs: Seq<u8>, pole: u8, ys: Seq<u8>) -> Seq<u8> {
    Seq::new(xs.len(), |i: int| gf_mul(basis_factor(xs[i], pole), ys[i]))
}

impl GFC256 {
    /// Interpolates at zero the polynomial through the given points, each a
    /// pair `[x, y]`, by Lagrange's formula. Two points with one abscissa
    /// determine no polynomial and are refused.
    pub fn interpolate(points: Vec<Vec<u8>>) -> (value: Result<u8, ShamirError>)
        requires
            forall|i: int| 0 <= i < points@.len() ==> (#[trigger] points@[i])@.len() == 2,
        ensures
            distinct(abscissas(points@)) ==> value == Ok::<u8, ShamirError>(
                interpolate_at_zero(abscissas(points@), ordinates(points@)),
            ),
            !distinct(abscissas(points@)) ==> value == Err::<u8, ShamirError>(
                ShamirError::DuplicateShareIndex,
            ),
    {
        let ghost xs = abscissas(points@);
        let ghost ys = ordinates(points@);
        let mut y: u8 = 0;
        let len: usize = points.len();
        for i in 0..len
            invariant
                len == points@.len(),
                xs == abscissas(points@),
                ys == ordinates(points@),
                forall|k: int| 0 <= k < points@.len() ==> (#[trigger] points@[k])@.len() == 2,
                y == weighted_sum(xs, ys, i as int),
                forall|a: int, b: int| 0 <= a < i && 0 <= b < len && a != b ==> xs[a] != xs[b],
        {
            let mut li: u8 = 1;
            for j in 0..len
                invariant
                    i < len,
                    len == points@.len(),
                    xs == abscissas(points@),
                    forall|k: int| 0 <= k < points@.len() ==> (#[trigger] points@[k])@.len() == 2,
                    li == basis_weight(xs, i as int, j as int),
                    forall|b: int| 0 <= b < j && b != i ==> xs[i as int] != xs[b],
            {
                if i != j {
                    let num: u8 = points[j][0];
                    let den: u8 = Self::sub(points[i][0], points[j][0]);
                    proof {
                        lemma_sub_zero_iff_equal(xs[i as int], xs[j as int]);
                    }
                    match Self::div(num, den) {
                        Ok(ratio) => {
                            li = Self::mul(li, ratio);
                        },
                        Err(_) => {
                            assert(xs[i as int] == xs[j as int]);
                            return Err(ShamirError::DuplicateShareIndex);
                        },
                    }
                }
            }
            y = Self::add(y, Self::mul(li, points[i][1]));
        }
        Ok(y)
    }
}

proof fn lemma_basis_weight_prefix(xs: Seq<u8>, other: Seq<u8>, i: int, n: int)
    requires
        0 <= n <= xs.len(),
        n <= other.len(),
        0 <= i < xs.len(),
        i < other.len(),
        xs[i] == other[i],
        forall|j: int| 0 <= j < n ==> xs[j] == other[j],
    ensures
        basis_weight(xs, i, n) == basis_weight(other, i, n),
    decreases n,
{
    if n > 0 {
        lemma_basis_weight_prefix(xs, other, i, n - 1);
    }
}

proof fn lemma_factor_product_prefix(xs: Seq<u8>, other: Seq<u8>, point: u8, n: int)
    requires
        0 <= n <= xs.len(),
        n <= other.len(),
        forall|j: int| 0 <= j < n ==> xs[j] == other[j],
    ensures
        factor_product(xs, point, n) == factor_product(other, point, n),
    decreases n,
{
    if n > 0 {
        lemma_factor_product_prefix(xs, other, point, n - 1);
    }
}

proof fn lemma_basis_weight_before_self(xs: Seq<u8>, i: int, n: int)
    requires
        0 <= n <= i < xs.len(),
    ensures
        basis_weight(xs, i, n) == factor_product(xs, xs[i], n),
    decreases n,
{
    if n > 0 {
        lemma_basis_weight_before_self(xs, i, n - 1);
    }
}

/// The weight of the last point among all of them is the product of the
/// factors of the points before it.
proof fn lemma_last_weight(xs: Seq<u8>)
    requires
        xs.len() >= 1,
    ensures
        basis_weight(xs, xs.len() - 1, xs.len() as int) == factor_product(
            xs.drop_last(),
            xs.last(),
            xs.len() - 1,
        ),
{
    let n = xs.len() as int;
    lemma_basis_weight_before_self(xs, n - 1, n - 1);
    lemma_factor_product_prefix(xs, xs.drop_last(), xs.last(), n - 1);
}

/// Taking the last point away divides the weight of every other point by the
/// factor that the last point gave it.
proof fn lemma_weighted_sum_extend(xs: Seq<u8>, ys: Seq<u8>, m: int)
    requires
        xs.len() >= 1,
        0 <= m <= xs.len() - 1,
    ensures
        weighted_sum(xs, ys, m) == weighted_sum(
            xs.drop_last(),
            scaled_by_poles(xs.drop_last(), xs.last(), ys),
            m,
        ),
    decreases m,
{
    if m > 0 {
        let n = xs.len() as int;
        let front = xs.drop_last();
        let a = xs.last();
        let zs = scaled_by_poles(front, a, ys);
        lemma_weighted_sum_extend(xs, ys, m - 1);
        let i = m - 1;
        assert(basis_weight(xs, i, n) == gf_mul(
            basis_weight(xs, i, n - 1),
            basis_factor(xs[i], xs[n - 1]),
        ));
        lemma_basis_weight_prefix(xs, front, i, n - 1);
        let w = basis_weight(front, i, n - 1);
        let f = basis_factor(front[i], a);
        lemma_mul_associative(w, f, ys[i]);
        assert(zs[i] == gf_mul(f, ys[i]));
    }
}

/// The weighted sum is linear in the ordinates.
proof fn lemma_weighted_sum_linear(
    xs: Seq<u8>,
    us: Seq<u8>,
    vs: Seq<u8>,
    zs: Seq<u8>,
    c: u8,
    d: u8,
    m: int,
)
    requires
        forall|i: int| 0 <= i < m ==> zs[i] == gf_add(gf_mul(c, us[i]), gf_mul(d, vs[i])),
    ensures
        weighted_sum(xs, zs, m) == gf_add(
            gf_mul(c, weighted_sum(xs, us, m)),
            gf_mul(d, weighted_sum(xs, vs, m)),
        ),
    decreases m,
{
    if m <= 0 {
        lemma_mul_zero(c);
        lemma_mul_zero(d);
        lemma_add_zero(0);
    } else {
        lemma_weighted_sum_linear(xs, us, vs, zs, c, d, m - 1);
        let i = m - 1;
        let w = basis_weight(xs, i, xs.len() as int);
        let su = weighted_sum(xs, us, i);
        let sv = weighted_sum(xs, vs, i);
        let cu = gf_mul(c, us[i]);
        let dv = gf_mul(d, vs[i]);
        lemma_mul_distributive(w, cu, dv);
        lemma_mul_exchange(w, c, us[i]);
        lemma_mul_exchange(w, d, vs[i]);
        let wu = gf_mul(w, us[i]);
        let wv = gf_mul(w, vs[i]);
        lemma_mul_distributive(c, su, wu);
        lemma_mul_distributive(d, sv, wv);
        let csu = gf_mul(c, su);
        let dsv = gf_mul(d, sv);
        let cwu = gf_mul(c, wu);
        let dwv = gf_mul(d, wv);
        assert((csu ^ dsv) ^ (cwu ^ dwv) == (csu ^ cwu) ^ (dsv ^ dwv)) by (bit_vector);
    }
}

/// The factors that two distinct points give each other add up to one.
proof fn lemma_factors_sum_to_one(a: u8, b: u8)
    requires
        a != b,
    ensures
        gf_add(basis_factor(a, b), basis_factor(b, a)) == 1,
{
    let s = gf_sub(a, b);
    lemma_sub_zero_iff_equal(a, b);
    assert(b ^ a == a ^ b) by (bit_vector);
    lemma_div_distributive(b, a, s);
    lemma_div_self(s);
}

/// Partial fractions: for `x` different from `a` and `b`,
/// `b / (x - b) * a / (x - a)` is
/// `b / (a - b) * a / (x - a) + a / (b - a) * b / (x - b)`.
proof fn lemma_partial_fractions(x: u8, a: u8, b: u8)
    requires
        x != a,
        x != b,
        a != b,
    ensures
        gf_mul(basis_factor(x, b), basis_factor(x, a)) == gf_add(
            gf_mul(basis_factor(a, b), basis_factor(x, a)),
            gf_mul(basis_factor(b, a), basis_factor(x, b)),
        ),
{
    let u = gf_sub(x, a);
    let v = gf_sub(x, b);
    let s = gf_sub(a, b);
    lemma_sub_zero_iff_equal(x, a);
    lemma_sub_zero_iff_equal(x, b);
    lemma_sub_zero_iff_equal(a, b);
    assert(b ^ a == a ^ b) by (bit_vector);
    assert((x ^ a) ^ (x ^ b) == a ^ b) by (bit_vector);
    let iu = gf_div(1, u);
    let iv = gf_div(1, v);
    let is = gf_div(1, s);
    lemma_div_is_mul_inverse(b, v);
    lemma_div_is_mul_inverse(a, u);
    lemma_div_is_mul_inverse(b, s);
    lemma_div_is_mul_inverse(a, s);
    lemma_div_mul_cancel(1, u);
    lemma_div_mul_cancel(1, v);
    lemma_div_mul_cancel(1, s);
    let t = gf_mul(iu, iv);
    // s * t == iv + iu
    assert(gf_mul(s, t) == gf_add(iv, iu)) by {
        lemma_mul_distributive(t, u, v);
        lemma_mul_associative(u, iu, iv);
        lemma_mul_commutative(u, iu);
        lemma_mul_one(iv);
        lemma_mul_exchange(v, iu, iv);
        lemma_mul_commutative(v, iv);
        lemma_mul_one(iu);
    }
    // is * (iu + iv) == t
    assert(gf_mul(is, gf_add(iu, iv)) == t) by {
        assert(iu ^ iv == iv ^ iu) by (bit_vector);
        lemma_mul_associative(is, s, t);
        lemma_mul_one(t);
    }
    let ba = gf_mul(b, a);
    assert(gf_mul(basis_factor(x, b), basis_factor(x, a)) == gf_mul(ba, t)) by {
        lemma_mul_interchange(b, iv, a, iu);
        lemma_mul_commutative(iv, iu);
    }
    assert(gf_mul(basis_factor(a, b), basis_factor(x, a)) == gf_mul(ba, gf_mul(is, iu))) by {
        lemma_mul_interchange(b, is, a, iu);
    }
    assert(gf_mul(basis_factor(b, a), basis_factor(x, b)) == gf_mul(ba, gf_mul(is, iv))) by {
        lemma_mul_interchange(a, is, b, iv);
        lemma_mul_commutative(a, b);
    }
    lemma_mul_distributive(ba, gf_mul(is, iu), gf_mul(is, iv));
    lemma_mul_distributive(is, iu, iv);
}

/// Interpolating `x -> a / (x - a)` at zero through points that avoid `a`
/// gives one plus the product of `x_j / (a - x_j)` over the points.
proof fn lemma_weights_against_pole(xs: Seq<u8>, a: u8)
    requires
        distinct(xs),
        forall|i: int| 0 <= i < xs.len() ==> xs[i] != a,
    ensures
        weighted_sum(xs, pole_values(xs, a), xs.len() as int) == gf_add(
            1,
            factor_product(xs, a, xs.len() as int),
        ),
    decreases xs.len(),
{
    let n = xs.len() as int;
    if n == 0 {
        lemma_add_self(1);
    } else {
        let front = xs.drop_last();
        let b = xs.last();
        let ys = pole_values(xs, a);
        let zs = scaled_by_poles(front, b, ys);
        let us = pole_values(front, a);
        let vs = pole_values(front, b);
        let c = basis_factor(a, b);
        let d = basis_factor(b, a);
        assert(xs[n - 1] != a);
        lemma_weighted_sum_extend(xs, ys, n - 1);
        assert forall|i: int| 0 <= i < n - 1 implies zs[i] == gf_add(
            gf_mul(c, us[i]),
            gf_mul(d, vs[i]),
        ) by {
            assert(xs[i] != xs[n - 1]);
            assert(xs[i] != a);
            lemma_partial_fractions(xs[i], a, b);
        }
        lemma_weighted_sum_linear(front, us, vs, zs, c, d, n - 1);
        assert(distinct(front));
        assert forall|i: int| 0 <= i < front.len() implies front[i] != b by {
            assert(xs[i] != xs[n - 1]);
        }
        lemma_weights_against_pole(front, a);
        lemma_weights_against_pole(front, b);
        let wa = factor_product(front, a, n - 1);
        let wb = factor_product(front, b, n - 1);
        lemma_last_weight(xs);
        assert(basis_weight(xs, n - 1, n) == wb);
        assert(ys[n - 1] == d);
        lemma_factor_product_prefix(xs, front, a, n - 1);
        assert(factor_product(xs, a, n) == gf_mul(wa, c));
        lemma_mul_distributive(c, 1, wa);
        lemma_mul_distributive(d, 1, wb);
        lemma_mul_one(c);
        lemma_mul_one(d);
        lemma_mul_commutative(wb, d);
        lemma_mul_commutative(wa, c);
        lemma_factors_sum_to_one(a, b);
        let cwa = gf_mul(c, wa);
        let dwb = gf_mul(d, wb);
        assert(((c ^ cwa) ^ (d ^ dwb)) ^ dwb == 1 ^ cwa) by (bit_vector)
            requires
                c ^ d == 1,
        ;
    }
}

/// Lagrange interpolation at zero is exact: through distinct points that lie
/// on a polynomial with no more coefficients than there are points, it gives
/// the value of the polynomial at zero.
pub proof fn lemma_interpolation_is_exact(xs: Seq<u8>, ys: Seq<u8>, p: Seq<u8>)
    requires
        distinct(xs),
        ys.len() == xs.len(),
        p.len() <= xs.len(),
        forall|i: int| 0 <= i < xs.len() ==> ys[i] == poly_eval(p, xs[i]),
    ensures
        interpolate_at_zero(xs, ys) == poly_eval(p, 0),
    decreases xs.len(),
{
    let n = xs.len() as int;
    if n > 0 {
        let front = xs.drop_last();
        let a = xs.last();
        let q = poly_quotient(p, a);
        let pa = poly_eval(p, a);
        let q0 = poly_eval(q, 0);
        let qs = values_at(q, front);
        let us = pole_values(front, a);
        let zs = scaled_by_poles(front, a, ys);
        lemma_weighted_sum_extend(xs, ys, n - 1);
        assert forall|i: int| 0 <= i < n - 1 implies zs[i] == gf_add(
            gf_mul(pa, us[i]),
            gf_mul(a, qs[i]),
        ) by {
            let x = xs[i];
            let e = gf_sub(x, a);
            let f = basis_factor(x, a);
            let qx = poly_eval(q, x);
            assert(xs[i] != xs[n - 1]);
            lemma_sub_zero_iff_equal(x, a);
            lemma_poly_quotient(p, a, x);
            lemma_mul_distributive(f, pa, gf_mul(e, qx));
            lemma_mul_commutative(f, pa);
            lemma_mul_associative(f, e, qx);
            lemma_div_mul_cancel(a, e);
        }
        lemma_weighted_sum_linear(front, us, qs, zs, pa, a, n - 1);
        assert(distinct(front));
        assert forall|i: int| 0 <= i < front.len() implies front[i] != a by {
            assert(xs[i] != xs[n - 1]);
        }
        lemma_weights_against_pole(front, a);
        lemma_poly_quotient(p, a, 0);
        lemma_interpolation_is_exact(front, qs, q);
        let w = factor_product(front, a, n - 1);
        lemma_last_weight(xs);
        assert(ys[n - 1] == pa);
        lemma_mul_distributive(pa, 1, w);
        lemma_mul_one(pa);
        lemma_mul_commutative(w, pa);
        lemma_add_zero(a);
        let paw = gf_mul(pa, w);
        let aq0 = gf_mul(a, q0);
        assert(((pa ^ paw) ^ aq0) ^ paw == pa ^ aq0) by (bit_vector);
    }
}

} // verus!
