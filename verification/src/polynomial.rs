use crate::field::{
    gf_add, gf_mul, gf_sub, lemma_add_zero, lemma_mul_associative, lemma_mul_commutative,
    lemma_mul_distributive, lemma_mul_zero, GFC256,
};
use crate::random::{random_byte, random_byte_between};
use rand::rngs::ThreadRng;
use vstd::prelude::*;

verus! {

/// The value at `x` of the polynomial over GF(256) whose coefficients are `p`,
/// the constant term first: `p[0] + x * (p[1] + x * (p[2] + ...))`.
pub open spec fn poly_eval(p: Seq<u8>, x: u8) -> u8
    decreases p.len(),
{
    if p.len() == 0 {
        0
    } else {
        gf_add(gf_mul(poly_eval(p.drop_first(), x), x), p[0])
    }
}

/// A polynomial fit to hide `constant` behind a threshold of `len` shares: it
/// has `len` coefficients, at least two, the constant term is `constant`, and
/// the leading coefficient is not zero, so that its degree is `len - 1`.
pub open spec fn is_sharing_polynomial(p: Seq<u8>, len: int, constant: u8) -> bool {
    &&& 2 <= len
    &&& p.len() == len
    &&& p[0] == constant
    &&& p[len - 1] != 0
}

/// The quotient of `p` by the linear factor `x - a`, by synthetic division:
/// the polynomial `q` with `p(x) = p(a) + (x - a) * q(x)` for every `x`.
pub open spec fn poly_quotient(p: Seq<u8>, a: u8) -> Seq<u8>
    decreases p.len(),
{
    if p.len() <= 1 {
        Seq::empty()
    } else {
        seq![poly_eval(p.drop_first(), a)] + poly_quotient(p.drop_first(), a)
    }
}

impl GFC256 {
    /// Evaluates the polynomial with coefficients `p`, the constant term
    /// first, at `x`, from the highest coefficient down.
    pub fn eval(p: &[u8], x: u8) -> (value: u8)
        ensures
            value == poly_eval(p@, x),
    {
        let mut result: u8 = 0;
        let mut i: usize = p.len();
        assert(p@.subrange(i as int, p@.len() as int) =~= Seq::<u8>::empty());
        while i > 0
            invariant
                i <= p@.len(),
                result == poly_eval(p@.subrange(i as int, p@.len() as int), x),
            decreases i,
        {
            i -= 1;
            result = Self::add(Self::mul(result, x), p[i]);
            proof {
                let rest = p@.subrange(i as int, p@.len() as int);
                assert(rest.drop_first() =~= p@.subrange(i + 1, p@.len() as int));
            }
        }
        assert(p@.subrange(0, p@.len() as int) =~= p@);
        result
    }

    /// Draws a polynomial of the given degree with the constant term
    /// `secret_byte`. The coefficients between the two ends are any bytes; the
    /// leading one is drawn from the nonzero bytes, so that the degree is
    /// exactly `degree`.
    pub fn generate(degree: i32, secret_byte: u8, rng: &mut ThreadRng) -> (p: Vec<u8>)
        requires
            1 <= degree,
        ensures
            is_sharing_polynomial(p@, degree + 1, secret_byte),
    {
        let mut p: Vec<u8> = Vec::new();
        p.push(secret_byte);
        let mut i: i32 = 1;
        while i < degree
            invariant
                1 <= i <= degree,
                p@.len() == i,
                p@[0] == secret_byte,
            decreases degree - i,
        {
            let coefficient = random_byte(rng);
            p.push(coefficient);
            i += 1;
        }
        let leading = random_byte_between(rng, 1, 255);
        p.push(leading);
        p
    }
}

/// At zero a polynomial takes the value of its constant term.
pub proof fn lemma_eval_at_zero(p: Seq<u8>)
    ensures
        poly_eval(p, 0) == if p.len() == 0 {
            0
        } else {
            p[0]
        },
{
    if p.len() > 0 {
        lemma_mul_zero(poly_eval(p.drop_first(), 0));
        lemma_add_zero(p[0]);
    }
}

/// Synthetic division: `p(x) = p(a) + (x - a) * q(x)` for the quotient `q` of
/// `p` by `x - a`, which has one coefficient less than `p`.
pub proof fn lemma_poly_quotient(p: Seq<u8>, a: u8, x: u8)
    ensures
        poly_quotient(p, a).len() == if p.len() == 0 {
            0
        } else {
            p.len() - 1
        },
        poly_eval(p, x) == gf_add(
            poly_eval(p, a),
            gf_mul(gf_sub(x, a), poly_eval(poly_quotient(p, a), x)),
        ),
    decreases p.len(),
{
    let q = poly_quotient(p, a);
    if p.len() == 0 {
        lemma_mul_zero(gf_sub(x, a));
        lemma_add_zero(0);
    } else {
        let t = p.drop_first();
        let c = p[0];
        let ta = poly_eval(t, a);
        let tx = poly_eval(t, x);
        if p.len() == 1 {
            assert(t.len() == 0);
            lemma_mul_zero(x);
            lemma_mul_zero(a);
            lemma_mul_zero(gf_sub(x, a));
            lemma_add_zero(c);
            assert(c ^ 0 == c) by (bit_vector);
        } else {
            let qt = poly_quotient(t, a);
            let qtx = poly_eval(qt, x);
            lemma_poly_quotient(t, a, x);
            assert(q.drop_first() =~= qt);
            assert(q[0] == ta);
            let d = gf_sub(x, a);
            // q(x) = qt(x) * x + t(a)
            let qx = poly_eval(q, x);
            assert(qx == gf_add(gf_mul(qtx, x), ta));
            // t(x) = t(a) + d * qt(x)
            let m = gf_mul(d, qtx);
            assert(tx == gf_add(ta, m));
            // p(x) = t(x) * x + c = t(a) * x + (d * qt(x)) * x + c
            lemma_mul_distributive(x, ta, m);
            let tax = gf_mul(ta, x);
            let mx = gf_mul(m, x);
            assert(gf_mul(tx, x) == gf_add(tax, mx));
            // d * q(x) = d * (qt(x) * x) + d * t(a)
            lemma_mul_distributive(d, gf_mul(qtx, x), ta);
            lemma_mul_associative(d, qtx, x);
            assert(gf_mul(d, gf_mul(qtx, x)) == mx);
            // d * t(a) = x * t(a) + a * t(a)
            lemma_mul_distributive(ta, x, a);
            lemma_mul_commutative(ta, x);
            lemma_mul_commutative(ta, a);
            let taa = gf_mul(ta, a);
            assert(gf_mul(d, ta) == gf_add(tax, taa));
            assert((tax ^ mx) ^ c == (taa ^ c) ^ (mx ^ (tax ^ taa))) by (bit_vector);
        }
    }
}

} // verus!
