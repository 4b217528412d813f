use crate::error::ShamirError;
use crate::tables::{
    antilog, exp_table, lemma_exponent, lemma_first_powers, lemma_logarithm, log, log_table,
    times_generator,
};
use vstd::arithmetic::power2::{lemma2_to64, lemma_pow2_unfold, pow2};
use vstd::prelude::*;

verus! {

/// The sum of two elements of GF(256): their bitwise exclusive or.
pub open spec fn gf_add(a: u8, b: u8) -> u8 {
    a ^ b
}

/// The difference of two elements of GF(256). The field has characteristic 2,
/// so every element is its own negative and the difference is the sum.
pub open spec fn gf_sub(a: u8, b: u8) -> u8 {
    a ^ b
}

/// The product of `x` and the indeterminate, reduced by the field polynomial
/// `x^8 + x^4 + x^3 + x + 1`. The bits of a byte are the coefficients of a
/// polynomial over GF(2), the lowest bit the constant term.
pub open spec fn gf_double(x: u8) -> u8 {
    if x & 0x80 == 0 {
        x << 1
    } else {
        (x << 1) ^ 0x1b
    }
}

/// The product of `a` and the polynomial of the lowest `bits` bits of `b`,
/// reduced by the field polynomial.
pub open spec fn gf_product(a: u8, b: u8, bits: nat) -> u8
    decreases bits,
{
    if bits == 0 {
        0
    } else {
        gf_add(
            if b & 1 == 1 {
                a
            } else {
                0
            },
            gf_product(gf_double(a), b >> 1, (bits - 1) as nat),
        )
    }
}

/// The product of two elements of GF(256): the product of the two
/// polynomials over GF(2), reduced by the field polynomial.
#[verifier::opaque]
pub open spec fn gf_mul(a: u8, b: u8) -> u8 {
    gf_product(a, b, 8)
}

/// The quotient of `a` by `b` in GF(256): the element whose product with `b`
/// is `a`. For a nonzero `b` there is exactly one.
#[verifier::opaque]
pub open spec fn gf_div(a: u8, b: u8) -> u8 {
    choose|q: u8| gf_mul(q, b) == a
}

/// The product as the tables give it: zero if either factor is zero, else the
/// generator raised to the sum of the logarithms.
#[verifier::opaque]
pub open spec fn mul_by_tables(a: u8, b: u8) -> u8 {
    if a == 0 || b == 0 {
        0
    } else {
        exp_table((log_table(a as int) + log_table(b as int)) % 255)
    }
}

/// The quotient by a nonzero `b` as the tables give it: zero if `a` is zero,
/// else the generator raised to the difference of the logarithms.
#[verifier::opaque]
pub open spec fn div_by_tables(a: u8, b: u8) -> u8 {
    if a == 0 || b == 0 {
        0
    } else {
        exp_table((log_table(a as int) - log_table(b as int) + 255) % 255)
    }
}

/// Arithmetic in the field GF(256), one byte per element.
pub struct GFC256;

impl GFC256 {
    #[inline]
    pub fn add(a: u8, b: u8) -> (sum: u8)
        ensures
            sum == gf_add(a, b),
    {
        a ^ b
    }

    #[inline]
    pub fn sub(a: u8, b: u8) -> (difference: u8)
        ensures
            difference == gf_sub(a, b),
    {
        a ^ b
    }

    /// Multiplies by adding logarithms.
    pub fn mul(a: u8, b: u8) -> (product: u8)
        ensures
            product == gf_mul(a, b),
    {
        proof {
            lemma_mul_by_tables(a, b);
            reveal(mul_by_tables);
        }
        if a == 0 || b == 0 {
            return 0;
        }
        let log_sum: usize = log(a) as usize + log(b) as usize;
        antilog(log_sum % 255)
    }

    /// Divides `a` by `b` by subtracting logarithms, and refuses a zero divisor.
    pub fn div(a: u8, b: u8) -> (quotient: Result<u8, ShamirError>)
        ensures
            b == 0 ==> quotient == Err::<u8, ShamirError>(ShamirError::DivisionByZero),
            b != 0 ==> quotient == Ok::<u8, ShamirError>(gf_div(a, b)),
    {
        if b == 0 {
            return Err(ShamirError::DivisionByZero);
        }
        proof {
            lemma_div_by_tables(a, b);
            reveal(div_by_tables);
        }
        if a == 0 {
            return Ok(0);
        }
        let log_diff: usize = (log(a) as usize + 255 - log(b) as usize) % 255;
        Ok(antilog(log_diff))
    }
}

/// Addition is commutative.
pub proof fn lemma_add_commutative(a: u8, b: u8)
    ensures
        gf_add(a, b) == gf_add(b, a),
{
    assert(a ^ b == b ^ a) by (bit_vector);
}

/// Addition is associative.
pub proof fn lemma_add_associative(a: u8, b: u8, c: u8)
    ensures
        gf_add(gf_add(a, b), c) == gf_add(a, gf_add(b, c)),
{
    assert((a ^ b) ^ c == a ^ (b ^ c)) by (bit_vector);
}

/// Zero is neutral for addition.
pub proof fn lemma_add_zero(a: u8)
    ensures
        gf_add(a, 0) == a,
        gf_add(0, a) == a,
{
    assert(a ^ 0 == a) by (bit_vector);
    assert(0 ^ a == a) by (bit_vector);
}

/// Every element is its own negative.
pub proof fn lemma_add_self(a: u8)
    ensures
        gf_add(a, a) == 0,
{
    assert(a ^ a == 0) by (bit_vector);
}

/// Two elements are equal exactly when their difference is zero.
pub proof fn lemma_sub_zero_iff_equal(a: u8, b: u8)
    ensures
        gf_sub(a, b) == 0 <==> a == b,
{
    assert(a ^ b == 0 <==> a == b) by (bit_vector);
}

proof fn lemma_tables_zero(a: u8)
    ensures
        mul_by_tables(a, 0) == 0,
        mul_by_tables(0, a) == 0,
{
    reveal(mul_by_tables);
}

proof fn lemma_tables_one(a: u8)
    ensures
        mul_by_tables(a, 1) == a,
        mul_by_tables(1, a) == a,
{
    reveal(mul_by_tables);
    if a != 0 {
        lemma_logarithm(a);
        lemma_first_powers();
    }
}

proof fn lemma_tables_commutative(a: u8, b: u8)
    ensures
        mul_by_tables(a, b) == mul_by_tables(b, a),
{
    reveal(mul_by_tables);
}

/// The tables give no zero for nonzero factors, and the logarithm of their
/// product is the sum of the logarithms modulo 255.
proof fn lemma_tables_nonzero(a: u8, b: u8)
    requires
        a != 0,
        b != 0,
    ensures
        mul_by_tables(a, b) != 0,
        log_table(mul_by_tables(a, b) as int) == (log_table(a as int) + log_table(b as int))
            % 255,
{
    reveal(mul_by_tables);
    lemma_logarithm(a);
    lemma_logarithm(b);
    lemma_exponent((log_table(a as int) + log_table(b as int)) % 255);
}

proof fn lemma_tables_associative(a: u8, b: u8, c: u8)
    ensures
        mul_by_tables(mul_by_tables(a, b), c) == mul_by_tables(a, mul_by_tables(b, c)),
{
    reveal(mul_by_tables);
    if a != 0 && b != 0 && c != 0 {
        lemma_tables_nonzero(a, b);
        lemma_tables_nonzero(b, c);
        lemma_logarithm(a);
        lemma_logarithm(b);
        lemma_logarithm(c);
        let la = log_table(a as int) as int;
        let lb = log_table(b as int) as int;
        let lc = log_table(c as int) as int;
        assert(((la + lb) % 255 + lc) % 255 == (la + (lb + lc) % 255) % 255);
    }
}

/// The generator applied `i` times to `b` by shifts and xor.
spec fn generator_power_times(i: nat, b: u8) -> u8
    decreases i,
{
    if i == 0 {
        b
    } else {
        times_generator(generator_power_times((i - 1) as nat, b))
    }
}

proof fn lemma_times_generator_linear(b: u8, c: u8)
    ensures
        times_generator(b ^ c) == times_generator(b) ^ times_generator(c),
        times_generator(0) == 0,
{
    assert(times_generator(b ^ c) == times_generator(b) ^ times_generator(c)) by (bit_vector);
    assert(times_generator(0) == 0) by (bit_vector);
}

proof fn lemma_power_times_linear(i: nat, b: u8, c: u8)
    ensures
        generator_power_times(i, b ^ c) == generator_power_times(i, b) ^ generator_power_times(
            i,
            c,
        ),
        generator_power_times(i, 0) == 0,
    decreases i,
{
    if i > 0 {
        lemma_power_times_linear((i - 1) as nat, b, c);
        lemma_times_generator_linear(
            generator_power_times((i - 1) as nat, b),
            generator_power_times((i - 1) as nat, c),
        );
    }
}

proof fn lemma_power_times_in_table(i: nat, b: u8)
    requires
        b != 0,
    ensures
        generator_power_times(i, b) == exp_table((log_table(b as int) + i) % 255),
    decreases i,
{
    lemma_logarithm(b);
    if i > 0 {
        lemma_power_times_in_table((i - 1) as nat, b);
        let j = (log_table(b as int) + i - 1) % 255;
        lemma_exponent(j);
        assert((j + 1) % 255 == (log_table(b as int) + i) % 255);
    }
}

/// By the tables, multiplying by a nonzero `a` is multiplying by the
/// generator as often as the logarithm of `a` says.
proof fn lemma_tables_power_times(a: u8, b: u8)
    requires
        a != 0,
    ensures
        mul_by_tables(a, b) == generator_power_times(log_table(a as int) as nat, b),
{
    reveal(mul_by_tables);
    if b == 0 {
        lemma_power_times_linear(log_table(a as int) as nat, 0, 0);
    } else {
        lemma_power_times_in_table(log_table(a as int) as nat, b);
    }
}

proof fn lemma_tables_distributive(a: u8, b: u8, c: u8)
    ensures
        mul_by_tables(a, gf_add(b, c)) == gf_add(mul_by_tables(a, b), mul_by_tables(a, c)),
        mul_by_tables(gf_add(b, c), a) == gf_add(mul_by_tables(b, a), mul_by_tables(c, a)),
{
    lemma_tables_commutative(gf_add(b, c), a);
    lemma_tables_commutative(b, a);
    lemma_tables_commutative(c, a);
    if a == 0 {
        lemma_tables_zero(gf_add(b, c));
        lemma_tables_zero(b);
        lemma_tables_zero(c);
        lemma_add_zero(0);
    } else {
        let i = log_table(a as int) as nat;
        lemma_tables_power_times(a, b ^ c);
        lemma_tables_power_times(a, b);
        lemma_tables_power_times(a, c);
        lemma_power_times_linear(i, b, c);
    }
}

/// By the tables, the product with the indeterminate `0x02` is `gf_double`.
proof fn lemma_tables_double(x: u8)
    ensures
        mul_by_tables(2, x) == gf_double(x),
{
    lemma_first_powers();
    lemma_tables_power_times(3, x);
    assert(generator_power_times(0, x) == x);
    assert(generator_power_times(1, x) == times_generator(x));
    lemma_tables_distributive(x, 3, 1);
    lemma_tables_one(x);
    assert(3u8 ^ 1u8 == 2u8) by (bit_vector);
    assert((times_generator(x) ^ x) == gf_double(x)) by (bit_vector);
}

/// By the tables, a product splits along the lowest bit of its second factor.
proof fn lemma_tables_step(a: u8, b: u8)
    ensures
        mul_by_tables(a, b) == gf_add(
            if b & 1 == 1 {
                a
            } else {
                0
            },
            mul_by_tables(gf_double(a), b >> 1),
        ),
{
    let low = b & 1;
    let rest = b >> 1;
    assert((b & 1) ^ gf_double(b >> 1) == b) by (bit_vector);
    assert(b & 1 == 0 || b & 1 == 1) by (bit_vector);
    lemma_tables_distributive(a, low, gf_double(rest));
    lemma_tables_zero(a);
    lemma_tables_one(a);
    lemma_tables_double(rest);
    lemma_tables_double(a);
    lemma_tables_associative(a, 2, rest);
    lemma_tables_commutative(a, 2);
}

proof fn lemma_product_by_tables(a: u8, b: u8, bits: nat)
    requires
        b < pow2(bits),
    ensures
        gf_product(a, b, bits) == mul_by_tables(a, b),
    decreases bits,
{
    if bits == 0 {
        lemma2_to64();
        lemma_tables_zero(a);
    } else {
        lemma_pow2_unfold(bits);
        assert(b >> 1 == b / 2) by (bit_vector);
        lemma_product_by_tables(gf_double(a), b >> 1, (bits - 1) as nat);
        lemma_tables_step(a, b);
    }
}

/// The tables multiply: the generator raised to the sum of the logarithms of
/// two nonzero elements is their product.
pub proof fn lemma_mul_by_tables(a: u8, b: u8)
    ensures
        gf_mul(a, b) == mul_by_tables(a, b),
{
    reveal(gf_mul);
    lemma2_to64();
    lemma_product_by_tables(a, b, 8);
}

/// A product with zero is zero.
pub proof fn lemma_mul_zero(a: u8)
    ensures
        gf_mul(a, 0) == 0,
        gf_mul(0, a) == 0,
{
    lemma_mul_by_tables(a, 0);
    lemma_mul_by_tables(0, a);
    lemma_tables_zero(a);
}

/// One is neutral for multiplication.
pub proof fn lemma_mul_one(a: u8)
    ensures
        gf_mul(a, 1) == a,
        gf_mul(1, a) == a,
{
    lemma_mul_by_tables(a, 1);
    lemma_mul_by_tables(1, a);
    lemma_tables_one(a);
}

/// Multiplication is commutative.
pub proof fn lemma_mul_commutative(a: u8, b: u8)
    ensures
        gf_mul(a, b) == gf_mul(b, a),
{
    lemma_mul_by_tables(a, b);
    lemma_mul_by_tables(b, a);
    lemma_tables_commutative(a, b);
}

/// The field has no zero divisors.
pub proof fn lemma_mul_nonzero(a: u8, b: u8)
    requires
        a != 0,
        b != 0,
    ensures
        gf_mul(a, b) != 0,
{
    lemma_mul_by_tables(a, b);
    lemma_tables_nonzero(a, b);
}

/// Multiplication is associative.
pub proof fn lemma_mul_associative(a: u8, b: u8, c: u8)
    ensures
        gf_mul(gf_mul(a, b), c) == gf_mul(a, gf_mul(b, c)),
{
    lemma_mul_by_tables(a, b);
    lemma_mul_by_tables(gf_mul(a, b), c);
    lemma_mul_by_tables(b, c);
    lemma_mul_by_tables(a, gf_mul(b, c));
    lemma_tables_associative(a, b, c);
}

/// Multiplication distributes over addition.
pub proof fn lemma_mul_distributive(a: u8, b: u8, c: u8)
    ensures
        gf_mul(a, gf_add(b, c)) == gf_add(gf_mul(a, b), gf_mul(a, c)),
        gf_mul(gf_add(b, c), a) == gf_add(gf_mul(b, a), gf_mul(c, a)),
{
    lemma_mul_by_tables(a, gf_add(b, c));
    lemma_mul_by_tables(a, b);
    lemma_mul_by_tables(a, c);
    lemma_mul_by_tables(gf_add(b, c), a);
    lemma_mul_by_tables(b, a);
    lemma_mul_by_tables(c, a);
    lemma_tables_distributive(a, b, c);
}

/// In a product of three, the first two factors may change places.
pub proof fn lemma_mul_exchange(a: u8, b: u8, c: u8)
    ensures
        gf_mul(a, gf_mul(b, c)) == gf_mul(b, gf_mul(a, c)),
{
    lemma_mul_associative(a, b, c);
    lemma_mul_commutative(a, b);
    lemma_mul_associative(b, a, c);
}

/// In a product of two products, the inner factors may change places.
pub proof fn lemma_mul_interchange(a: u8, b: u8, c: u8, d: u8)
    ensures
        gf_mul(gf_mul(a, b), gf_mul(c, d)) == gf_mul(gf_mul(a, c), gf_mul(b, d)),
{
    lemma_mul_associative(a, b, gf_mul(c, d));
    lemma_mul_exchange(b, c, d);
    lemma_mul_associative(a, c, gf_mul(b, d));
}

/// What the tables give as the quotient of `a` by a nonzero `b` gives `a`
/// back when multiplied by `b`.
proof fn lemma_tables_quotient(a: u8, b: u8)
    requires
        b != 0,
    ensures
        gf_mul(div_by_tables(a, b), b) == a,
{
    reveal(mul_by_tables);
    reveal(div_by_tables);
    lemma_mul_by_tables(div_by_tables(a, b), b);
    if a != 0 {
        lemma_logarithm(a);
        lemma_logarithm(b);
        let la = log_table(a as int) as int;
        let lb = log_table(b as int) as int;
        let d = (la - lb + 255) % 255;
        lemma_exponent(d);
        assert((d + lb) % 255 == la);
    }
}

/// Dividing and multiplying by the same nonzero element changes nothing.
pub proof fn lemma_div_mul_cancel(a: u8, b: u8)
    requires
        b != 0,
    ensures
        gf_mul(gf_div(a, b), b) == a,
{
    reveal(gf_div);
    lemma_tables_quotient(a, b);
}

/// The quotient by a nonzero element is unique: whatever gives `a` when
/// multiplied by `b` is the quotient of `a` by `b`.
pub proof fn lemma_div_unique(a: u8, b: u8, q: u8)
    requires
        b != 0,
        gf_mul(q, b) == a,
    ensures
        gf_div(a, b) == q,
{
    let d = gf_div(a, b);
    lemma_div_mul_cancel(a, b);
    lemma_mul_distributive(b, d, q);
    lemma_add_self(a);
    if gf_add(d, q) != 0 {
        lemma_mul_nonzero(gf_add(d, q), b);
    }
    lemma_sub_zero_iff_equal(d, q);
}

/// The tables divide: the generator raised to the difference of the
/// logarithms of two nonzero elements is their quotient.
pub proof fn lemma_div_by_tables(a: u8, b: u8)
    requires
        b != 0,
    ensures
        gf_div(a, b) == div_by_tables(a, b),
{
    lemma_tables_quotient(a, b);
    lemma_div_unique(a, b, div_by_tables(a, b));
}

/// A quotient is the product with the inverse of the divisor, and the
/// inverse is not zero.
pub proof fn lemma_div_is_mul_inverse(a: u8, b: u8)
    requires
        b != 0,
    ensures
        gf_div(a, b) == gf_mul(a, gf_div(1, b)),
        gf_div(1, b) != 0,
{
    let inverse = gf_div(1, b);
    lemma_div_mul_cancel(1, b);
    lemma_mul_associative(a, inverse, b);
    lemma_mul_one(a);
    lemma_div_unique(a, b, gf_mul(a, inverse));
    lemma_mul_zero(b);
}

/// Division distributes over addition in the dividend.
pub proof fn lemma_div_distributive(a: u8, b: u8, c: u8)
    requires
        c != 0,
    ensures
        gf_div(gf_add(a, b), c) == gf_add(gf_div(a, c), gf_div(b, c)),
{
    lemma_div_is_mul_inverse(gf_add(a, b), c);
    lemma_div_is_mul_inverse(a, c);
    lemma_div_is_mul_inverse(b, c);
    lemma_mul_distributive(gf_div(1, c), a, b);
}

/// A nonzero element divided by itself is one.
pub proof fn lemma_div_self(a: u8)
    requires
        a != 0,
    ensures
        gf_div(a, a) == 1,
{
    lemma_mul_one(a);
    lemma_div_unique(a, a, 1);
}

} // verus!
