//! Arithmetic in the scalar field.
//!
//! The field is the integers modulo `FIELD_MODULUS`, a prime of the form
//! 15 * 2^27 + 1.  Its multiplicative group has order divisible by 2^27, so
//! the field contains roots of unity of every power-of-two order up to 2^27,
//! which is what the evaluation domain needs.
//!
//! Field elements are `u64` values below the modulus.  Every specification is
//! stated over the mathematical operations `fadd_s`, `fsub_s`, `fmul_s` and
//! `pow_s` on unbounded integers reduced modulo the prime.

use vstd::prelude::*;
use vstd::arithmetic::div_mod::{
    lemma_small_mod, lemma_mod_bound, lemma_mod_add_multiples_vanish,
    lemma_mod_sub_multiples_vanish, lemma_mul_mod_noop_left, lemma_mul_mod_noop_right,
    lemma_add_mod_noop_right, lemma_sub_mod_noop_right, lemma_fundamental_div_mod,
    lemma_mod_multiples_vanish,
};

verus! {

/// The prime modulus of the scalar field: 15 * 2^27 + 1.
pub const FIELD_MODULUS: u64 = 2013265921;

/// The inverse of 2 in the field, (FIELD_MODULUS + 1) / 2.
pub const TWO_INV: u64 = 1006632961;

/// A generator of the multiplicative group of the field.
pub const GENERATOR: u64 = 31;

/// True of an integer that is a reduced field element.
pub open spec fn f_reduced(a: int) -> bool {
    0 <= a < FIELD_MODULUS
}

/// Field addition on unbounded integers.
pub open spec fn fadd_s(a: int, b: int) -> int {
    (a + b) % (FIELD_MODULUS as int)
}

/// Field subtraction on unbounded integers.
pub open spec fn fsub_s(a: int, b: int) -> int {
    (a - b) % (FIELD_MODULUS as int)
}

/// Field multiplication on unbounded integers.
pub open spec fn fmul_s(a: int, b: int) -> int {
    (a * b) % (FIELD_MODULUS as int)
}

/// Field negation on unbounded integers.
pub open spec fn fneg_s(a: int) -> int {
    fsub_s(0, a)
}

/// Field exponentiation with a natural exponent.
pub open spec fn pow_s(a: int, e: nat) -> int
    decreases e,
{
    if e == 0 {
        1
    } else {
        fmul_s(a, pow_s(a, (e - 1) as nat))
    }
}

/// The Fermat inverse candidate a^(FIELD_MODULUS - 2).
pub open spec fn finv_s(a: int) -> int {
    pow_s(a, (FIELD_MODULUS - 2) as nat)
}

/// The result of each field operation is a reduced element.
pub proof fn lemma_f_range(a: int, b: int)
    ensures
        f_reduced(fadd_s(a, b)),
        f_reduced(fsub_s(a, b)),
        f_reduced(fmul_s(a, b)),
        f_reduced(fneg_s(a)),
{
    lemma_mod_bound(a + b, FIELD_MODULUS as int);
    lemma_mod_bound(a - b, FIELD_MODULUS as int);
    lemma_mod_bound(a * b, FIELD_MODULUS as int);
    lemma_mod_bound(0 - a, FIELD_MODULUS as int);
}

/// A power of a field element is a reduced element.
pub proof fn lemma_pow_range(a: int, e: nat)
    ensures
        f_reduced(pow_s(a, e)),
    decreases e,
{
    if e == 0 {
    } else {
        lemma_pow_range(a, (e - 1) as nat);
        lemma_f_range(a, pow_s(a, (e - 1) as nat));
    }
}

/// Field multiplication is associative.
pub proof fn lemma_fmul_assoc(a: int, b: int, c: int)
    ensures
        fmul_s(fmul_s(a, b), c) == fmul_s(a, fmul_s(b, c)),
{
    let m = FIELD_MODULUS as int;
    lemma_mul_mod_noop_left(a * b, c, m);
    lemma_mul_mod_noop_right(a, b * c, m);
    assert(a * b * c == a * (b * c)) by (nonlinear_arith);
}

/// Field multiplication is commutative.
pub proof fn lemma_fmul_comm(a: int, b: int)
    ensures
        fmul_s(a, b) == fmul_s(b, a),
{
    assert(a * b == b * a) by (nonlinear_arith);
}

/// Multiplying a reduced element by one leaves it unchanged.
pub proof fn lemma_fmul_one(a: int)
    requires
        f_reduced(a),
    ensures
        fmul_s(a, 1) == a,
        fmul_s(1, a) == a,
{
    lemma_small_mod(a as nat, FIELD_MODULUS as nat);
}

/// One is a power of every base, and the powers unfold multiplicatively.
pub proof fn lemma_pow_one_base(e: nat)
    ensures
        pow_s(1, e) == 1,
    decreases e,
{
    if e == 0 {
    } else {
        lemma_pow_one_base((e - 1) as nat);
        lemma_small_mod(1nat, FIELD_MODULUS as nat);
    }
}

/// Doubling the exponent is squaring the base.
pub proof fn lemma_pow_even(a: int, e: nat)
    ensures
        pow_s(a, e + e) == pow_s(fmul_s(a, a), e),
    decreases e,
{
    if e == 0 {
    } else {
        lemma_pow_even(a, (e - 1) as nat);
        // pow_s(a, 2e) == fmul_s(a, fmul_s(a, pow_s(a, 2e - 2)))
        //              == fmul_s(fmul_s(a, a), pow_s(a, 2e - 2))
        lemma_fmul_assoc(a, a, pow_s(a, ((e - 1) + (e - 1)) as nat));
        assert(pow_s(a, e + e) == fmul_s(a, pow_s(a, (e + e - 1) as nat)));
        assert(pow_s(a, (e + e - 1) as nat) == fmul_s(a, pow_s(a, ((e - 1) + (e - 1)) as nat)));
    }
}

/// Powers with added exponents multiply.
pub proof fn lemma_pow_add(a: int, i: nat, j: nat)
    ensures
        pow_s(a, i + j) == fmul_s(pow_s(a, i), pow_s(a, j)),
    decreases i,
{
    if i == 0 {
        lemma_pow_range(a, j);
        lemma_fmul_one(pow_s(a, j));
    } else {
        lemma_pow_add(a, (i - 1) as nat, j);
        lemma_fmul_assoc(a, pow_s(a, (i - 1) as nat), pow_s(a, j));
        assert((i - 1) + j == (i + j - 1) as nat);
    }
}

/// A product of equal powers is the power of the product.
pub proof fn lemma_pow_mul_base(a: int, b: int, e: nat)
    ensures
        fmul_s(pow_s(a, e), pow_s(b, e)) == pow_s(fmul_s(a, b), e),
    decreases e,
{
    if e == 0 {
        lemma_small_mod(1nat, FIELD_MODULUS as nat);
    } else {
        let e1 = (e - 1) as nat;
        let pa = pow_s(a, e1);
        let pb = pow_s(b, e1);
        lemma_pow_mul_base(a, b, e1);
        // fmul(fmul(a, pa), fmul(b, pb)) == fmul(fmul(a, b), fmul(pa, pb))
        lemma_fmul_assoc(a, pa, fmul_s(b, pb));
        lemma_fmul_comm(pa, fmul_s(b, pb));
        lemma_fmul_assoc(b, pb, pa);
        lemma_fmul_comm(pb, pa);
        lemma_fmul_assoc(b, pa, pb);
        lemma_fmul_comm(b, pa);
        // now fmul(pa, fmul(b, pb)) == fmul(b, fmul(pa, pb))
        lemma_fmul_assoc(a, b, fmul_s(pa, pb));
    }
}

/// A reduced operand of a field operation may be replaced by any integer
/// congruent to it; these six rewrites let identities be proved on the
/// unreduced integers, where plain ring reasoning applies.
pub proof fn lemma_reduce_ops(x: int, y: int)
    ensures
        fadd_s(x % (FIELD_MODULUS as int), y) == fadd_s(x, y),
        fadd_s(x, y % (FIELD_MODULUS as int)) == fadd_s(x, y),
        fsub_s(x % (FIELD_MODULUS as int), y) == fsub_s(x, y),
        fsub_s(x, y % (FIELD_MODULUS as int)) == fsub_s(x, y),
        fmul_s(x % (FIELD_MODULUS as int), y) == fmul_s(x, y),
        fmul_s(x, y % (FIELD_MODULUS as int)) == fmul_s(x, y),
{
    let m = FIELD_MODULUS as int;
    lemma_add_mod_noop_right(y, x, m);
    lemma_add_mod_noop_right(x, y, m);
    lemma_fundamental_div_mod(x, m);
    lemma_mod_multiples_vanish(-(x / m), x - y, m);
    lemma_sub_mod_noop_right(x, y, m);
    lemma_mul_mod_noop_left(x, y, m);
    lemma_mul_mod_noop_right(x, y, m);
}

/// Field addition is associative.
pub proof fn lemma_fadd_assoc(a: int, b: int, c: int)
    ensures
        fadd_s(fadd_s(a, b), c) == fadd_s(a, fadd_s(b, c)),
{
    lemma_reduce_ops(a + b, c);
    lemma_reduce_ops(a, b + c);
}

/// Field multiplication distributes over field addition.
pub proof fn lemma_fmul_fadd_distrib(a: int, b: int, c: int)
    ensures
        fmul_s(a, fadd_s(b, c)) == fadd_s(fmul_s(a, b), fmul_s(a, c)),
        fmul_s(fadd_s(b, c), a) == fadd_s(fmul_s(b, a), fmul_s(c, a)),
{
    lemma_reduce_ops(a, b + c);
    lemma_reduce_ops(b + c, a);
    lemma_reduce_ops(a * b, fmul_s(a, c));
    lemma_reduce_ops(a * b, a * c);
    lemma_reduce_ops(b * a, fmul_s(c, a));
    lemma_reduce_ops(b * a, c * a);
    assert(a * (b + c) == a * b + a * c) by (nonlinear_arith);
    assert((b + c) * a == b * a + c * a) by (nonlinear_arith);
    lemma_fmul_comm(a, b + c);
}

/// Field multiplication distributes over field subtraction.
pub proof fn lemma_fmul_fsub_distrib(a: int, b: int, c: int)
    ensures
        fmul_s(a, fsub_s(b, c)) == fsub_s(fmul_s(a, b), fmul_s(a, c)),
{
    lemma_reduce_ops(a, b - c);
    lemma_reduce_ops(b - c, a);
    lemma_reduce_ops(a * b, fmul_s(a, c));
    lemma_reduce_ops(a * b, a * c);
    assert(a * (b - c) == a * b - a * c) by (nonlinear_arith);
    lemma_fmul_comm(a, b - c);
}

/// An addition may be moved across a subtraction.
pub proof fn lemma_fadd_fsub_mix(a: int, b: int, c: int)
    ensures
        fadd_s(a, fsub_s(b, c)) == fsub_s(fadd_s(a, b), c),
{
    lemma_reduce_ops(b - c, a);
    lemma_reduce_ops(a, b - c);
    lemma_reduce_ops(a + b, c);
}

/// A sum of two differences is the difference of the two sums.
pub proof fn lemma_fadd_fsub_rearrange(p: int, q: int, r: int, s: int)
    ensures
        fadd_s(fsub_s(p, q), fsub_s(r, s)) == fsub_s(fadd_s(p, r), fadd_s(q, s)),
{
    lemma_reduce_ops(p - q, fsub_s(r, s));
    lemma_reduce_ops(p - q, r - s);
    lemma_reduce_ops(p + r, q + s);
    lemma_reduce_ops(p + r, fadd_s(q, s));
}

/// Adding a term and subtracting it again cancels.
pub proof fn lemma_fadd_cancel(a: int, b: int, r: int)
    ensures
        fadd_s(fadd_s(a, b), fsub_s(r, b)) == fadd_s(a, r),
{
    lemma_reduce_ops(a + b, fsub_s(r, b));
    lemma_reduce_ops(a + b, r - b);
}

/// The left factor of a nested product may be exchanged with the outer one.
pub proof fn lemma_fmul_shuffle(x: int, t: int, p: int)
    ensures
        fmul_s(x, fmul_s(t, p)) == fmul_s(t, fmul_s(x, p)),
{
    lemma_fmul_assoc(x, t, p);
    lemma_fmul_comm(x, t);
    lemma_fmul_assoc(t, x, p);
}

/// A four-term sum of field elements may be regrouped freely.
pub proof fn lemma_fadd4(a: int, b: int, c: int, d: int)
    ensures
        fadd_s(a, fadd_s(b, fadd_s(c, d))) == fadd_s(fadd_s(a, c), fadd_s(b, d)),
{
    lemma_reduce_ops(b, c + d);
    lemma_reduce_ops(a, b + c + d);
    lemma_reduce_ops(a + c, fadd_s(b, d));
    lemma_reduce_ops(a + c, b + d);
}

/// Negation interacts with products: two negated factors cancel, and
/// multiplying by minus one negates.
pub proof fn lemma_fneg_mul(a: int, b: int)
    ensures
        fmul_s(fneg_s(a), fneg_s(b)) == fmul_s(a, b),
        fmul_s(a, (FIELD_MODULUS - 1) as int) == fneg_s(a),
{
    let m = FIELD_MODULUS as int;
    lemma_reduce_ops(0 - a, fneg_s(b));
    lemma_reduce_ops(0 - a, 0 - b);
    assert((0 - a) * (0 - b) == a * b) by (nonlinear_arith);
    assert(a * (m - 1) == m * a + (0 - a)) by (nonlinear_arith);
    lemma_mod_multiples_vanish(a, 0 - a, m);
}

/// Adding a product with a negated factor is subtracting the product.
pub proof fn lemma_fadd_mul_neg(e: int, a: int, b: int)
    ensures
        fadd_s(e, fmul_s(fneg_s(a), b)) == fsub_s(e, fmul_s(a, b)),
{
    lemma_reduce_ops(0 - a, b);
    assert((0 - a) * b == 0 - a * b) by (nonlinear_arith);
    lemma_reduce_ops(e, 0 - a * b);
    lemma_reduce_ops(e, a * b);
}

/// The difference of two reduced elements is zero exactly when they are
/// equal.
pub proof fn lemma_fsub_eq_zero(a: int, b: int)
    requires
        f_reduced(a),
        f_reduced(b),
    ensures
        (fsub_s(a, b) == 0) <==> (a == b),
{
    let m = FIELD_MODULUS as int;
    if a >= b {
        lemma_small_mod((a - b) as nat, FIELD_MODULUS as nat);
    } else {
        lemma_mod_add_multiples_vanish(a - b, m);
        lemma_small_mod((a - b + m) as nat, FIELD_MODULUS as nat);
    }
}

/// True of an element whose Fermat candidate really is an inverse.
pub open spec fn f_invertible(a: int) -> bool {
    fmul_s(a, finv_s(a)) == 1
}

/// One is its own inverse.
pub proof fn lemma_one_invertible()
    ensures
        f_invertible(1),
        finv_s(1) == 1,
{
    lemma_pow_one_base((FIELD_MODULUS - 2) as nat);
    lemma_small_mod(1nat, FIELD_MODULUS as nat);
}

/// Adds two reduced field elements.
pub fn field_add(a: u64, b: u64) -> (r: u64)
    requires
        a < FIELD_MODULUS,
        b < FIELD_MODULUS,
    ensures
        r < FIELD_MODULUS,
        r as int == fadd_s(a as int, b as int),
{
    let s = a + b;
    if s >= FIELD_MODULUS {
        proof {
            lemma_mod_sub_multiples_vanish(s as int, FIELD_MODULUS as int);
            lemma_small_mod((s - FIELD_MODULUS) as nat, FIELD_MODULUS as nat);
        }
        s - FIELD_MODULUS
    } else {
        proof {
            lemma_small_mod(s as nat, FIELD_MODULUS as nat);
        }
        s
    }
}

/// Subtracts one reduced field element from another.
pub fn field_sub(a: u64, b: u64) -> (r: u64)
    requires
        a < FIELD_MODULUS,
        b < FIELD_MODULUS,
    ensures
        r < FIELD_MODULUS,
        r as int == fsub_s(a as int, b as int),
{
    if a >= b {
        proof {
            lemma_small_mod((a - b) as nat, FIELD_MODULUS as nat);
        }
        a - b
    } else {
        proof {
            lemma_mod_add_multiples_vanish(a as int - b as int, FIELD_MODULUS as int);
            lemma_small_mod((a + FIELD_MODULUS - b) as nat, FIELD_MODULUS as nat);
        }
        a + FIELD_MODULUS - b
    }
}

/// Negates a reduced field element.
pub fn field_neg(a: u64) -> (r: u64)
    requires
        a < FIELD_MODULUS,
    ensures
        r < FIELD_MODULUS,
        r as int == fneg_s(a as int),
{
    if a == 0 {
        proof {
            lemma_small_mod(0nat, FIELD_MODULUS as nat);
        }
        0
    } else {
        proof {
            lemma_mod_add_multiples_vanish(0 - a as int, FIELD_MODULUS as int);
            lemma_small_mod((FIELD_MODULUS - a) as nat, FIELD_MODULUS as nat);
        }
        FIELD_MODULUS - a
    }
}

/// Multiplies two reduced field elements.
pub fn field_mul(a: u64, b: u64) -> (r: u64)
    requires
        a < FIELD_MODULUS,
        b < FIELD_MODULUS,
    ensures
        r < FIELD_MODULUS,
        r as int == fmul_s(a as int, b as int),
{
    proof {
        assert(a as int * b as int <= (FIELD_MODULUS - 1) as int * (FIELD_MODULUS - 1) as int)
            by (nonlinear_arith)
            requires
                a as int <= (FIELD_MODULUS - 1) as int,
                b as int <= (FIELD_MODULUS - 1) as int,
                0 <= a as int,
                0 <= b as int,
        ;
        lemma_mod_bound(a as int * b as int, FIELD_MODULUS as int);
    }
    let p = a * b;
    p % FIELD_MODULUS
}

/// Raises a reduced field element to an arbitrary power by binary
/// exponentiation.
pub fn field_pow(a: u64, e: u64) -> (r: u64)
    requires
        a < FIELD_MODULUS,
    ensures
        r < FIELD_MODULUS,
        r as int == pow_s(a as int, e as nat),
{
    let mut base = a;
    let mut exp = e;
    let mut acc: u64 = 1;
    proof {
        lemma_pow_range(a as int, e as nat);
        lemma_fmul_one(pow_s(a as int, e as nat));
        lemma_fmul_comm(1, pow_s(a as int, e as nat));
    }
    while exp > 0
        invariant
            base < FIELD_MODULUS,
            acc < FIELD_MODULUS,
            fmul_s(acc as int, pow_s(base as int, exp as nat)) == pow_s(a as int, e as nat),
        decreases exp,
    {
        let ghost acc0 = acc as int;
        let ghost b0 = base as int;
        let ghost e0 = exp as nat;
        if exp % 2 == 1 {
            acc = field_mul(acc, base);
            proof {
                // acc0 * (b0 * b0^(e0-1)) == (acc0 * b0) * b0^(e0-1)
                lemma_fmul_assoc(acc0, b0, pow_s(b0, (e0 - 1) as nat));
                lemma_pow_even(b0, (e0 / 2) as nat);
                assert((e0 - 1) as nat == (e0 / 2) as nat + (e0 / 2) as nat);
            }
        } else {
            proof {
                lemma_pow_even(b0, (e0 / 2) as nat);
                assert(e0 == (e0 / 2) as nat + (e0 / 2) as nat);
            }
        }
        base = field_mul(base, base);
        exp = exp / 2;
    }
    proof {
        lemma_fmul_one(acc as int);
    }
    acc
}

/// Attempts to invert a reduced field element via the Fermat candidate
/// a^(FIELD_MODULUS - 2), and reports whether the candidate really is an
/// inverse.  For nonzero elements of a prime field the candidate always
/// works, so in practice `None` is returned exactly for zero; the check
/// keeps the contract independent of that number-theoretic fact.
pub fn field_inv(a: u64) -> (r: Option<u64>)
    requires
        a < FIELD_MODULUS,
    ensures
        match r {
            Some(b) => b < FIELD_MODULUS && b as int == finv_s(a as int) && fmul_s(
                a as int,
                b as int,
            ) == 1,
            None => fmul_s(a as int, finv_s(a as int)) != 1,
        },
{
    let c = field_pow(a, FIELD_MODULUS - 2);
    if field_mul(a, c) == 1 {
        Some(c)
    } else {
        None
    }
}

} // verus!
