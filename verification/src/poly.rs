//! Dense polynomials over the scalar field.
//!
//! A polynomial is an ordered vector of coefficients, index `i` holding the
//! coefficient of `x^i`, together with a declared degree; entries above the
//! declared degree are zero.  The module provides Horner evaluation and long
//! division by an arbitrary divisor, the two operations the commitment scheme
//! is built on.  Contracts are stated over `peval`, the mathematical
//! evaluation of a coefficient sequence at a point of the field.

use vstd::prelude::*;
use crate::field::{
    FIELD_MODULUS, fadd_s, fsub_s, fmul_s, pow_s, f_reduced, f_invertible, finv_s,
    field_add, field_sub, field_mul, field_inv,
    lemma_f_range, lemma_pow_range, lemma_fmul_assoc, lemma_fmul_comm, lemma_fmul_one,
    lemma_reduce_ops, lemma_fadd_assoc, lemma_fmul_fadd_distrib, lemma_fmul_fsub_distrib,
    lemma_fadd_fsub_mix, lemma_fadd_fsub_rearrange, lemma_fadd_cancel, lemma_fmul_shuffle,
};

verus! {

/// Evaluation of a coefficient sequence at the point `x`, low coefficient
/// first: `s[0] + x * (s[1] + x * (...))`, all in the field.
pub open spec fn peval(s: Seq<u64>, x: int) -> int
    decreases s.len(),
{
    if s.len() == 0 {
        0
    } else {
        fadd_s(s[0] as int, fmul_s(x, peval(s.drop_first(), x)))
    }
}

/// An evaluation is a reduced field element.
pub proof fn lemma_peval_range(s: Seq<u64>, x: int)
    ensures
        f_reduced(peval(s, x)),
    decreases s.len(),
{
    if s.len() == 0 {
    } else {
        lemma_peval_range(s.drop_first(), x);
        lemma_f_range(s[0] as int, fmul_s(x, peval(s.drop_first(), x)));
    }
}

/// A sequence of zero coefficients evaluates to zero.
pub proof fn lemma_peval_all_zero(s: Seq<u64>, x: int)
    requires
        forall|i: int| 0 <= i < s.len() ==> s[i] == 0,
    ensures
        peval(s, x) == 0,
    decreases s.len(),
{
    if s.len() == 0 {
    } else {
        lemma_peval_all_zero(s.drop_first(), x);
        assert(x * 0 == 0) by (nonlinear_arith);
        vstd::arithmetic::div_mod::lemma_small_mod(0nat, FIELD_MODULUS as nat);
    }
}

/// Zero coefficients above an index do not affect the evaluation.
pub proof fn lemma_peval_high_zeros(s: Seq<u64>, k: int, x: int)
    requires
        0 <= k <= s.len(),
        forall|i: int| k <= i < s.len() ==> s[i] == 0,
    ensures
        peval(s, x) == peval(s.take(k), x),
    decreases s.len(),
{
    if s.len() == 0 {
        assert(s.take(k) =~= s);
    } else if k == 0 {
        lemma_peval_all_zero(s, x);
        assert(s.take(0) =~= Seq::<u64>::empty());
    } else {
        lemma_peval_high_zeros(s.drop_first(), k - 1, x);
        assert(s.take(k).drop_first() =~= s.drop_first().take(k - 1));
        assert(s.take(k)[0] == s[0]);
    }
}

/// Writing a value over a zero coefficient adds the corresponding monomial
/// term to the evaluation.
pub proof fn lemma_peval_update(s: Seq<u64>, j: int, v: u64, x: int)
    requires
        0 <= j < s.len(),
        s[j] == 0,
        v < FIELD_MODULUS,
    ensures
        peval(s.update(j, v), x) == fadd_s(peval(s, x), fmul_s(v as int, pow_s(x, j as nat))),
    decreases s.len(),
{
    let m = FIELD_MODULUS as int;
    let t = s.drop_first();
    if j == 0 {
        assert(s.update(0, v).drop_first() =~= t);
        lemma_peval_range(t, x);
        lemma_f_range(x, peval(t, x));
        lemma_fmul_one(v as int);
        // peval(s, x) == fadd_s(0, fmul_s(x, peval(t, x))) == fmul_s(x, peval(t, x))
        vstd::arithmetic::div_mod::lemma_small_mod(
            fmul_s(x, peval(t, x)) as nat,
            FIELD_MODULUS as nat,
        );
    } else {
        assert(s.update(j, v).drop_first() =~= t.update(j - 1, v));
        lemma_peval_update(t, j - 1, v, x);
        let pt = peval(t, x);
        let w = fmul_s(v as int, pow_s(x, (j - 1) as nat));
        // peval of the updated tail is fadd_s(pt, w)
        lemma_fmul_fadd_distrib(x, pt, w);
        // x * (v * x^(j-1)) == v * (x * x^(j-1)) == v * x^j
        lemma_fmul_shuffle(x, v as int, pow_s(x, (j - 1) as nat));
        lemma_fadd_assoc(s[0] as int, fmul_s(x, pt), fmul_s(v as int, pow_s(x, j as nat)));
    }
}

/// Subtracting `t` times the divisor, shifted up by `sh`, from a coefficient
/// window lowers the evaluation by `t * x^sh` times the divisor's evaluation.
pub proof fn lemma_peval_sub_scaled(a: Seq<u64>, b: Seq<u64>, d: Seq<u64>, t: u64, sh: int, x: int)
    requires
        a.len() == b.len(),
        0 <= sh,
        sh + d.len() <= a.len(),
        t < FIELD_MODULUS,
        forall|i: int|
            0 <= i < a.len() ==> b[i] as int == (if sh <= i < sh + d.len() {
                fsub_s(a[i] as int, fmul_s(t as int, d[i - sh] as int))
            } else {
                a[i] as int
            }),
    ensures
        peval(b, x) == fsub_s(peval(a, x), fmul_s(fmul_s(t as int, pow_s(x, sh as nat)), peval(d, x))),
    decreases a.len() + d.len(),
{
    let m = FIELD_MODULUS as int;
    let pa = peval(a, x);
    let pd = peval(d, x);
    if d.len() == 0 {
        assert(b =~= a);
        assert(fmul_s(t as int, pow_s(x, sh as nat)) * 0 == 0) by (nonlinear_arith);
        vstd::arithmetic::div_mod::lemma_small_mod(0nat, FIELD_MODULUS as nat);
        lemma_peval_range(a, x);
        lemma_reduce_ops(pa, 0);
        vstd::arithmetic::div_mod::lemma_small_mod(pa as nat, FIELD_MODULUS as nat);
    } else if sh == 0 {
        // heads: b[0] == fsub_s(a[0], fmul_s(t, d[0])); recurse on all three tails
        let at = a.drop_first();
        let bt = b.drop_first();
        let dt = d.drop_first();
        assert forall|i: int| 0 <= i < at.len() implies bt[i] as int == (if 0 <= i < dt.len() {
            fsub_s(at[i] as int, fmul_s(t as int, dt[i] as int))
        } else {
            at[i] as int
        }) by {
            assert(bt[i] == b[i + 1]);
        }
        lemma_peval_sub_scaled(at, bt, dt, t, 0, x);
        let pat = peval(at, x);
        let pdt = peval(dt, x);
        lemma_fmul_one(t as int);
        // peval(b) == fadd(fsub(a0, t*d0), fmul(x, fsub(pat, t*pdt)))
        lemma_fmul_fsub_distrib(x, pat, fmul_s(t as int, pdt));
        lemma_fmul_shuffle(x, t as int, pdt);
        lemma_fadd_fsub_rearrange(a[0] as int, fmul_s(t as int, d[0] as int), fmul_s(x, pat),
            fmul_s(t as int, fmul_s(x, pdt)));
        // t*d0 + t*(x*pdt) == t * (d0 + x*pdt) == t * pd
        lemma_fmul_fadd_distrib(t as int, d[0] as int, fmul_s(x, pdt));
    } else {
        // head unchanged; recurse on the tails with the window shifted down
        let at = a.drop_first();
        let bt = b.drop_first();
        assert forall|i: int| 0 <= i < at.len() implies bt[i] as int == (if sh - 1 <= i < sh - 1
            + d.len() {
            fsub_s(at[i] as int, fmul_s(t as int, d[i - (sh - 1)] as int))
        } else {
            at[i] as int
        }) by {
            assert(bt[i] == b[i + 1]);
        }
        lemma_peval_sub_scaled(at, bt, d, t, sh - 1, x);
        let pat = peval(at, x);
        let w1 = fmul_s(t as int, pow_s(x, (sh - 1) as nat));
        // peval(b) == fadd(a0, fmul(x, fsub(pat, fmul(w1, pd))))
        lemma_fmul_fsub_distrib(x, pat, fmul_s(w1, pd));
        // x * (w1 * pd) == (t * x^sh) * pd
        lemma_fmul_shuffle(x, w1, pd);
        lemma_fmul_assoc(x, fmul_s(t as int, pow_s(x, (sh - 1) as nat)), pd);
        lemma_fmul_shuffle(x, t as int, pow_s(x, (sh - 1) as nat));
        assert(fmul_s(x, w1) == fmul_s(t as int, pow_s(x, sh as nat)));
        lemma_fadd_fsub_mix(
            a[0] as int,
            fmul_s(x, pat),
            fmul_s(fmul_s(t as int, pow_s(x, sh as nat)), pd),
        );
    }
}

/// The coefficient sequence of `p` with `y` subtracted from the constant
/// term: the dividend used when opening `p` at a point claimed to equal `y`.
pub open spec fn sub_constant(p: Seq<u64>, y: u64) -> Seq<u64> {
    p.update(0, fsub_s(p[0] as int, y as int) as u64)
}

/// Subtracting `y` from the constant term lowers every evaluation by `y`.
pub proof fn lemma_peval_sub_constant(p: Seq<u64>, y: u64, t: int)
    requires
        p.len() >= 1,
    ensures
        peval(sub_constant(p, y), t) == fsub_s(peval(p, t), y as int),
{
    let d = sub_constant(p, y);
    assert(d.drop_first() =~= p.drop_first());
    lemma_f_range(p[0] as int, y as int);
    let b = fmul_s(t, peval(p.drop_first(), t));
    // fadd(fsub(p0, y), b) == fsub(fadd(p0, b), y)
    lemma_fadd_fsub_mix(b, p[0] as int, y as int);
    lemma_reduce_ops(p[0] as int - y as int, b);
}

/// The linear polynomial with coefficients `[-x, 1]` evaluates at `t` to
/// `t - x`.
pub proof fn lemma_peval_linear(s: Seq<u64>, x: u64, t: int)
    requires
        s.len() == 2,
        s[0] as int == crate::field::fneg_s(x as int),
        s[1] == 1,
        x < FIELD_MODULUS,
        0 <= t < FIELD_MODULUS,
    ensures
        peval(s, t) == fsub_s(t, x as int),
{
    let tail = s.drop_first();
    assert(tail.len() == 1 && tail[0] == 1);
    assert(tail.drop_first() =~= Seq::<u64>::empty());
    assert(t * 0 == 0) by (nonlinear_arith);
    vstd::arithmetic::div_mod::lemma_small_mod(0nat, FIELD_MODULUS as nat);
    vstd::arithmetic::div_mod::lemma_small_mod(1nat, FIELD_MODULUS as nat);
    assert(peval(Seq::<u64>::empty(), t) == 0);
    assert(fmul_s(t, 0) == 0);
    // peval(tail, t) == fadd_s(1, 0) == 1
    assert(peval(tail, t) == 1);
    lemma_fmul_one(t);
    // peval(s, t) == fadd_s(fneg_s(x), t)
    lemma_reduce_ops(0 - x as int, t);
}

/// A dense polynomial: coefficients low-to-high and a declared degree.
/// Entries above the declared degree are zero.
#[derive(Debug)]
pub struct Polynomial {
    /// Coefficient `i` is the coefficient of `x^i`.
    pub coeffs: Vec<u64>,
    /// The declared degree; coefficients above it are zero.
    pub degree: usize,
}

impl View for Polynomial {
    type V = Seq<u64>;

    open spec fn view(&self) -> Seq<u64> {
        self.coeffs@
    }
}

/// The quotient and divisor reproduce the dividend everywhere: an exact
/// division.
pub open spec fn div_exact(orig: Seq<u64>, q: Seq<u64>, d: Seq<u64>) -> bool {
    forall|x: int|
        0 <= x < FIELD_MODULUS ==> #[trigger] peval(orig, x) == fmul_s(peval(q, x), peval(d, x))
}

/// The quotient, divisor and remainder reproduce the dividend everywhere.
pub open spec fn div_with_rem(orig: Seq<u64>, q: Seq<u64>, d: Seq<u64>, r: Seq<u64>) -> bool {
    forall|x: int|
        0 <= x < FIELD_MODULUS ==> #[trigger] peval(orig, x) == fadd_s(
            fmul_s(peval(q, x), peval(d, x)),
            peval(r, x),
        )
}

/// What a long division of `orig` by `d` (of declared degree `dd`) returns:
/// either no remainder and an exact product identity, or a nonzero
/// remainder of degree below `dd` completing the identity.
pub open spec fn division_result_ok(
    orig: Seq<u64>,
    q: Seq<u64>,
    d: Seq<u64>,
    dd: int,
    rem: Option<Polynomial>,
) -> bool {
    match rem {
        None => div_exact(orig, q, d),
        Some(r) => {
            &&& r.wf()
            &&& r@.len() == orig.len()
            &&& (forall|i: int| dd <= i < r@.len() ==> (#[trigger] r@[i]) == 0)
            &&& (exists|i: int| 0 <= i < dd && r@[i] != 0)
            &&& div_with_rem(orig, q, d, r@)
        },
    }
}

/// Packaging lemma: the pieces of a division outcome with remainder imply
/// the outcome predicate.
proof fn lemma_division_result_some(orig: Seq<u64>, q: Seq<u64>, d: Seq<u64>, dd: int, r: Polynomial)
    requires
        r.wf(),
        r@.len() == orig.len(),
        forall|i: int| dd <= i < r@.len() ==> (#[trigger] r@[i]) == 0,
        exists|i: int| 0 <= i < dd && r@[i] != 0,
        div_with_rem(orig, q, d, r@),
    ensures
        division_result_ok(orig, q, d, dd, Some(r)),
{
}

impl Polynomial {
    /// A structurally valid polynomial: at least one coefficient, the declared
    /// degree inside the vector, every coefficient reduced, and zeros above
    /// the declared degree.
    pub open spec fn wf(&self) -> bool {
        &&& self.coeffs.len() >= 1
        &&& (self.degree as int) < self.coeffs@.len()
        &&& (forall|i: int| 0 <= i < self.coeffs@.len() ==> (#[trigger] self.coeffs@[i]) < FIELD_MODULUS)
        &&& (forall|i: int|
            self.degree < i < self.coeffs@.len() ==> (#[trigger] self.coeffs@[i]) == 0)
    }

    /// Builds a polynomial from its coefficient vector and declared degree.
    pub fn new_from_coeffs(coeffs: Vec<u64>, degree: usize) -> (r: Polynomial)
        requires
            (degree as int) < coeffs@.len(),
            forall|i: int| 0 <= i < coeffs@.len() ==> (#[trigger] coeffs@[i]) < FIELD_MODULUS,
            forall|i: int| degree < i < coeffs@.len() ==> (#[trigger] coeffs@[i]) == 0,
        ensures
            r.wf(),
            r@ == coeffs@,
            r.degree == degree,
    {
        Polynomial { coeffs, degree }
    }

    /// Returns a copy of this polynomial.
    pub fn duplicate(&self) -> (r: Polynomial)
        ensures
            r@ == self@,
            r.degree == self.degree,
            r.wf() == self.wf(),
    {
        let mut c: Vec<u64> = Vec::new();
        let mut i: usize = 0;
        while i < self.coeffs.len()
            invariant
                i <= self.coeffs.len(),
                c@ =~= self.coeffs@.take(i as int),
            decreases self.coeffs.len() - i,
        {
            c.push(self.coeffs[i]);
            i += 1;
        }
        proof {
            assert(c@ =~= self.coeffs@);
        }
        Polynomial { coeffs: c, degree: self.degree }
    }

    /// Evaluates the polynomial at `x` by Horner's method.
    pub fn eval(&self, x: u64) -> (r: u64)
        requires
            self.wf(),
            x < FIELD_MODULUS,
        ensures
            r < FIELD_MODULUS,
            r as int == peval(self@, x as int),
    {
        let mut r: u64 = 0;
        let mut i: usize = self.coeffs.len();
        proof {
            assert(self@.skip(i as int) =~= Seq::<u64>::empty());
        }
        while i > 0
            invariant
                i <= self.coeffs.len(),
                self.wf(),
                x < FIELD_MODULUS,
                r < FIELD_MODULUS,
                r as int == peval(self@.skip(i as int), x as int),
            decreases i,
        {
            let ghost prev = self@.skip(i as int);
            i = i - 1;
            proof {
                assert(self@.skip(i as int).drop_first() =~= prev);
                lemma_fmul_comm(r as int, x as int);
            }
            r = field_add(field_mul(r, x), self.coeffs[i]);
        }
        proof {
            assert(self@.skip(0) =~= self@);
        }
        r
    }

    /// Polynomial long division.  Returns a quotient and, when the division
    /// is not exact, the nonzero remainder; `None` means the divisor divides
    /// this polynomial exactly.  The contract characterizes the outcome by
    /// evaluation everywhere in the field, which is what the polynomial
    /// remainder theorem needs: division of `p - y` by `X - x` is exact
    /// exactly when `p(x) == y`.
    ///
    /// The divisor's leading coefficient must be nonzero; the quotient steps
    /// divide by it through the Fermat inverse candidate, so the strong
    /// clauses hold under `f_invertible` of that coefficient — true of every
    /// nonzero element of the prime field, and trivially provable for a monic
    /// divisor.
    #[verifier::rlimit(100)]
    pub fn long_division(&self, divisor: &Polynomial) -> (res: (Polynomial, Option<Polynomial>))
        requires
            self.wf(),
            divisor.wf(),
            divisor@[divisor.degree as int] != 0,
        ensures
            res.0.wf(),
            res.0@.len() == self@.len(),
            res.0.degree == (if self.degree >= divisor.degree {
                self.degree - divisor.degree
            } else {
                0
            }),
            f_invertible(divisor@[divisor.degree as int] as int) ==> division_result_ok(
                self@,
                res.0@,
                divisor@,
                divisor.degree as int,
                res.1,
            ),
    {
        let n = self.coeffs.len();
        let dd = divisor.degree;
        let lc = divisor.coeffs[dd];
        let qdeg = if self.degree >= dd {
            self.degree - dd
        } else {
            0
        };
        let mut q: Vec<u64> = Vec::new();
        let mut k: usize = 0;
        while k < n
            invariant
                q@.len() == k as int,
                k <= n,
                forall|i: int| 0 <= i < k ==> (#[trigger] q@[i]) == 0,
            decreases n - k,
        {
            q.push(0);
            k += 1;
        }

        let lc_inv = match field_inv(lc) {
            None => {
                let qp = Polynomial { coeffs: q, degree: qdeg };
                return (qp, Some(self.duplicate()));
            },
            Some(v) => v,
        };

        let rem_start = self.duplicate();
        let mut rem = rem_start.coeffs;
        let ghost dtr = divisor@.take(dd as int + 1);

        proof {
            assert forall|x: int| 0 <= x < FIELD_MODULUS implies #[trigger] peval(self@, x)
                == fadd_s(fmul_s(peval(q@, x), peval(divisor@, x)), peval(rem@, x)) by {
                lemma_peval_all_zero(q@, x);
                let dv = peval(divisor@, x);
                assert(0 * dv == 0) by (nonlinear_arith);
                vstd::arithmetic::div_mod::lemma_small_mod(0nat, FIELD_MODULUS as nat);
                lemma_peval_range(rem@, x);
                vstd::arithmetic::div_mod::lemma_small_mod(
                    peval(rem@, x) as nat,
                    FIELD_MODULUS as nat,
                );
            }
        }

        let mut pos: usize = self.degree + 1;
        while pos > dd
            invariant
                n == self@.len(),
                rem@.len() == n,
                q@.len() == n,
                self.wf(),
                divisor.wf(),
                dd == divisor.degree,
                lc == divisor@[dd as int],
                dtr == divisor@.take(dd as int + 1),
                pos <= self.degree + 1,
                (self.degree as int) < n,
                lc_inv < FIELD_MODULUS,
                fmul_s(lc as int, lc_inv as int) == 1,
                forall|i: int| 0 <= i < n ==> (#[trigger] rem@[i]) < FIELD_MODULUS,
                forall|i: int| 0 <= i < n ==> (#[trigger] q@[i]) < FIELD_MODULUS,
                forall|i: int| pos <= i < n ==> (#[trigger] rem@[i]) == 0,
                forall|i: int|
                    0 <= i < n && (i + dd < pos || i + dd > self.degree) ==> (#[trigger] q@[i])
                        == 0,
                forall|x: int|
                    0 <= x < FIELD_MODULUS ==> #[trigger] peval(self@, x) == fadd_s(
                        fmul_s(peval(q@, x), peval(divisor@, x)),
                        peval(rem@, x),
                    ),
            decreases pos,
        {
            let p = pos - 1;
            let t = field_mul(rem[p], lc_inv);
            let ghost q_old = q@;
            let ghost rem_old = rem@;
            q[p - dd] = t;
            let mut j: usize = 0;
            while j <= dd
                invariant
                    rem@.len() == n,
                    j <= dd + 1,
                    dd <= p < n,
                    divisor.wf(),
                    dd == divisor.degree,
                    dtr == divisor@.take(dd as int + 1),
                    t < FIELD_MODULUS,
                    forall|i: int| 0 <= i < n ==> (#[trigger] rem@[i]) < FIELD_MODULUS,
                    forall|i: int|
                        0 <= i < n ==> (#[trigger] rem@[i]) as int == (if p - dd <= i < p - dd
                            + j {
                            fsub_s(rem_old[i] as int, fmul_s(t as int, dtr[i - (p - dd)] as int))
                        } else {
                            rem_old[i] as int
                        }),
                decreases dd + 1 - j,
            {
                let idx = p - dd + j;
                let sub = field_mul(t, divisor.coeffs[j]);
                let cur = rem[idx];
                rem[idx] = field_sub(cur, sub);
                j += 1;
            }
            proof {
                // the head of the processed window is now zero
                assert(rem@[p as int] as int == fsub_s(
                    rem_old[p as int] as int,
                    fmul_s(t as int, lc as int),
                ));
                let r0 = rem_old[p as int] as int;
                lemma_fmul_assoc(r0, lc_inv as int, lc as int);
                lemma_fmul_comm(lc_inv as int, lc as int);
                lemma_fmul_one(r0);
                assert(fmul_s(t as int, lc as int) == r0);
                assert(rem@[p as int] == 0);
                // the division identity is preserved
                assert forall|x: int| 0 <= x < FIELD_MODULUS implies #[trigger] peval(self@, x)
                    == fadd_s(fmul_s(peval(q@, x), peval(divisor@, x)), peval(rem@, x)) by {
                    lemma_peval_update(q_old, p - dd, t, x);
                    lemma_peval_sub_scaled(rem_old, rem@, dtr, t, p - dd, x);
                    lemma_peval_high_zeros(divisor@, dd as int + 1, x);
                    let qv = peval(q_old, x);
                    let dv = peval(divisor@, x);
                    let rv = peval(rem_old, x);
                    let tv = fmul_s(t as int, pow_s(x, (p - dd) as nat));
                    lemma_fmul_fadd_distrib(dv, qv, tv);
                    lemma_fadd_cancel(fmul_s(qv, dv), fmul_s(tv, dv), rv);
                }
            }
            pos = p;
        }

        // every coefficient of the remainder at or above the divisor degree is zero
        let lim = if dd < n {
            dd
        } else {
            n
        };
        let mut i2: usize = 0;
        let mut any = false;
        let ghost mut wit: int = 0;
        while i2 < lim
            invariant
                i2 <= lim,
                lim <= n,
                rem@.len() == n,
                any ==> 0 <= wit < i2 && rem@[wit] != 0,
                !any ==> forall|i: int| 0 <= i < i2 ==> (#[trigger] rem@[i]) == 0,
            decreases lim - i2,
        {
            if rem[i2] != 0 {
                any = true;
                proof {
                    wit = i2 as int;
                }
            }
            i2 += 1;
        }

        let qp = Polynomial { coeffs: q, degree: qdeg };
        if any {
            proof {
                assert(0 <= wit < divisor.degree && rem@[wit] != 0);
                assert(exists|i: int| 0 <= i < divisor.degree && rem@[i] != 0);
            }
            let rdeg = if dd - 1 < n {
                dd - 1
            } else {
                n - 1
            };
            let rp = Polynomial { coeffs: rem, degree: rdeg };
            proof {
                assert(rp.wf());
                assert(rp@.len() == self@.len());
                assert(forall|i: int| dd <= i < rp@.len() ==> (#[trigger] rp@[i]) == 0);
                assert(exists|i: int| 0 <= i < dd && rp@[i] != 0);
                assert(div_with_rem(self@, qp@, divisor@, rp@));
                lemma_division_result_some(self@, qp@, divisor@, dd as int, rp);
            }
            (qp, Some(rp))
        } else {
            proof {
                assert forall|x: int| 0 <= x < FIELD_MODULUS implies #[trigger] peval(self@, x)
                    == fmul_s(peval(qp@, x), peval(divisor@, x)) by {
                    lemma_peval_all_zero(rem@, x);
                    let prod = fmul_s(peval(qp@, x), peval(divisor@, x));
                    lemma_f_range(peval(qp@, x), peval(divisor@, x));
                    vstd::arithmetic::div_mod::lemma_small_mod(prod as nat, FIELD_MODULUS as nat);
                }
                assert(division_result_ok(self@, qp@, divisor@, dd as int, None::<Polynomial>));
            }
            (qp, None)
        }
    }
}

} // verus!
