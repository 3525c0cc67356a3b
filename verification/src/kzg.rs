//! The KZG commitment scheme: trusted setup, the coefficient-form prover,
//! and the verifier.
//!
//! The setup derives a structured reference string (SRS) from a secret
//! scalar; the secret is consumed and only the public powers leave the
//! function.  A prover commits to a polynomial by a multi-scalar
//! multiplication against the SRS, which evaluates the polynomial "in the
//! exponent" at the secret point.  A witness for a claimed evaluation is the
//! commitment of the quotient of `p - y` by `X - x`; the verifier checks one
//! pairing equation against it.

use vstd::prelude::*;
use crate::field::{
    FIELD_MODULUS, fadd_s, fsub_s, fmul_s, pow_s,
    field_mul, field_neg, field_sub,
    lemma_f_range, lemma_pow_range, lemma_fmul_assoc, lemma_fmul_comm, lemma_fmul_one,
    lemma_fmul_fadd_distrib, lemma_fmul_shuffle, lemma_fsub_eq_zero, lemma_one_invertible,
};
use crate::group::{G1, G2, g1_add, g1_sub, g1_scale, g2_sub, g2_scale, pairing};
use crate::poly::{
    Polynomial, peval, division_result_ok, sub_constant, lemma_peval_range, lemma_peval_all_zero,
    lemma_peval_high_zeros, lemma_peval_sub_constant, lemma_peval_linear,
};

verus! {

/// The public parameters (structured reference string) for a fixed maximum
/// degree: generators `g` and `h` and the powers `gs[i] = g^(alpha^(i+1))`,
/// `hs[i] = h^(alpha^(i+1))` of the secret scalar `alpha`.
pub struct KZGParams {
    /// The generator of the first group.
    pub g: G1,
    /// The generator of the second group.
    pub h: G2,
    /// `gs[i]` is `g` raised to the `(i+1)`-th power of the secret.
    pub gs: Vec<G1>,
    /// `hs[i]` is `h` raised to the `(i+1)`-th power of the secret.
    pub hs: Vec<G2>,
}

impl KZGParams {
    /// Structurally valid parameters: matching lengths and reduced elements.
    pub open spec fn wf(&self) -> bool {
        &&& self.g.wf()
        &&& self.h.wf()
        &&& self.gs@.len() == self.hs@.len()
        &&& self.gs@.len() >= 1
        &&& (forall|i: int| 0 <= i < self.gs@.len() ==> (#[trigger] self.gs@[i]).wf())
        &&& (forall|i: int| 0 <= i < self.hs@.len() ==> (#[trigger] self.hs@[i]).wf())
    }

    /// The maximum degree these parameters support.
    pub open spec fn max_degree(&self) -> int {
        self.gs@.len() as int
    }

    /// The exponents of the monomial basis in the first group:
    /// `[g, gs[0], gs[1], ...]`.
    pub open spec fn srs1(&self) -> Seq<u64> {
        Seq::new(
            self.gs@.len() + 1,
            |i: int|
                if i == 0 {
                    self.g.v
                } else {
                    self.gs@[i - 1].v
                },
        )
    }

    /// The parameters are exactly the ones `setup` derives from the secret
    /// `alpha`: unit generators and consecutive powers of `alpha`.
    pub open spec fn derived_from(&self, alpha: int) -> bool {
        &&& self.g.v == 1
        &&& self.h.v == 1
        &&& (forall|i: int|
            0 <= i < self.gs@.len() ==> (#[trigger] self.gs@[i]).v as int == pow_s(
                alpha,
                (i + 1) as nat,
            ))
        &&& (forall|i: int|
            0 <= i < self.hs@.len() ==> (#[trigger] self.hs@[i]).v as int == pow_s(
                alpha,
                (i + 1) as nat,
            ))
    }
}

/// Derives the public parameters from the secret scalar and the maximum
/// supported degree.  The secret is taken by value, used only to build the
/// powers, and dropped; nothing derived from it other than the public powers
/// is returned.
pub fn setup(secret: u64, max_degree: usize) -> (r: KZGParams)
    requires
        secret < FIELD_MODULUS,
        max_degree >= 1,
    ensures
        r.wf(),
        r.gs@.len() == max_degree,
        r.derived_from(secret as int),
{
    let mut gs: Vec<G1> = Vec::new();
    let mut hs: Vec<G2> = Vec::new();
    let mut power: u64 = 1;
    let mut i: usize = 0;
    while i < max_degree
        invariant
            secret < FIELD_MODULUS,
            gs@.len() == i as int,
            hs@.len() == i as int,
            i <= max_degree,
            power < FIELD_MODULUS,
            power as int == pow_s(secret as int, i as nat),
            forall|j: int|
                0 <= j < i ==> (#[trigger] gs@[j]).v as int == pow_s(secret as int, (j + 1) as nat),
            forall|j: int|
                0 <= j < i ==> (#[trigger] hs@[j]).v as int == pow_s(secret as int, (j + 1) as nat),
        decreases max_degree - i,
    {
        proof {
            lemma_fmul_comm(power as int, secret as int);
        }
        power = field_mul(power, secret);
        gs.push(G1 { v: power });
        hs.push(G2 { v: power });
        i += 1;
    }
    KZGParams { g: G1 { v: 1 }, h: G2 { v: 1 }, gs, hs }
}

/// The commitment: a single element of the first group.
#[derive(Clone, Copy, PartialEq, Eq, Structural, Debug)]
pub struct KZGCommitment(pub G1);

/// A witness for a single claimed evaluation: a single element of the first
/// group.
#[derive(Clone, Copy, PartialEq, Eq, Structural, Debug)]
pub struct KZGWitness(pub G1);

/// The failure conditions of the scheme.
#[derive(Clone, Copy, PartialEq, Eq, Structural, Debug)]
pub enum KZGError {
    /// `open` or `create_witness` was called before any `commit`.
    NoPolynomial,
    /// The claimed evaluation does not lie on the committed polynomial.
    PointNotOnPolynomial,
    /// A requested evaluation domain exceeds what the parameters or the
    /// field support.
    DomainTooLarge,
    /// The field has no root of unity of the requested order.
    NoRootOfUnity,
}

/// The field-exponent dot product of two sequences, truncated to the shorter
/// one: the mathematical value of a multi-scalar multiplication.
pub open spec fn dot_s(a: Seq<u64>, b: Seq<u64>) -> int
    decreases a.len(),
{
    if a.len() == 0 || b.len() == 0 {
        0
    } else {
        fadd_s(fmul_s(a[0] as int, b[0] as int), dot_s(a.drop_first(), b.drop_first()))
    }
}

/// Dotting a coefficient sequence against consecutive powers of `alpha`
/// starting at `alpha^k` yields `alpha^k` times the evaluation at `alpha`.
pub proof fn lemma_dot_powers(s: Seq<u64>, alpha: int, k: nat, ps: Seq<u64>)
    requires
        s.len() <= ps.len(),
        forall|i: int| 0 <= i < ps.len() ==> (#[trigger] ps[i]) as int == pow_s(alpha, k + i as nat),
    ensures
        dot_s(s, ps) == fmul_s(pow_s(alpha, k), peval(s, alpha)),
    decreases s.len(),
{
    if s.len() == 0 {
        assert(pow_s(alpha, k) * 0 == 0) by (nonlinear_arith);
        vstd::arithmetic::div_mod::lemma_small_mod(0nat, FIELD_MODULUS as nat);
    } else {
        let st = s.drop_first();
        let pt = ps.drop_first();
        assert forall|i: int| 0 <= i < pt.len() implies (#[trigger] pt[i]) as int == pow_s(
            alpha,
            (k + 1) + i as nat,
        ) by {
            assert(pt[i] == ps[i + 1]);
        }
        lemma_dot_powers(st, alpha, k + 1, pt);
        let pk = pow_s(alpha, k);
        let pv = peval(st, alpha);
        // dot == fadd(fmul(s0, pk), fmul(pow(k+1), pv))
        assert(ps[0] as int == pk);
        // goal: fmul(pk, fadd(s0, fmul(alpha, pv)))
        lemma_fmul_fadd_distrib(pk, s[0] as int, fmul_s(alpha, pv));
        lemma_fmul_comm(s[0] as int, pk);
        // pk * (alpha * pv) == (alpha * pk) * pv == pow(k+1) * pv
        lemma_fmul_shuffle(pk, alpha, pv);
        lemma_fmul_assoc(alpha, pk, pv);
        assert(pow_s(alpha, k + 1) == fmul_s(alpha, pk));
    }
}

/// Against parameters derived from `alpha`, a multi-scalar multiplication of
/// coefficients over the monomial basis is the evaluation at `alpha`.
pub proof fn lemma_dot_srs(s: Seq<u64>, params: KZGParams, alpha: int)
    requires
        params.wf(),
        params.derived_from(alpha),
        s.len() <= params.gs@.len() + 1,
    ensures
        dot_s(s, params.srs1()) == peval(s, alpha),
{
    let srs = params.srs1();
    assert forall|i: int| 0 <= i < srs.len() implies (#[trigger] srs[i]) as int == pow_s(
        alpha,
        0 + i as nat,
    ) by {
        if i == 0 {
        } else {
            assert(params.gs@[i - 1].v as int == pow_s(alpha, i as nat));
        }
    }
    lemma_dot_powers(s, alpha, 0, srs);
    lemma_peval_range(s, alpha);
    lemma_fmul_one(peval(s, alpha));
    lemma_fmul_comm(1, peval(s, alpha));
}

/// Computes the multi-scalar multiplication of a coefficient vector against
/// the monomial basis `[g, gs[0], gs[1], ...]` of the parameters.
fn srs_commit(params: &KZGParams, scalars: &Vec<u64>) -> (r: G1)
    requires
        params.wf(),
        scalars@.len() <= params.gs@.len() + 1,
        forall|i: int| 0 <= i < scalars@.len() ==> (#[trigger] scalars@[i]) < FIELD_MODULUS,
    ensures
        r.wf(),
        r.v as int == dot_s(scalars@, params.srs1()),
{
    let ghost srs = params.srs1();
    let mut acc = G1 { v: 0 };
    let mut i: usize = scalars.len();
    proof {
        assert(scalars@.skip(i as int) =~= Seq::<u64>::empty());
    }
    while i > 0
        invariant
            params.wf(),
            i <= scalars@.len(),
            scalars@.len() <= params.gs@.len() + 1,
            forall|j: int| 0 <= j < scalars@.len() ==> (#[trigger] scalars@[j]) < FIELD_MODULUS,
            srs == params.srs1(),
            acc.wf(),
            acc.v as int == dot_s(scalars@.skip(i as int), srs.skip(i as int)),
        decreases i,
    {
        let ghost prev_s = scalars@.skip(i as int);
        let ghost prev_b = srs.skip(i as int);
        i = i - 1;
        let base = if i == 0 {
            params.g
        } else {
            params.gs[i - 1]
        };
        proof {
            assert(scalars@.skip(i as int).drop_first() =~= prev_s);
            assert(srs.skip(i as int).drop_first() =~= prev_b);
            assert(srs.skip(i as int)[0] == srs[i as int]);
            assert(base.v == srs[i as int]);
        }
        let term = g1_scale(scalars[i], base);
        acc = g1_add(term, acc);
    }
    proof {
        assert(scalars@.skip(0) =~= scalars@);
        assert(srs.skip(0) =~= srs);
    }
    acc
}

/// The quotient certificate behind an accepted witness: `qs` is reduced, as
/// long as `p`, and reproduces `p - y` as `(X - x) * qs` at every point of
/// the field.
pub open spec fn quotient_ok(p: Seq<u64>, x: u64, y: u64, qs: Seq<u64>) -> bool {
    forall|t: int|
        0 <= t < FIELD_MODULUS ==> peval(sub_constant(p, y), t) == fmul_s(
            #[trigger] peval(qs, t),
            fsub_s(t, x as int),
        )
}

/// What `create_witness` promises of a returned witness value `wv`: it is
/// the multi-scalar multiplication of a quotient certificate for the claim
/// `(x, y)` against the polynomial `p`.
pub open spec fn witness_for(
    params: KZGParams,
    p: Seq<u64>,
    x: u64,
    y: u64,
    qs: Seq<u64>,
    wv: u64,
) -> bool {
    &&& qs.len() == p.len()
    &&& (forall|i: int| 0 <= i < qs.len() ==> (#[trigger] qs[i]) < FIELD_MODULUS)
    &&& quotient_ok(p, x, y, qs)
    &&& wv as int == dot_s(qs, params.srs1())
}

/// There is a quotient certificate behind the witness value `wv` for the
/// claim `(x, y)` against `p`.
pub open spec fn has_witness(params: KZGParams, p: Seq<u64>, x: u64, y: u64, wv: u64) -> bool {
    exists|qs: Seq<u64>| witness_for(params, p, x, y, qs, wv)
}

/// The pairing equation of the verifier:
/// `e(W, hs[0] - x h) == e(C - y g, h)`, stated on exponents.
pub open spec fn verify_eval_accepts(params: KZGParams, x: u64, y: u64, c: u64, w: u64) -> bool {
    fmul_s(w as int, fsub_s(params.hs@[0].v as int, fmul_s(x as int, params.h.v as int)))
        == fmul_s(fsub_s(c as int, fmul_s(y as int, params.g.v as int)), params.h.v as int)
}

/// The coefficient-form prover: owns the parameters, and after a `commit`
/// holds the committed polynomial and its commitment.
pub struct KZGProver {
    /// The public parameters the prover commits against.
    pub parameters: KZGParams,
    /// The committed polynomial, once `commit` has been called.
    pub polynomial: Option<Polynomial>,
    /// The commitment to the stored polynomial.
    pub commitment: Option<KZGCommitment>,
    /// An aggregated witness over a point set; built by batch opening, which
    /// is a caller-level aggregation policy, so `commit` only resets it.
    pub batch_witness: Option<G1>,
    /// A cache of per-index witnesses for repeated queries.  An entry is
    /// valid only for the currently committed polynomial, so `commit`
    /// clears the cache.
    pub witnesses: Vec<Option<G1>>,
}

impl KZGProver {
    /// A structurally valid prover: valid parameters, and any stored
    /// polynomial fits them.
    pub open spec fn wf(&self) -> bool {
        &&& self.parameters.wf()
        &&& match self.polynomial {
            None => true,
            Some(p) => p.wf() && p@.len() <= self.parameters.gs@.len() + 1,
        }
    }

    /// Creates a prover with no committed polynomial.
    pub fn new(parameters: KZGParams) -> (r: KZGProver)
        requires
            parameters.wf(),
        ensures
            r.wf(),
            r.parameters == parameters,
            r.polynomial is None,
            r.commitment is None,
            r.batch_witness is None,
            r.witnesses@.len() == 0,
    {
        KZGProver {
            parameters,
            polynomial: None,
            commitment: None,
            batch_witness: None,
            witnesses: Vec::new(),
        }
    }

    /// Commits to a polynomial: a multi-scalar multiplication of its
    /// coefficients against the monomial basis of the parameters.  The
    /// polynomial and commitment are stored, and any cached witnesses are
    /// invalidated.
    pub fn commit(&mut self, polynomial: Polynomial) -> (r: KZGCommitment)
        requires
            old(self).wf(),
            polynomial.wf(),
            polynomial@.len() <= old(self).parameters.gs@.len() + 1,
        ensures
            final(self).wf(),
            final(self).parameters == old(self).parameters,
            final(self).polynomial == Some(polynomial),
            final(self).commitment == Some(r),
            final(self).batch_witness is None,
            final(self).witnesses@.len() == 0,
            r.0.wf(),
            r.0.v as int == dot_s(polynomial@, old(self).parameters.srs1()),
    {
        let c = srs_commit(&self.parameters, &polynomial.coeffs);
        let com = KZGCommitment(c);
        self.polynomial = Some(polynomial);
        self.commitment = Some(com);
        self.batch_witness = None;
        self.witnesses = Vec::new();
        com
    }

    /// Returns a copy of the committed polynomial, or `NoPolynomial` if
    /// nothing has been committed yet.
    pub fn open(&self) -> (r: Result<Polynomial, KZGError>)
        ensures
            r is Ok <==> self.polynomial is Some,
            r matches Ok(p) ==> self.polynomial matches Some(q) && p@ == q@ && p.degree
                == q.degree,
            r matches Err(e) ==> e == KZGError::NoPolynomial,
    {
        match &self.polynomial {
            Some(p) => Ok(p.duplicate()),
            None => Err(KZGError::NoPolynomial),
        }
    }

    /// Creates a witness for the claim that the committed polynomial takes
    /// the value `point.1` at `point.0`.
    ///
    /// Fails with `NoPolynomial` before any commit.  Otherwise the claim is
    /// divided out: the witness exists exactly when the claimed value is the
    /// committed polynomial's value at the point, and a wrong claim fails
    /// with `PointNotOnPolynomial`; this is the polynomial remainder
    /// theorem, carried by the contract of `long_division`.
    pub fn create_witness(&mut self, point: (u64, u64)) -> (r: Result<KZGWitness, KZGError>)
        requires
            old(self).wf(),
            point.0 < FIELD_MODULUS,
            point.1 < FIELD_MODULUS,
        ensures
            *final(self) == *old(self),
            old(self).polynomial is None ==> r == Err::<KZGWitness, KZGError>(
                KZGError::NoPolynomial,
            ),
            old(self).polynomial matches Some(p) ==> (r is Ok <==> peval(p@, point.0 as int)
                == point.1 as int),
            old(self).polynomial is Some && r is Err ==> r == Err::<KZGWitness, KZGError>(
                KZGError::PointNotOnPolynomial,
            ),
            old(self).polynomial matches Some(p) ==> (r matches Ok(w) ==> w.0.wf()
                && has_witness(old(self).parameters, p@, point.0, point.1, w.0.v)),
    {
        let (x, y) = point;
        match &self.polynomial {
            None => Err(KZGError::NoPolynomial),
            Some(polynomial) => witness_for_poly(&self.parameters, polynomial, x, y),
        }
    }
}

/// Creates the witness for the claim that `polynomial` takes the value `y`
/// at `x`: divides `polynomial - y` by `X - x` and commits the quotient.
/// By the polynomial remainder theorem the division is exact precisely when
/// the claim is true; a wrong claim leaves a nonzero constant remainder and
/// fails with `PointNotOnPolynomial`.
pub(crate) fn witness_for_poly(
    params: &KZGParams,
    polynomial: &Polynomial,
    x: u64,
    y: u64,
) -> (r: Result<KZGWitness, KZGError>)
    requires
        params.wf(),
        polynomial.wf(),
        polynomial@.len() <= params.gs@.len() + 1,
        x < FIELD_MODULUS,
        y < FIELD_MODULUS,
    ensures
        r is Ok <==> peval(polynomial@, x as int) == y as int,
        r is Err ==> r == Err::<KZGWitness, KZGError>(KZGError::PointNotOnPolynomial),
        r matches Ok(w) ==> w.0.wf() && has_witness(*params, polynomial@, x, y, w.0.v),
{
    let mut dividend = polynomial.duplicate();
    let c0 = dividend.coeffs[0];
    dividend.coeffs[0] = field_sub(c0, y);
    proof {
        assert(dividend@ =~= sub_constant(polynomial@, y));
    }

    let mut dcoeffs: Vec<u64> = Vec::new();
    dcoeffs.push(field_neg(x));
    dcoeffs.push(1);
    let divisor = Polynomial::new_from_coeffs(dcoeffs, 1);

    let (psi, rem) = dividend.long_division(&divisor);
    let ghost rem_g = rem;
    proof {
        lemma_one_invertible();
        assert(division_result_ok(dividend@, psi@, divisor@, 1, rem_g));
    }
    match rem {
        Some(r) => {
            proof {
                assert(rem_g == Some(r));
                // the remainder is the constant r@[0], and it is the gap
                // between the claimed and actual value
                let xi = x as int;
                assert(peval(dividend@, xi) == fadd_s(
                    fmul_s(peval(psi@, xi), peval(divisor@, xi)),
                    peval(r@, xi),
                ));
                lemma_peval_linear(divisor@, x, xi);
                vstd::arithmetic::div_mod::lemma_small_mod(0nat, FIELD_MODULUS as nat);
                assert(fsub_s(xi, xi) == 0);
                assert(peval(psi@, xi) * 0 == 0) by (nonlinear_arith);
                assert(fmul_s(peval(psi@, xi), 0) == 0);
                lemma_peval_high_zeros(r@, 1, xi);
                assert(r@.take(1).drop_first() =~= Seq::<u64>::empty());
                assert(fmul_s(xi, 0) == 0) by {
                    assert(xi * 0 == 0) by (nonlinear_arith);
                }
                assert(r@.take(1)[0] == r@[0]);
                vstd::arithmetic::div_mod::lemma_small_mod(r@[0] as nat, FIELD_MODULUS as nat);
                assert(peval(Seq::<u64>::empty(), xi) == 0);
                assert(r@.take(1).len() == 1);
                assert(peval(r@.take(1), xi) == fadd_s(r@[0] as int, fmul_s(xi, 0)));
                assert(peval(r@, xi) == r@[0] as int);
                assert(exists|i: int| 0 <= i < 1 && r@[i] != 0);
                assert(r@[0] != 0);
                lemma_peval_sub_constant(polynomial@, y, xi);
                lemma_peval_range(polynomial@, xi);
                lemma_fsub_eq_zero(peval(polynomial@, xi), y as int);
            }
            Err(KZGError::PointNotOnPolynomial)
        },
        None => {
            let w = srs_commit(params, &psi.coeffs);
            proof {
                let xi = x as int;
                assert(peval(dividend@, xi) == fmul_s(peval(psi@, xi), peval(divisor@, xi)));
                lemma_peval_linear(divisor@, x, xi);
                vstd::arithmetic::div_mod::lemma_small_mod(0nat, FIELD_MODULUS as nat);
                assert(fsub_s(xi, xi) == 0);
                assert(peval(psi@, xi) * 0 == 0) by (nonlinear_arith);
                assert(fmul_s(peval(psi@, xi), 0) == 0);
                lemma_peval_sub_constant(polynomial@, y, xi);
                lemma_peval_range(polynomial@, xi);
                lemma_fsub_eq_zero(peval(polynomial@, xi), y as int);
                // the division identity holds at every point
                assert forall|t: int| 0 <= t < FIELD_MODULUS implies peval(
                    sub_constant(polynomial@, y),
                    t,
                ) == fmul_s(#[trigger] peval(psi@, t), fsub_s(t, x as int)) by {
                    assert(peval(dividend@, t) == fmul_s(peval(psi@, t), peval(divisor@, t)));
                    lemma_peval_linear(divisor@, x, t);
                }
                assert(witness_for(*params, polynomial@, x, y, psi@, w.v));
                assert(has_witness(*params, polynomial@, x, y, w.v));
                assert(w.wf());
            }
            Ok(KZGWitness(w))
        },
    }
}

/// The verifier: owns only the public parameters.
pub struct KZGVerifier {
    /// The public parameters the verifier checks against.
    pub parameters: KZGParams,
}

impl KZGVerifier {
    /// A structurally valid verifier.
    pub open spec fn wf(&self) -> bool {
        self.parameters.wf()
    }

    /// Creates a verifier for the given parameters.
    pub fn new(parameters: KZGParams) -> (r: KZGVerifier)
        requires
            parameters.wf(),
        ensures
            r.wf(),
            r.parameters == parameters,
    {
        KZGVerifier { parameters }
    }

    /// Full-reveal check: recomputes the commitment of the given polynomial
    /// and compares it with the claimed commitment.
    pub fn verify_poly(&self, commitment: KZGCommitment, polynomial: &Polynomial) -> (r: bool)
        requires
            self.wf(),
            polynomial.wf(),
            polynomial@.len() <= self.parameters.gs@.len() + 1,
        ensures
            r <==> commitment.0.v as int == dot_s(polynomial@, self.parameters.srs1()),
    {
        let c = srs_commit(&self.parameters, &polynomial.coeffs);
        c.v == commitment.0.v
    }

    /// Succinct check of one claimed evaluation: the pairing equation
    /// `e(W, hs[0] - x h) == e(C - y g, h)`.  A failed check is the normal
    /// `false` outcome, not an error.
    pub fn verify_eval(
        &self,
        point: (u64, u64),
        commitment: KZGCommitment,
        witness: KZGWitness,
    ) -> (r: bool)
        requires
            self.wf(),
            point.0 < FIELD_MODULUS,
            point.1 < FIELD_MODULUS,
            commitment.0.wf(),
            witness.0.wf(),
        ensures
            r <==> verify_eval_accepts(
                self.parameters,
                point.0,
                point.1,
                commitment.0.v,
                witness.0.v,
            ),
    {
        let (x, y) = point;
        let lhs = pairing(
            witness.0,
            g2_sub(self.parameters.hs[0], g2_scale(x, self.parameters.h)),
        );
        let rhs = pairing(
            g1_sub(commitment.0, g1_scale(y, self.parameters.g)),
            self.parameters.h,
        );
        lhs.v == rhs.v
    }
}

/// Commitment determinism: the commitment is a function of the parameters
/// and the coefficients alone, so committing the same polynomial twice under
/// the same parameters yields the same commitment value.
pub proof fn lemma_commit_deterministic(
    params1: KZGParams,
    params2: KZGParams,
    p1: Seq<u64>,
    p2: Seq<u64>,
)
    requires
        params1.srs1() == params2.srs1(),
        p1 == p2,
    ensures
        dot_s(p1, params1.srs1()) == dot_s(p2, params2.srs1()),
{
}

/// Witness soundness: against parameters derived from a secret `alpha`, a
/// commitment of `p`, and a witness carrying a quotient certificate for the
/// claim `(x, y)`, the verifier's pairing equation holds.  Together with the
/// contract of `create_witness` — which returns exactly such a witness
/// whenever `y` is `p`'s value at `x` — this states that honestly created
/// witnesses always verify.
pub proof fn lemma_witness_soundness(
    params: KZGParams,
    alpha: u64,
    p: Seq<u64>,
    x: u64,
    y: u64,
    qs: Seq<u64>,
    c: u64,
    w: u64,
)
    requires
        params.wf(),
        alpha < FIELD_MODULUS,
        params.derived_from(alpha as int),
        x < FIELD_MODULUS,
        y < FIELD_MODULUS,
        p.len() >= 1,
        p.len() <= params.gs@.len() + 1,
        qs.len() <= params.gs@.len() + 1,
        quotient_ok(p, x, y, qs),
        c as int == dot_s(p, params.srs1()),
        w as int == dot_s(qs, params.srs1()),
    ensures
        verify_eval_accepts(params, x, y, c, w),
{
    let ai = alpha as int;
    lemma_dot_srs(p, params, ai);
    lemma_dot_srs(qs, params, ai);
    // the quotient identity at the secret point
    assert(peval(sub_constant(p, y), ai) == fmul_s(peval(qs, ai), fsub_s(ai, x as int)));
    lemma_peval_sub_constant(p, y, ai);
    // hs[0] is alpha itself, and the unit generators drop out
    assert(params.hs@[0].v as int == pow_s(ai, 1nat));
    lemma_pow_range(ai, 0nat);
    vstd::arithmetic::div_mod::lemma_small_mod(alpha as nat, FIELD_MODULUS as nat);
    assert(pow_s(ai, 1nat) == fmul_s(ai, 1));
    lemma_fmul_one(ai);
    lemma_fmul_one(x as int);
    lemma_fmul_one(y as int);
    lemma_peval_range(p, ai);
    lemma_peval_range(qs, ai);
    lemma_f_range(c as int, y as int);
    lemma_fmul_one(fsub_s(c as int, y as int));
}

} // verus!
