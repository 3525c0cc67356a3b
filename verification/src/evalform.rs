//! The evaluation-form prover: commits to a polynomial given directly by
//! its values on an evaluation domain.
//!
//! A Lagrange basis — the commitment of each Lagrange interpolation
//! polynomial of the domain, derived once per parameter set by an inverse
//! transform of the reference string — lets the prover commit by one
//! multi-scalar multiplication over the values, without materializing
//! coefficients.  The commitment equals the coefficient-form commitment of
//! the unique polynomial interpolating the values.  A witness for the value
//! at a domain index is derived through the inverse transform and the exact
//! division of the coefficient form, sharing the verified witness core of
//! the coefficient-form prover.

use vstd::prelude::*;
use crate::field::{FIELD_MODULUS, fmul_s, pow_s, field_pow, lemma_pow_range};
use crate::group::{G1, g1_add, g1_scale};
use crate::domain::{
    EvaluationDomain, is_pow2, fft_s, ifft_s, lemma_ifft_s_range, lemma_ifft_s_len,
    lemma_domain_round_trip, lemma_fft_evaluates, lemma_ifft_round_trip,
};
use crate::kzg::{
    KZGParams, KZGCommitment, KZGWitness, KZGError, dot_s, has_witness, witness_for_poly,
};
use crate::poly::{Polynomial, peval};

verus! {

/// The exponents of a sequence of group elements.
pub open spec fn g1_vals(s: Seq<G1>) -> Seq<u64> {
    Seq::new(s.len(), |i: int| s[i].v)
}

/// The first `n` exponents of the monomial basis of the parameters.
pub open spec fn srs_prefix(params: KZGParams, n: int) -> Seq<u64> {
    params.srs1().take(n)
}

/// The inverse root the interpolation of a domain uses.
pub open spec fn interp_wi(d: EvaluationDomain) -> int {
    pow_s(d.omega as int, (d.vals@.len() - 1) as nat)
}

/// The coefficients of the unique polynomial of degree below the domain
/// size that takes the domain's values at the domain points.
pub open spec fn interp_coeffs(d: EvaluationDomain) -> Seq<u64> {
    ifft_s(d.vals@, interp_wi(d))
}

/// A domain built from a coefficient sequence represents exactly that
/// polynomial: interpolation recovers the coefficients, and each stored
/// value is the polynomial's true evaluation at its domain point.  In
/// particular every index claim the evaluation-form prover makes is the
/// interpolated polynomial's true value there.
pub proof fn lemma_domain_represents(c: Seq<u64>, d: EvaluationDomain)
    requires
        d.wf(),
        c.len() == d.vals@.len(),
        forall|i: int| 0 <= i < c.len() ==> (#[trigger] c[i]) < FIELD_MODULUS,
        d.vals@ == fft_s(c, d.omega as int),
    ensures
        interp_coeffs(d) == c,
        forall|k: int|
            0 <= k < d.vals@.len() ==> (#[trigger] d.vals@[k]) as int == peval(
                c,
                pow_s(d.omega as int, k as nat),
            ),
{
    lemma_domain_round_trip(c, d.omega);
    lemma_fft_evaluates(c, d.omega as int);
}

/// Every well-formed domain is faithful: each stored value is the true
/// evaluation of the interpolated polynomial at its domain point.  This is
/// why evaluation-form witness claims have no mismatch failure mode.
pub proof fn lemma_domain_interpolates(d: EvaluationDomain)
    requires
        d.wf(),
    ensures
        forall|k: int|
            0 <= k < d.vals@.len() ==> (#[trigger] d.vals@[k]) as int == peval(
                interp_coeffs(d),
                pow_s(d.omega as int, k as nat),
            ),
{
    let n = d.vals@.len();
    if n == 0 {
        assert(!is_pow2(0));
    }
    let c = interp_coeffs(d);
    let wi = interp_wi(d);
    lemma_pow_range(d.omega as int, (n - 1) as nat);
    assert(fmul_s(d.omega as int, wi) == pow_s(d.omega as int, n));
    lemma_ifft_round_trip(d.vals@, d.omega as int, wi);
    lemma_ifft_s_range(d.vals@, wi);
    lemma_ifft_s_len(d.vals@, wi);
    lemma_fft_evaluates(c, d.omega as int);
}

/// The Lagrange-basis exponents for a domain of size `n` with root `omega`:
/// the inverse transform of the monomial reference string, so that entry
/// `i` is the commitment exponent of the `i`-th Lagrange polynomial.
pub open spec fn lagrange_vals(params: KZGParams, n: nat, omega: u64) -> Seq<u64> {
    ifft_s(srs_prefix(params, n as int), pow_s(omega as int, (n - 1) as nat))
}

/// Derives the Lagrange-basis commitment vector for the given domain from
/// the parameters: one group element per domain index, computed by an
/// inverse transform over the reference string.
pub fn compute_lagrange_basis(params: &KZGParams, domain: &EvaluationDomain) -> (r: Vec<G1>)
    requires
        params.wf(),
        domain.wf(),
        domain.size() <= params.gs@.len() + 1,
    ensures
        r@.len() == domain.size(),
        forall|i: int| 0 <= i < r@.len() ==> (#[trigger] r@[i]).wf(),
        g1_vals(r@) == lagrange_vals(*params, domain.vals@.len(), domain.omega),
{
    proof {
        if domain.vals@.len() == 0 {
            assert(!is_pow2(0));
        }
    }
    let n = domain.vals.len();
    let mut srs_vec: Vec<u64> = Vec::new();
    let mut i: usize = 0;
    while i < n
        invariant
            i <= n,
            n == domain.vals@.len(),
            n <= params.gs@.len() + 1,
            params.wf(),
            srs_vec@.len() == i as int,
            forall|j: int| 0 <= j < i ==> (#[trigger] srs_vec@[j]) == params.srs1()[j],
        decreases n - i,
    {
        if i == 0 {
            srs_vec.push(params.g.v);
        } else {
            srs_vec.push(params.gs[i - 1].v);
        }
        i += 1;
    }
    proof {
        assert(srs_vec@ =~= srs_prefix(*params, n as int));
        assert forall|j: int| 0 <= j < srs_vec@.len() implies (#[trigger] srs_vec@[j])
            < FIELD_MODULUS by {
            assert(srs_vec@[j] == params.srs1()[j]);
            if j > 0 {
                assert(params.gs@[j - 1].wf());
            }
        }
    }
    let wi = field_pow(domain.omega, (n - 1) as u64);
    let out = crate::domain::ifft_rec(srs_vec, wi);
    let ghost outv = out@;
    proof {
        lemma_ifft_s_range(srs_prefix(*params, n as int), wi as int);
        lemma_ifft_s_len(srs_prefix(*params, n as int), wi as int);
    }
    let mut r: Vec<G1> = Vec::new();
    let mut k: usize = 0;
    while k < n
        invariant
            k <= n,
            n == outv.len(),
            forall|j: int| 0 <= j < outv.len() ==> (#[trigger] outv[j]) < FIELD_MODULUS,
            out@ == outv,
            out@.len() == n,
            r@.len() == k as int,
            forall|j: int| 0 <= j < k ==> (#[trigger] r@[j]).v == outv[j] && r@[j].wf(),
        decreases n - k,
    {
        r.push(G1 { v: out[k] });
        k += 1;
    }
    proof {
        assert(g1_vals(r@) =~= outv);
    }
    r
}

/// The evaluation-form prover: the parameters, the domain's root and
/// Lagrange basis, and the last commitment.
pub struct KZGEvalFormProver {
    /// The public parameters the prover commits against.
    pub parameters: KZGParams,
    /// The root of unity of the fixed domain this prover serves.
    pub omega: u64,
    /// The Lagrange-basis commitment vector, one element per domain index.
    pub basis: Vec<G1>,
    /// The commitment produced by the last `commit`.
    pub commitment: Option<KZGCommitment>,
}

impl KZGEvalFormProver {
    /// A structurally valid evaluation-form prover: valid parameters, a
    /// power-of-two basis that fits them, a root of unity of the basis
    /// order, and a basis that really is the Lagrange basis.
    pub open spec fn wf(&self) -> bool {
        &&& self.parameters.wf()
        &&& is_pow2(self.basis@.len())
        &&& self.basis@.len() <= self.parameters.gs@.len() + 1
        &&& self.omega < FIELD_MODULUS
        &&& pow_s(self.omega as int, self.basis@.len()) == 1
        &&& (self.basis@.len() >= 2 ==> pow_s(self.omega as int, self.basis@.len() / 2) == (
        FIELD_MODULUS - 1) as int)
        &&& (forall|i: int| 0 <= i < self.basis@.len() ==> (#[trigger] self.basis@[i]).wf())
        &&& g1_vals(self.basis@) == lagrange_vals(
            self.parameters,
            self.basis@.len(),
            self.omega,
        )
    }

    /// Creates an evaluation-form prover for the given domain, deriving the
    /// Lagrange basis once.  Fails with `DomainTooLarge` when the domain
    /// has more points than the parameters support.
    pub fn new(parameters: KZGParams, domain: &EvaluationDomain) -> (r: Result<
        KZGEvalFormProver,
        KZGError,
    >)
        requires
            parameters.wf(),
            domain.wf(),
        ensures
            r is Ok <==> domain.size() <= parameters.gs@.len() + 1,
            r matches Err(e) ==> e == KZGError::DomainTooLarge,
            r matches Ok(p) ==> {
                &&& p.wf()
                &&& p.parameters == parameters
                &&& p.omega == domain.omega
                &&& p.basis@.len() == domain.size()
                &&& p.commitment is None
            },
    {
        if domain.vals.len() >= 1 && domain.vals.len() - 1 > parameters.gs.len() {
            return Err(KZGError::DomainTooLarge);
        }
        let basis = compute_lagrange_basis(&parameters, domain);
        Ok(KZGEvalFormProver { parameters, omega: domain.omega, basis, commitment: None })
    }

    /// Commits to the polynomial represented by the domain's values: one
    /// multi-scalar multiplication of the values against the Lagrange
    /// basis, with no coefficient recovery.
    pub fn commit(&mut self, domain: &EvaluationDomain) -> (r: KZGCommitment)
        requires
            old(self).wf(),
            domain.wf(),
            domain.size() == old(self).basis@.len(),
            domain.omega == old(self).omega,
        ensures
            final(self).wf(),
            final(self).parameters == old(self).parameters,
            final(self).omega == old(self).omega,
            final(self).basis == old(self).basis,
            final(self).commitment == Some(r),
            r.0.wf(),
            r.0.v as int == dot_s(domain.vals@, g1_vals(old(self).basis@)),
    {
        let c = basis_commit(&self.basis, &domain.vals);
        let com = KZGCommitment(c);
        self.commitment = Some(com);
        com
    }

    /// Creates a witness for the claim that the represented polynomial
    /// takes the domain's value at the given domain index.  Fails with
    /// `NoPolynomial` before any commit, and only then: the claimed point
    /// is the `index`-th domain point and the claimed value is taken from
    /// the domain itself, which is the interpolated polynomial's true value
    /// there, so the mismatch failure mode of the coefficient form cannot
    /// arise.
    pub fn create_witness(&mut self, domain: &EvaluationDomain, index: usize) -> (r: Result<
        KZGWitness,
        KZGError,
    >)
        requires
            old(self).wf(),
            domain.wf(),
            domain.size() == old(self).basis@.len(),
            domain.omega == old(self).omega,
            index < domain.size(),
        ensures
            *final(self) == *old(self),
            old(self).commitment is None <==> r == Err::<KZGWitness, KZGError>(
                KZGError::NoPolynomial,
            ),
            old(self).commitment is Some <==> r is Ok,
            r matches Ok(w) ==> w.0.wf() && has_witness(
                old(self).parameters,
                interp_coeffs(*domain),
                pow_s(old(self).omega as int, index as nat) as u64,
                domain.vals@[index as int],
                w.0.v,
            ),
    {
        match &self.commitment {
            None => Err(KZGError::NoPolynomial),
            Some(_) => {
                proof {
                    if domain.vals@.len() == 0 {
                        assert(!is_pow2(0));
                    }
                }
                let n = domain.vals.len();
                let coeffs = domain.to_coeffs();
                proof {
                    lemma_ifft_s_range(domain.vals@, interp_wi(*domain));
                    assert(coeffs@ == interp_coeffs(*domain));
                    lemma_domain_interpolates(*domain);
                }
                let p = Polynomial::new_from_coeffs(coeffs, n - 1);
                let xi = field_pow(self.omega, index as u64);
                proof {
                    lemma_pow_range(self.omega as int, index as nat);
                }
                let yi = domain.vals[index];
                witness_for_poly(&self.parameters, &p, xi, yi)
            },
        }
    }
}

/// Computes the multi-scalar multiplication of a value vector against a
/// basis of group elements.
fn basis_commit(basis: &Vec<G1>, scalars: &Vec<u64>) -> (r: G1)
    requires
        basis@.len() == scalars@.len(),
        forall|i: int| 0 <= i < basis@.len() ==> (#[trigger] basis@[i]).wf(),
        forall|i: int| 0 <= i < scalars@.len() ==> (#[trigger] scalars@[i]) < FIELD_MODULUS,
    ensures
        r.wf(),
        r.v as int == dot_s(scalars@, g1_vals(basis@)),
{
    let ghost bs = g1_vals(basis@);
    let mut acc = G1 { v: 0 };
    let mut i: usize = scalars.len();
    proof {
        assert(scalars@.skip(i as int) =~= Seq::<u64>::empty());
    }
    while i > 0
        invariant
            i <= scalars@.len(),
            basis@.len() == scalars@.len(),
            forall|j: int| 0 <= j < basis@.len() ==> (#[trigger] basis@[j]).wf(),
            forall|j: int| 0 <= j < scalars@.len() ==> (#[trigger] scalars@[j]) < FIELD_MODULUS,
            bs == g1_vals(basis@),
            acc.wf(),
            acc.v as int == dot_s(scalars@.skip(i as int), bs.skip(i as int)),
        decreases i,
    {
        let ghost prev_s = scalars@.skip(i as int);
        let ghost prev_b = bs.skip(i as int);
        i = i - 1;
        proof {
            assert(scalars@.skip(i as int).drop_first() =~= prev_s);
            assert(bs.skip(i as int).drop_first() =~= prev_b);
            assert(bs.skip(i as int)[0] == bs[i as int]);
            assert(basis@[i as int].v == bs[i as int]);
        }
        let term = g1_scale(scalars[i], basis[i]);
        acc = g1_add(term, acc);
    }
    proof {
        assert(scalars@.skip(0) =~= scalars@);
        assert(bs.skip(0) =~= bs);
    }
    acc
}

} // verus!
