//! The evaluation domain: power-of-two sets of roots of unity, with exact
//! forward and inverse transforms between coefficient form and
//! value-on-domain form.
//!
//! The forward transform is the standard radix-2 decimation-in-time
//! butterfly network, implemented recursively: split into even and odd
//! coefficients, transform both halves with the squared root of unity, and
//! combine with `e[k] +/- w^k o[k]`.  The inverse runs the same structure
//! backwards, halving each butterfly and stepping by the inverse root, so
//! the two transforms invert each other exactly — the field is finite and
//! every step is exact.

use vstd::prelude::*;
use crate::field::{
    FIELD_MODULUS, TWO_INV, GENERATOR, fadd_s, fsub_s, fmul_s, fneg_s, pow_s, f_reduced,
    field_add, field_sub, field_mul, field_pow,
    lemma_f_range, lemma_pow_range, lemma_fmul_assoc, lemma_fmul_comm, lemma_fmul_one,
    lemma_reduce_ops, lemma_pow_one_base, lemma_pow_mul_base, lemma_pow_add, lemma_pow_even,
    lemma_fmul_fadd_distrib, lemma_fadd4, lemma_fneg_mul, lemma_fadd_mul_neg,
};
use crate::kzg::KZGError;
use crate::poly::{peval, lemma_peval_range};

verus! {

/// The largest supported domain size: the full two-power order of the
/// field's multiplicative group.
pub const MAX_DOMAIN_SIZE: usize = 134217728;

/// True of the nonzero powers of two.
pub open spec fn is_pow2(n: nat) -> bool
    decreases n,
{
    if n == 0 {
        false
    } else if n == 1 {
        true
    } else {
        n % 2 == 0 && is_pow2(n / 2)
    }
}

/// The smallest power of two at least `len`, reached by doubling from `c`.
pub open spec fn next_pow2_from(c: nat, len: nat) -> nat
    decreases 2 * len - c,
{
    if c == 0 {
        0
    } else if c >= len {
        c
    } else {
        next_pow2_from(c + c, len)
    }
}

/// The smallest power of two at least `len` (and at least one).
pub open spec fn next_pow2(len: nat) -> nat {
    next_pow2_from(1, len)
}

/// The even-index entries of a sequence.
pub open spec fn evens(s: Seq<u64>) -> Seq<u64> {
    Seq::new((s.len() + 1) / 2, |i: int| s[2 * i])
}

/// The odd-index entries of a sequence.
pub open spec fn odds(s: Seq<u64>) -> Seq<u64> {
    Seq::new(s.len() / 2, |i: int| s[2 * i + 1])
}

/// The radix-2 forward transform of a coefficient sequence by the root of
/// unity `w`: entry `k` is the evaluation at `w^k` when `w` has the right
/// order.
pub open spec fn fft_s(s: Seq<u64>, w: int) -> Seq<u64>
    decreases s.len(),
{
    if s.len() <= 1 {
        s
    } else {
        let h = s.len() / 2;
        let e = fft_s(evens(s), fmul_s(w, w));
        let o = fft_s(odds(s), fmul_s(w, w));
        Seq::new(
            s.len(),
            |k: int|
                if k < h {
                    fadd_s(e[k] as int, fmul_s(pow_s(w, k as nat), o[k] as int)) as u64
                } else {
                    fsub_s(e[k - h] as int, fmul_s(pow_s(w, (k - h) as nat), o[k - h] as int)) as u64
                },
        )
    }
}

/// The radix-2 inverse transform by the inverse root `wi`: each butterfly of
/// the forward transform is undone, then the halves are inverted and
/// interleaved.
pub open spec fn ifft_s(v: Seq<u64>, wi: int) -> Seq<u64>
    decreases v.len(),
{
    if v.len() <= 1 {
        v
    } else {
        let h = v.len() / 2;
        let ev = Seq::new(
            h,
            |k: int| fmul_s(fadd_s(v[k] as int, v[k + h] as int), TWO_INV as int) as u64,
        );
        let ov = Seq::new(
            h,
            |k: int|
                fmul_s(
                    fmul_s(fsub_s(v[k] as int, v[k + h] as int), TWO_INV as int),
                    pow_s(wi, k as nat),
                ) as u64,
        );
        let ce = ifft_s(ev, fmul_s(wi, wi));
        let co = ifft_s(ov, fmul_s(wi, wi));
        Seq::new(
            v.len(),
            |i: int|
                if i % 2 == 0 {
                    ce[i / 2]
                } else {
                    co[i / 2]
                },
        )
    }
}

/// The forward transform preserves length.
pub proof fn lemma_fft_s_len(s: Seq<u64>, w: int)
    ensures
        fft_s(s, w).len() == s.len(),
{
}

/// The inverse transform preserves length.
pub proof fn lemma_ifft_s_len(v: Seq<u64>, wi: int)
    ensures
        ifft_s(v, wi).len() == v.len(),
{
}

/// The forward transform of reduced values is reduced.
pub proof fn lemma_fft_s_range(s: Seq<u64>, w: int)
    requires
        forall|i: int| 0 <= i < s.len() ==> (#[trigger] s[i]) < FIELD_MODULUS,
    ensures
        forall|i: int| 0 <= i < fft_s(s, w).len() ==> (#[trigger] fft_s(s, w)[i]) < FIELD_MODULUS,
    decreases s.len(),
{
    if s.len() <= 1 {
    } else {
        let h = s.len() as int / 2;
        let w2 = fmul_s(w, w);
        lemma_fft_s_range(evens(s), w2);
        lemma_fft_s_range(odds(s), w2);
        let e = fft_s(evens(s), w2);
        let o = fft_s(odds(s), w2);
        lemma_fft_s_len(evens(s), w2);
        lemma_fft_s_len(odds(s), w2);
        assert forall|i: int| 0 <= i < fft_s(s, w).len() implies (#[trigger] fft_s(s, w)[i])
            < FIELD_MODULUS by {
            if i < h {
                lemma_f_range(e[i] as int, fmul_s(pow_s(w, i as nat), o[i] as int));
            } else {
                lemma_f_range(e[i - h] as int, fmul_s(pow_s(w, (i - h) as nat), o[i - h] as int));
            }
        }
    }
}

/// The inverse transform of reduced values is reduced.
pub proof fn lemma_ifft_s_range(v: Seq<u64>, wi: int)
    requires
        is_pow2(v.len()),
        forall|i: int| 0 <= i < v.len() ==> (#[trigger] v[i]) < FIELD_MODULUS,
    ensures
        forall|i: int|
            0 <= i < ifft_s(v, wi).len() ==> (#[trigger] ifft_s(v, wi)[i]) < FIELD_MODULUS,
    decreases v.len(),
{
    if v.len() <= 1 {
    } else {
        let h = v.len() as int / 2;
        let wi2 = fmul_s(wi, wi);
        let ev = Seq::new(
            h as nat,
            |k: int| fmul_s(fadd_s(v[k] as int, v[k + h] as int), TWO_INV as int) as u64,
        );
        let ov = Seq::new(
            h as nat,
            |k: int|
                fmul_s(
                    fmul_s(fsub_s(v[k] as int, v[k + h] as int), TWO_INV as int),
                    pow_s(wi, k as nat),
                ) as u64,
        );
        assert forall|k: int| 0 <= k < ev.len() implies (#[trigger] ev[k]) < FIELD_MODULUS by {
            lemma_f_range(fadd_s(v[k] as int, v[k + h] as int), TWO_INV as int);
        }
        assert forall|k: int| 0 <= k < ov.len() implies (#[trigger] ov[k]) < FIELD_MODULUS by {
            lemma_f_range(
                fmul_s(fsub_s(v[k] as int, v[k + h] as int), TWO_INV as int),
                pow_s(wi, k as nat),
            );
        }
        assert(is_pow2(ev.len()));
        lemma_ifft_s_range(ev, wi2);
        lemma_ifft_s_range(ov, wi2);
        lemma_ifft_s_len(ev, wi2);
        lemma_ifft_s_len(ov, wi2);
        let r = ifft_s(v, wi);
        assert forall|i: int| 0 <= i < r.len() implies (#[trigger] r[i]) < FIELD_MODULUS by {
            assert(0 <= i / 2 < h);
            if i % 2 == 0 {
                assert(r[i] == ifft_s(ev, wi2)[i / 2]);
            } else {
                assert(r[i] == ifft_s(ov, wi2)[i / 2]);
            }
        }
    }
}

/// Undoing one butterfly: from the sum and difference `e + c` and `e - c`,
/// halving recovers `e`, and halving the difference recovers `c`.
proof fn lemma_butterfly_inverse(e: int, c: int)
    requires
        f_reduced(e),
        f_reduced(c),
    ensures
        fmul_s(fadd_s(fadd_s(e, c), fsub_s(e, c)), TWO_INV as int) == e,
        fmul_s(fsub_s(fadd_s(e, c), fsub_s(e, c)), TWO_INV as int) == c,
    {
    let m = FIELD_MODULUS as int;
    let ii = TWO_INV as int;
    // fold the two reduced operands back together
    lemma_reduce_ops(e + c, fsub_s(e, c));
    lemma_reduce_ops(e + c, e - c);
    assert(fadd_s(fadd_s(e, c), fsub_s(e, c)) == (2 * e) % m);
    lemma_reduce_ops(2 * e, ii);
    assert((2 * e) * ii == e * (2 * ii)) by (nonlinear_arith);
    vstd::arithmetic::div_mod::lemma_mul_mod_noop_right(e, 2 * ii, m);
    assert((2 * ii) % m == 1);
    lemma_fmul_one(e);
    assert(fmul_s(fadd_s(fadd_s(e, c), fsub_s(e, c)), TWO_INV as int) == e);

    lemma_reduce_ops(e + c, fsub_s(e, c));
    vstd::arithmetic::div_mod::lemma_sub_mod_noop_right(e + c, e - c, m);
    lemma_reduce_ops(e + c, e - c);
    assert(fsub_s(fadd_s(e, c), fsub_s(e, c)) == (2 * c) % m) by {
        assert(fsub_s(fadd_s(e, c), fsub_s(e, c)) == fsub_s(e + c, e - c));
        assert((e + c) - (e - c) == 2 * c);
    }
    lemma_reduce_ops(2 * c, ii);
    assert((2 * c) * ii == c * (2 * ii)) by (nonlinear_arith);
    vstd::arithmetic::div_mod::lemma_mul_mod_noop_right(c, 2 * ii, m);
    lemma_fmul_one(c);
}

/// Multiplying by `w^k` and then by `wi^k` cancels when `w * wi == 1`.
proof fn lemma_cancel_pow(w: int, wi: int, k: nat, o: int)
    requires
        fmul_s(w, wi) == 1,
        f_reduced(o),
    ensures
        fmul_s(fmul_s(pow_s(w, k), o), pow_s(wi, k)) == o,
{
    let pw = pow_s(w, k);
    let pwi = pow_s(wi, k);
    lemma_fmul_assoc(pw, o, pwi);
    lemma_fmul_comm(o, pwi);
    lemma_fmul_assoc(pw, pwi, o);
    lemma_pow_mul_base(w, wi, k);
    lemma_pow_one_base(k);
    lemma_fmul_one(o);
}

/// The even-odd split of evaluation: a polynomial's value at `x` is the even
/// part's value at `x^2` plus `x` times the odd part's value at `x^2`.
proof fn lemma_peval_split(s: Seq<u64>, x: int)
    requires
        forall|i: int| 0 <= i < s.len() ==> (#[trigger] s[i]) < FIELD_MODULUS,
    ensures
        peval(s, x) == fadd_s(
            peval(evens(s), fmul_s(x, x)),
            fmul_s(x, peval(odds(s), fmul_s(x, x))),
        ),
    decreases s.len(),
{
    let x2 = fmul_s(x, x);
    vstd::arithmetic::div_mod::lemma_small_mod(0nat, FIELD_MODULUS as nat);
    if s.len() == 0 {
        assert(evens(s) =~= Seq::<u64>::empty());
        assert(odds(s) =~= Seq::<u64>::empty());
        assert(x * 0 == 0) by (nonlinear_arith);
        assert(fmul_s(x, 0) == 0);
        assert(peval(evens(s), x2) == 0);
        assert(peval(odds(s), x2) == 0);
        assert(fadd_s(0, 0) == 0);
    } else if s.len() == 1 {
        assert(odds(s) =~= Seq::<u64>::empty());
        assert(evens(s).len() == 1 && evens(s)[0] == s[0]);
        assert(evens(s).drop_first() =~= Seq::<u64>::empty());
        assert(x * 0 == 0) by (nonlinear_arith);
        assert(x2 * 0 == 0) by (nonlinear_arith);
        assert(fmul_s(x, 0) == 0);
        assert(fmul_s(x2, 0) == 0);
        vstd::arithmetic::div_mod::lemma_small_mod(s[0] as nat, FIELD_MODULUS as nat);
        assert(s.drop_first() =~= Seq::<u64>::empty());
        assert(peval(Seq::<u64>::empty(), x) == 0);
        assert(peval(Seq::<u64>::empty(), x2) == 0);
        assert(peval(odds(s), x2) == 0);
        assert(peval(evens(s), x2) == fadd_s(s[0] as int, fmul_s(x2, 0)));
        assert(peval(evens(s), x2) == s[0] as int);
        assert(peval(s, x) == s[0] as int);
        assert(fadd_s(s[0] as int, 0) == s[0] as int);
    } else {
        let st2 = s.skip(2);
        assert(evens(s).drop_first() =~= evens(st2));
        assert(odds(s).drop_first() =~= odds(st2));
        assert(s.drop_first().drop_first() =~= st2);
        assert forall|i: int| 0 <= i < st2.len() implies (#[trigger] st2[i]) < FIELD_MODULUS by {
            assert(st2[i] == s[i + 2]);
        }
        lemma_peval_split(st2, x);
        let ep = peval(evens(st2), x2);
        let op = peval(odds(st2), x2);
        let p2 = peval(st2, x);
        let s0 = s[0] as int;
        let s1 = s[1] as int;
        // unfold the head twice
        assert(peval(s.drop_first(), x) == fadd_s(s1, fmul_s(x, p2)));
        assert(peval(s, x) == fadd_s(s0, fmul_s(x, fadd_s(s1, fmul_s(x, p2)))));
        // expand x * (s1 + x * p2) with p2 == ep + x * op
        lemma_fmul_fadd_distrib(x, s1, fmul_s(x, p2));
        lemma_fmul_assoc(x, x, p2);
        assert(fmul_s(x, fmul_s(x, p2)) == fmul_s(x2, p2));
        lemma_fmul_fadd_distrib(x2, ep, fmul_s(x, op));
        // x2 * (x * op) == x * (x2 * op)
        lemma_fmul_assoc(x2, x, op);
        lemma_fmul_comm(x2, x);
        lemma_fmul_assoc(x, x2, op);
        assert(fmul_s(x2, fmul_s(x, op)) == fmul_s(x, fmul_s(x2, op)));
        assert(fmul_s(x2, p2) == fadd_s(fmul_s(x2, ep), fmul_s(x, fmul_s(x2, op))));
        assert(peval(s, x) == fadd_s(
            s0,
            fadd_s(fmul_s(x, s1), fadd_s(fmul_s(x2, ep), fmul_s(x, fmul_s(x2, op)))),
        ));
        lemma_fadd4(s0, fmul_s(x, s1), fmul_s(x2, ep), fmul_s(x, fmul_s(x2, op)));
        // the two halves of the claim
        assert(peval(evens(s), x2) == fadd_s(s0, fmul_s(x2, ep)));
        assert(peval(odds(s), x2) == fadd_s(s1, fmul_s(x2, op)));
        lemma_fmul_fadd_distrib(x, s1, fmul_s(x2, op));
    }
}

/// The forward transform evaluates: when `w` is a root of unity of exactly
/// the sequence's (power-of-two) order, entry `k` of the transform is the
/// polynomial's value at `w^k`.
pub proof fn lemma_fft_evaluates(s: Seq<u64>, w: int)
    requires
        is_pow2(s.len()),
        forall|i: int| 0 <= i < s.len() ==> (#[trigger] s[i]) < FIELD_MODULUS,
        f_reduced(w),
        pow_s(w, s.len()) == 1,
        s.len() >= 2 ==> pow_s(w, s.len() / 2) == (FIELD_MODULUS - 1) as int,
    ensures
        forall|k: int|
            0 <= k < s.len() ==> (#[trigger] fft_s(s, w)[k]) as int == peval(s, pow_s(w, k as nat)),
    decreases s.len(),
{
    vstd::arithmetic::div_mod::lemma_small_mod(0nat, FIELD_MODULUS as nat);
    if s.len() == 1 {
        assert(fft_s(s, w) == s);
        assert(peval(s.drop_first(), 1) == 0);
        assert(1 * 0 == 0) by (nonlinear_arith);
        assert(fmul_s(1, 0) == 0);
        vstd::arithmetic::div_mod::lemma_small_mod(s[0] as nat, FIELD_MODULUS as nat);
        assert(peval(s, pow_s(w, 0)) == s[0] as int);
    } else {
        let n = s.len() as int;
        let h = n / 2;
        let w2 = fmul_s(w, w);
        let es = evens(s);
        let os = odds(s);
        let e = fft_s(es, w2);
        let o = fft_s(os, w2);
        lemma_fft_s_len(es, w2);
        lemma_fft_s_len(os, w2);
        lemma_f_range(w, w);
        assert(es.len() == h && os.len() == h);
        assert forall|i: int| 0 <= i < es.len() implies (#[trigger] es[i]) < FIELD_MODULUS by {
            assert(es[i] == s[2 * i]);
        }
        assert forall|i: int| 0 <= i < os.len() implies (#[trigger] os[i]) < FIELD_MODULUS by {
            assert(os[i] == s[2 * i + 1]);
        }
        // the squared root has exactly the half order
        assert(s.len() % 2 == 0 && is_pow2(h as nat));
        lemma_pow_even(w, h as nat);
        assert(h + h == n);
        assert(pow_s(w2, h as nat) == 1);
        if h >= 2 {
            assert(h % 2 == 0);
            lemma_pow_even(w, (h / 2) as nat);
            assert((h / 2) + (h / 2) == h);
            assert(pow_s(w2, (h / 2) as nat) == (FIELD_MODULUS - 1) as int);
        }
        lemma_fft_evaluates(es, w2);
        lemma_fft_evaluates(os, w2);
        assert forall|k: int| 0 <= k < s.len() implies (#[trigger] fft_s(s, w)[k]) as int == peval(
            s,
            pow_s(w, k as nat),
        ) by {
            if k < h {
                let xk = pow_s(w, k as nat);
                lemma_pow_range(w, k as nat);
                lemma_peval_split(s, xk);
                lemma_pow_add(w, k as nat, k as nat);
                lemma_pow_even(w, k as nat);
                assert(fmul_s(xk, xk) == pow_s(w2, k as nat));
                assert(e[k] as int == peval(es, pow_s(w2, k as nat)));
                assert(o[k] as int == peval(os, pow_s(w2, k as nat)));
                lemma_peval_range(es, pow_s(w2, k as nat));
                lemma_peval_range(os, pow_s(w2, k as nat));
                lemma_f_range(e[k] as int, fmul_s(xk, o[k] as int));
            } else {
                let j = k - h;
                let wj = pow_s(w, j as nat);
                lemma_pow_range(w, j as nat);
                lemma_pow_add(w, j as nat, h as nat);
                lemma_fneg_mul(wj, wj);
                // w^k == w^j * w^h == -w^j
                assert(pow_s(w, k as nat) == fneg_s(wj));
                let xk = pow_s(w, k as nat);
                lemma_peval_split(s, xk);
                // (-w^j)^2 == (w^j)^2 == w^(2j) == w2^j
                assert(fmul_s(xk, xk) == fmul_s(wj, wj));
                lemma_pow_add(w, j as nat, j as nat);
                lemma_pow_even(w, j as nat);
                assert(fmul_s(xk, xk) == pow_s(w2, j as nat));
                assert(e[j] as int == peval(es, pow_s(w2, j as nat)));
                assert(o[j] as int == peval(os, pow_s(w2, j as nat)));
                lemma_peval_range(es, pow_s(w2, j as nat));
                lemma_peval_range(os, pow_s(w2, j as nat));
                // adding x_k times the odd part subtracts w^j times it
                lemma_fadd_mul_neg(e[j] as int, wj, o[j] as int);
                lemma_f_range(e[j] as int, fmul_s(wj, o[j] as int));
                assert(fft_s(s, w)[k] as int == fsub_s(
                    e[j] as int,
                    fmul_s(wj, o[j] as int),
                ));
            }
        }
    }
}

/// The inverse transform undoes the forward transform: for every
/// power-of-two-length coefficient sequence and every pair of mutually
/// inverse field elements `w`, `wi`, running the forward butterflies with
/// `w` and the inverse butterflies with `wi` returns the sequence itself,
/// exactly.
pub proof fn lemma_fft_round_trip(s: Seq<u64>, w: int, wi: int)
    requires
        is_pow2(s.len()),
        forall|i: int| 0 <= i < s.len() ==> (#[trigger] s[i]) < FIELD_MODULUS,
        f_reduced(w),
        f_reduced(wi),
        fmul_s(w, wi) == 1,
    ensures
        ifft_s(fft_s(s, w), wi) == s,
    decreases s.len(),
{
    if s.len() <= 1 {
    } else {
        let n = s.len() as int;
        let h = n / 2;
        let w2 = fmul_s(w, w);
        let wi2 = fmul_s(wi, wi);
        let es = evens(s);
        let os = odds(s);
        let e = fft_s(es, w2);
        let o = fft_s(os, w2);
        let v = fft_s(s, w);
        lemma_fft_s_len(es, w2);
        lemma_fft_s_len(os, w2);
        lemma_fft_s_range(es, w2);
        lemma_fft_s_range(os, w2);
        lemma_f_range(w, w);
        lemma_f_range(wi, wi);
        // the squared roots are also mutually inverse
        lemma_pow_mul_base(w, wi, 2);
        lemma_pow_one_base(2);
        lemma_fmul_one(w);
        lemma_fmul_one(wi);
        assert(pow_s(w, 0) == 1 && pow_s(wi, 0) == 1);
        assert(pow_s(w, 1) == fmul_s(w, pow_s(w, 0)));
        assert(pow_s(w, 2) == fmul_s(w, pow_s(w, 1)));
        assert(pow_s(wi, 1) == fmul_s(wi, pow_s(wi, 0)));
        assert(pow_s(wi, 2) == fmul_s(wi, pow_s(wi, 1)));
        assert(pow_s(w, 2) == w2);
        assert(pow_s(wi, 2) == wi2);
        assert(fmul_s(w2, wi2) == 1);

        // the first stage of the inverse undoes the last stage of the
        // forward transform
        let ev = Seq::new(
            h as nat,
            |k: int| fmul_s(fadd_s(v[k] as int, v[k + h] as int), TWO_INV as int) as u64,
        );
        let ov = Seq::new(
            h as nat,
            |k: int|
                fmul_s(
                    fmul_s(fsub_s(v[k] as int, v[k + h] as int), TWO_INV as int),
                    pow_s(wi, k as nat),
                ) as u64,
        );
        assert forall|k: int| 0 <= k < h implies ev[k] == e[k] && ov[k] == o[k] by {
            let ek = e[k] as int;
            let ck = fmul_s(pow_s(w, k as nat), o[k] as int);
            lemma_f_range(pow_s(w, k as nat), o[k] as int);
            assert(v[k] as int == fadd_s(ek, ck));
            assert(v[k + h] as int == fsub_s(ek, ck));
            lemma_butterfly_inverse(ek, ck);
            lemma_cancel_pow(w, wi, k as nat, o[k] as int);
        }
        assert(ev =~= e);
        assert(ov =~= o);

        // invert the two halves by induction
        assert(es.len() == h && os.len() == h);
        assert(is_pow2(h as nat));
        assert forall|i: int| 0 <= i < es.len() implies (#[trigger] es[i]) < FIELD_MODULUS by {
            assert(es[i] == s[2 * i]);
        }
        assert forall|i: int| 0 <= i < os.len() implies (#[trigger] os[i]) < FIELD_MODULUS by {
            assert(os[i] == s[2 * i + 1]);
        }
        lemma_f_range(w, w);
        lemma_fft_round_trip(es, w2, wi2);
        lemma_fft_round_trip(os, w2, wi2);

        // interleaving the halves restores the original sequence
        let r = ifft_s(v, wi);
        assert(r == Seq::new(
            v.len(),
            |i: int|
                if i % 2 == 0 {
                    es[i / 2]
                } else {
                    os[i / 2]
                },
        ));
        assert forall|i: int| 0 <= i < n implies r[i] == s[i] by {
            if i % 2 == 0 {
                assert(es[i / 2] == s[2 * (i / 2)]);
                assert(2 * (i / 2) == i);
            } else {
                assert(os[i / 2] == s[2 * (i / 2) + 1]);
                assert(2 * (i / 2) + 1 == i);
            }
        }
        assert(r =~= s);
    }
}

/// Applying one forward butterfly to the two halved combinations restores
/// the original pair.
proof fn lemma_butterfly_forward(u: int, v: int)
    requires
        f_reduced(u),
        f_reduced(v),
    ensures
        fadd_s(
            fmul_s(fadd_s(u, v), TWO_INV as int),
            fmul_s(fsub_s(u, v), TWO_INV as int),
        ) == u,
        fsub_s(
            fmul_s(fadd_s(u, v), TWO_INV as int),
            fmul_s(fsub_s(u, v), TWO_INV as int),
        ) == v,
{
    let m = FIELD_MODULUS as int;
    let ii = TWO_INV as int;
    lemma_reduce_ops(u + v, ii);
    lemma_reduce_ops(u - v, ii);
    assert(fmul_s(fadd_s(u, v), ii) == ((u + v) * ii) % m);
    assert(fmul_s(fsub_s(u, v), ii) == ((u - v) * ii) % m);
    lemma_reduce_ops((u + v) * ii, (u - v) * ii);
    lemma_reduce_ops((u + v) * ii, fmul_s(fsub_s(u, v), ii));
    assert((u + v) * ii + (u - v) * ii == u * (2 * ii)) by (nonlinear_arith);
    assert((u + v) * ii - (u - v) * ii == v * (2 * ii)) by (nonlinear_arith);
    vstd::arithmetic::div_mod::lemma_mul_mod_noop_right(u, 2 * ii, m);
    vstd::arithmetic::div_mod::lemma_mul_mod_noop_right(v, 2 * ii, m);
    assert((2 * ii) % m == 1);
    lemma_fmul_one(u);
    lemma_fmul_one(v);
}

/// The forward transform undoes the inverse transform: for every
/// power-of-two-length value sequence and mutually inverse roots, running
/// the inverse butterflies with `wi` and then the forward butterflies with
/// `w` returns the values themselves, exactly.
pub proof fn lemma_ifft_round_trip(v: Seq<u64>, w: int, wi: int)
    requires
        is_pow2(v.len()),
        forall|i: int| 0 <= i < v.len() ==> (#[trigger] v[i]) < FIELD_MODULUS,
        f_reduced(w),
        f_reduced(wi),
        fmul_s(w, wi) == 1,
    ensures
        fft_s(ifft_s(v, wi), w) == v,
    decreases v.len(),
{
    if v.len() <= 1 {
    } else {
        let n = v.len() as int;
        let h = n / 2;
        let w2 = fmul_s(w, w);
        let wi2 = fmul_s(wi, wi);
        lemma_f_range(w, w);
        lemma_f_range(wi, wi);
        // the squared roots are also mutually inverse
        lemma_pow_mul_base(w, wi, 2);
        lemma_pow_one_base(2);
        lemma_fmul_one(w);
        lemma_fmul_one(wi);
        assert(pow_s(w, 0) == 1 && pow_s(wi, 0) == 1);
        assert(pow_s(w, 1) == fmul_s(w, pow_s(w, 0)));
        assert(pow_s(w, 2) == fmul_s(w, pow_s(w, 1)));
        assert(pow_s(wi, 1) == fmul_s(wi, pow_s(wi, 0)));
        assert(pow_s(wi, 2) == fmul_s(wi, pow_s(wi, 1)));
        assert(fmul_s(w2, wi2) == 1);

        let ev = Seq::new(
            h as nat,
            |k: int| fmul_s(fadd_s(v[k] as int, v[k + h] as int), TWO_INV as int) as u64,
        );
        let ov = Seq::new(
            h as nat,
            |k: int|
                fmul_s(
                    fmul_s(fsub_s(v[k] as int, v[k + h] as int), TWO_INV as int),
                    pow_s(wi, k as nat),
                ) as u64,
        );
        let r = ifft_s(v, wi);
        let ce = ifft_s(ev, wi2);
        let co = ifft_s(ov, wi2);
        lemma_ifft_s_len(ev, wi2);
        lemma_ifft_s_len(ov, wi2);
        assert(r == Seq::new(
            v.len(),
            |i: int|
                if i % 2 == 0 {
                    ce[i / 2]
                } else {
                    co[i / 2]
                },
        ));
        // the halves of r are exactly the inverted butterfly sequences
        assert(evens(r) =~= ce) by {
            assert forall|i: int| 0 <= i < (r.len() + 1) / 2 implies evens(r)[i] == ce[i] by {
                assert(evens(r)[i] == r[2 * i]);
                assert((2 * i) % 2 == 0 && (2 * i) / 2 == i);
            }
        }
        assert(odds(r) =~= co) by {
            assert forall|i: int| 0 <= i < r.len() / 2 implies odds(r)[i] == co[i] by {
                assert(odds(r)[i] == r[2 * i + 1]);
                assert((2 * i + 1) % 2 == 1 && (2 * i + 1) / 2 == i);
            }
        }
        // invert the halves by induction
        assert(is_pow2(h as nat));
        assert forall|i: int| 0 <= i < ev.len() implies (#[trigger] ev[i]) < FIELD_MODULUS by {
            lemma_f_range(fadd_s(v[i] as int, v[i + h] as int), TWO_INV as int);
        }
        assert forall|i: int| 0 <= i < ov.len() implies (#[trigger] ov[i]) < FIELD_MODULUS by {
            lemma_f_range(
                fmul_s(fsub_s(v[i] as int, v[i + h] as int), TWO_INV as int),
                pow_s(wi, i as nat),
            );
        }
        lemma_ifft_round_trip(ev, w2, wi2);
        lemma_ifft_round_trip(ov, w2, wi2);
        // the forward butterflies restore the original values
        let out = fft_s(r, w);
        lemma_fft_s_len(r, w);
        assert forall|k: int| 0 <= k < n implies out[k] == v[k] by {
            let j = if k < h {
                k
            } else {
                k - h
            };
            let u = v[j] as int;
            let t = v[j + h] as int;
            assert(fft_s(evens(r), w2) == ev);
            assert(fft_s(odds(r), w2) == ov);
            assert(ev[j] as int == fmul_s(fadd_s(u, t), TWO_INV as int));
            assert(ov[j] as int == fmul_s(
                fmul_s(fsub_s(u, t), TWO_INV as int),
                pow_s(wi, j as nat),
            ));
            lemma_butterfly_inverse_cancel(u, t, w, wi, j as nat);
        }
        assert(out =~= v);
    }
}

/// The forward butterfly applied to the halved combinations, with the
/// power-of-`wi` twist cancelled by the matching power of `w`, restores the
/// original pair.
proof fn lemma_butterfly_inverse_cancel(u: int, t: int, w: int, wi: int, j: nat)
    requires
        f_reduced(u),
        f_reduced(t),
        fmul_s(w, wi) == 1,
    ensures
        fadd_s(
            fmul_s(fadd_s(u, t), TWO_INV as int),
            fmul_s(
                pow_s(w, j),
                fmul_s(fmul_s(fsub_s(u, t), TWO_INV as int), pow_s(wi, j)),
            ),
        ) == u,
        fsub_s(
            fmul_s(fadd_s(u, t), TWO_INV as int),
            fmul_s(
                pow_s(w, j),
                fmul_s(fmul_s(fsub_s(u, t), TWO_INV as int), pow_s(wi, j)),
            ),
        ) == t,
{
    let b = fmul_s(fsub_s(u, t), TWO_INV as int);
    lemma_f_range(fsub_s(u, t), TWO_INV as int);
    // w^j * (b * wi^j) == b
    lemma_fmul_assoc(pow_s(w, j), b, pow_s(wi, j));
    lemma_fmul_comm(pow_s(w, j), b);
    lemma_fmul_assoc(b, pow_s(w, j), pow_s(wi, j));
    lemma_pow_mul_base(w, wi, j);
    lemma_pow_one_base(j);
    lemma_fmul_one(b);
    assert(fmul_s(pow_s(w, j), fmul_s(b, pow_s(wi, j))) == b);
    lemma_butterfly_forward(u, t);
}

/// The recursive radix-2 forward transform.
pub(crate) fn fft_rec(a: Vec<u64>, omega: u64) -> (r: Vec<u64>)
    requires
        is_pow2(a@.len()),
        forall|i: int| 0 <= i < a@.len() ==> (#[trigger] a@[i]) < FIELD_MODULUS,
        omega < FIELD_MODULUS,
    ensures
        r@ == fft_s(a@, omega as int),
        r@.len() == a@.len(),
    decreases a@.len(),
{
    let n = a.len();
    if n <= 1 {
        return a;
    }
    let h = n / 2;
    let mut ev: Vec<u64> = Vec::new();
    let mut ov: Vec<u64> = Vec::new();
    let mut i: usize = 0;
    while i < h
        invariant
            i <= h,
            h == a@.len() / 2,
            n == a@.len(),
            2 <= n,
            n % 2 == 0,
            forall|j: int| 0 <= j < a@.len() ==> (#[trigger] a@[j]) < FIELD_MODULUS,
            ev@.len() == i as int,
            ov@.len() == i as int,
            forall|j: int| 0 <= j < i ==> (#[trigger] ev@[j]) == a@[2 * j],
            forall|j: int| 0 <= j < i ==> (#[trigger] ov@[j]) == a@[2 * j + 1],
        decreases h - i,
    {
        ev.push(a[2 * i]);
        ov.push(a[2 * i + 1]);
        i += 1;
    }
    proof {
        assert(ev@ =~= evens(a@));
        assert(ov@ =~= odds(a@));
        assert(is_pow2(evens(a@).len()));
    }
    let w2 = field_mul(omega, omega);
    let fe = fft_rec(ev, w2);
    let fo = fft_rec(ov, w2);
    let ghost target = fft_s(a@, omega as int);
    proof {
        assert(fe@ == fft_s(evens(a@), fmul_s(omega as int, omega as int)));
        lemma_fft_s_range(evens(a@), fmul_s(omega as int, omega as int));
        lemma_fft_s_range(odds(a@), fmul_s(omega as int, omega as int));
        assert(target.len() == n);
    }
    let mut res: Vec<u64> = Vec::new();
    let mut wk: u64 = 1;
    let mut k: usize = 0;
    proof {
        assert(pow_s(omega as int, 0) == 1);
    }
    while k < h
        invariant
            k <= h,
            h == a@.len() / 2,
            n == a@.len(),
            2 <= n,
            n % 2 == 0,
            omega < FIELD_MODULUS,
            fe@ == fft_s(evens(a@), fmul_s(omega as int, omega as int)),
            fo@ == fft_s(odds(a@), fmul_s(omega as int, omega as int)),
            fe@.len() == h,
            fo@.len() == h,
            forall|j: int| 0 <= j < h ==> (#[trigger] fe@[j]) < FIELD_MODULUS,
            forall|j: int| 0 <= j < h ==> (#[trigger] fo@[j]) < FIELD_MODULUS,
            target == fft_s(a@, omega as int),
            target.len() == n,
            wk < FIELD_MODULUS,
            wk as int == pow_s(omega as int, k as nat),
            res@.len() == k as int,
            forall|j: int| 0 <= j < k ==> (#[trigger] res@[j]) == target[j],
        decreases h - k,
    {
        let t = field_mul(wk, fo[k]);
        let out = field_add(fe[k], t);
        proof {
            assert(target[k as int] == fadd_s(
                fe@[k as int] as int,
                fmul_s(pow_s(omega as int, k as nat), fo@[k as int] as int),
            ) as u64);
        }
        res.push(out);
        proof {
            lemma_fmul_comm(wk as int, omega as int);
        }
        wk = field_mul(wk, omega);
        k += 1;
    }
    let mut wk2: u64 = 1;
    let mut k2: usize = 0;
    while k2 < h
        invariant
            k2 <= h,
            h == a@.len() / 2,
            n == a@.len(),
            2 <= n,
            n % 2 == 0,
            omega < FIELD_MODULUS,
            fe@ == fft_s(evens(a@), fmul_s(omega as int, omega as int)),
            fo@ == fft_s(odds(a@), fmul_s(omega as int, omega as int)),
            fe@.len() == h,
            fo@.len() == h,
            forall|j: int| 0 <= j < h ==> (#[trigger] fe@[j]) < FIELD_MODULUS,
            forall|j: int| 0 <= j < h ==> (#[trigger] fo@[j]) < FIELD_MODULUS,
            target == fft_s(a@, omega as int),
            target.len() == n,
            wk2 < FIELD_MODULUS,
            wk2 as int == pow_s(omega as int, k2 as nat),
            res@.len() == h + k2 as int,
            forall|j: int| 0 <= j < h + k2 ==> (#[trigger] res@[j]) == target[j],
        decreases h - k2,
    {
        let t = field_mul(wk2, fo[k2]);
        let out = field_sub(fe[k2], t);
        proof {
            assert(target[h + k2 as int] == fsub_s(
                fe@[k2 as int] as int,
                fmul_s(pow_s(omega as int, k2 as nat), fo@[k2 as int] as int),
            ) as u64);
        }
        res.push(out);
        proof {
            lemma_fmul_comm(wk2 as int, omega as int);
        }
        wk2 = field_mul(wk2, omega);
        k2 += 1;
    }
    proof {
        assert(res@ =~= target);
    }
    res
}

/// The recursive radix-2 inverse transform by the inverse root `wi`.
#[verifier::loop_isolation(false)]
pub(crate) fn ifft_rec(v: Vec<u64>, wi: u64) -> (r: Vec<u64>)
    requires
        is_pow2(v@.len()),
        forall|i: int| 0 <= i < v@.len() ==> (#[trigger] v@[i]) < FIELD_MODULUS,
        wi < FIELD_MODULUS,
    ensures
        r@ == ifft_s(v@, wi as int),
        r@.len() == v@.len(),
    decreases v@.len(),
{
    let n = v.len();
    if n <= 1 {
        return v;
    }
    let h = n / 2;
    let ghost evt = Seq::new(
        h as nat,
        |k: int| fmul_s(fadd_s(v@[k] as int, v@[k + h] as int), TWO_INV as int) as u64,
    );
    let ghost ovt = Seq::new(
        h as nat,
        |k: int|
            fmul_s(
                fmul_s(fsub_s(v@[k] as int, v@[k + h] as int), TWO_INV as int),
                pow_s(wi as int, k as nat),
            ) as u64,
    );
    let mut ev: Vec<u64> = Vec::new();
    let mut ov: Vec<u64> = Vec::new();
    let mut wik: u64 = 1;
    let mut k: usize = 0;
    proof {
        assert(pow_s(wi as int, 0) == 1);
    }
    while k < h
        invariant
            k <= h,
            h == v@.len() / 2,
            n == v@.len(),
            2 <= n,
            n % 2 == 0,
            wi < FIELD_MODULUS,
            forall|j: int| 0 <= j < v@.len() ==> (#[trigger] v@[j]) < FIELD_MODULUS,
            wik < FIELD_MODULUS,
            wik as int == pow_s(wi as int, k as nat),
            ev@.len() == k as int,
            ov@.len() == k as int,
            forall|j: int| 0 <= j < k ==> (#[trigger] ev@[j]) == evt[j],
            forall|j: int| 0 <= j < k ==> (#[trigger] ov@[j]) == ovt[j],
        decreases h - k,
    {
        let s = field_add(v[k], v[k + h]);
        let d = field_sub(v[k], v[k + h]);
        ev.push(field_mul(s, TWO_INV));
        ov.push(field_mul(field_mul(d, TWO_INV), wik));
        proof {
            lemma_fmul_comm(wik as int, wi as int);
        }
        wik = field_mul(wik, wi);
        k += 1;
    }
    proof {
        assert(ev@ =~= evt);
        assert(ov@ =~= ovt);
        assert(is_pow2(h as nat));
    }
    let wi2 = field_mul(wi, wi);
    let ce = ifft_rec(ev, wi2);
    let co = ifft_rec(ov, wi2);
    let ghost target = ifft_s(v@, wi as int);
    proof {
        lemma_ifft_s_len(evt, fmul_s(wi as int, wi as int));
        lemma_ifft_s_len(ovt, fmul_s(wi as int, wi as int));
        assert(target.len() == n);
        assert(target == Seq::new(
            v@.len(),
            |i: int|
                if i % 2 == 0 {
                    ifft_s(evt, fmul_s(wi as int, wi as int))[i / 2]
                } else {
                    ifft_s(ovt, fmul_s(wi as int, wi as int))[i / 2]
                },
        ));
    }
    let mut res: Vec<u64> = Vec::new();
    let mut i2: usize = 0;
    while i2 < h
        invariant
            i2 <= h,
            h == v@.len() / 2,
            n == v@.len(),
            2 <= n,
            n % 2 == 0,
            ce@ == ifft_s(evt, fmul_s(wi as int, wi as int)),
            co@ == ifft_s(ovt, fmul_s(wi as int, wi as int)),
            ce@.len() == h,
            co@.len() == h,
            target == ifft_s(v@, wi as int),
            target.len() == n,
            res@.len() == 2 * i2 as int,
            forall|j: int| 0 <= j < 2 * i2 ==> (#[trigger] res@[j]) == target[j],
        decreases h - i2,
    {
        res.push(ce[i2]);
        res.push(co[i2]);
        proof {
            assert(target[2 * i2 as int] == ce@[i2 as int]);
            assert(target[2 * i2 as int + 1] == co@[i2 as int]);
        }
        i2 += 1;
    }
    proof {
        assert(res@ =~= target);
    }
    res
}

/// The candidate principal root of unity of order `n`: the field generator
/// raised to the cofactor of `n` in the multiplicative group order.
pub open spec fn domain_root(n: nat) -> int {
    pow_s(GENERATOR as int, (FIELD_MODULUS - 1) as nat / n)
}

/// The candidate root really has order `n`: its `n`-th power is one and,
/// for `n >= 2`, its `n/2`-th power is minus one.
pub open spec fn root_ok(n: nat) -> bool {
    &&& pow_s(domain_root(n), n) == 1
    &&& (n >= 2 ==> pow_s(domain_root(n), n / 2) == (FIELD_MODULUS - 1) as int)
}

/// A power-of-two evaluation domain: the points are the powers of `omega`,
/// and `vals` holds the represented polynomial's values at those points.
pub struct EvaluationDomain {
    /// A principal root of unity whose order is the domain size.
    pub omega: u64,
    /// The value of the represented polynomial at each domain point.
    pub vals: Vec<u64>,
}

impl EvaluationDomain {
    /// The number of domain points.
    pub open spec fn size(&self) -> int {
        self.vals@.len() as int
    }

    /// A structurally valid domain: a power-of-two size, reduced values, and
    /// a root of unity of exactly the domain's order.
    pub open spec fn wf(&self) -> bool {
        &&& is_pow2(self.vals@.len())
        &&& self.omega < FIELD_MODULUS
        &&& (forall|i: int| 0 <= i < self.vals@.len() ==> (#[trigger] self.vals@[i]) < FIELD_MODULUS)
        &&& pow_s(self.omega as int, self.vals@.len()) == 1
        &&& (self.vals@.len() >= 2 ==> pow_s(self.omega as int, self.vals@.len() / 2) == (
        FIELD_MODULUS - 1) as int)
    }

    /// Builds the domain representation of the polynomial with the given
    /// coefficients: pads the coefficients to the next power-of-two size and
    /// applies the forward transform by a principal root of unity of that
    /// order.  Fails with `DomainTooLarge` when the coefficient count
    /// exceeds the largest supported domain, and with `NoRootOfUnity` when
    /// the field has no root of the required order.
    #[verifier::loop_isolation(false)]
    pub fn from_coeffs(coeffs: Vec<u64>) -> (r: Result<EvaluationDomain, KZGError>)
        requires
            forall|i: int| 0 <= i < coeffs@.len() ==> (#[trigger] coeffs@[i]) < FIELD_MODULUS,
        ensures
            coeffs@.len() > MAX_DOMAIN_SIZE <==> r == Err::<EvaluationDomain, KZGError>(
                KZGError::DomainTooLarge,
            ),
            coeffs@.len() <= MAX_DOMAIN_SIZE ==> (r is Ok <==> root_ok(next_pow2(coeffs@.len()))),
            r matches Err(e) ==> (e == KZGError::DomainTooLarge || e == KZGError::NoRootOfUnity),
            r matches Ok(d) ==> {
                &&& d.wf()
                &&& d.size() == next_pow2(coeffs@.len()) as int
                &&& d.omega as int == domain_root(next_pow2(coeffs@.len()))
                &&& d.vals@ == fft_s(
                    coeffs@ + Seq::new(
                        (next_pow2(coeffs@.len()) - coeffs@.len()) as nat,
                        |i: int| 0u64,
                    ),
                    d.omega as int,
                )
            },
    {
        let len = coeffs.len();
        if len > MAX_DOMAIN_SIZE {
            return Err(KZGError::DomainTooLarge);
        }
        let mut nsize: usize = 1;
        while nsize < len
            invariant
                1 <= nsize,
                is_pow2(nsize as nat),
                next_pow2_from(nsize as nat, len as nat) == next_pow2(len as nat),
            decreases 2 * len - nsize,
        {
            nsize = nsize * 2;
        }
        proof {
            assert(next_pow2(len as nat) == nsize as nat);
        }
        let exp = (FIELD_MODULUS - 1) / (nsize as u64);
        let root = field_pow(GENERATOR, exp);
        proof {
            assert(root as int == domain_root(nsize as nat));
        }
        let ok1 = field_pow(root, nsize as u64) == 1;
        let ok2 = if nsize >= 2 {
            field_pow(root, (nsize / 2) as u64) == FIELD_MODULUS - 1
        } else {
            true
        };
        if !ok1 || !ok2 {
            proof {
                assert(!root_ok(nsize as nat));
            }
            return Err(KZGError::NoRootOfUnity);
        }
        let mut vals = coeffs;
        while vals.len() < nsize
            invariant
                len <= vals@.len() <= nsize,
                vals@.take(len as int) == coeffs@,
                forall|j: int| len <= j < vals@.len() ==> (#[trigger] vals@[j]) == 0,
                forall|j: int| 0 <= j < vals@.len() ==> (#[trigger] vals@[j]) < FIELD_MODULUS,
            decreases nsize - vals.len(),
        {
            vals.push(0);
            proof {
                assert(vals@.take(len as int) =~= coeffs@);
            }
        }
        proof {
            assert(vals@ =~= coeffs@ + Seq::new((nsize - len) as nat, |i: int| 0u64));
        }
        let out = fft_rec(vals, root);
        proof {
            lemma_fft_s_range(
                coeffs@ + Seq::new((nsize - len) as nat, |i: int| 0u64),
                root as int,
            );
        }
        Ok(EvaluationDomain { omega: root, vals: out })
    }

    /// Recovers the coefficients of the represented polynomial by the
    /// inverse transform; the round trip through `from_coeffs` is exact.
    pub fn to_coeffs(&self) -> (r: Vec<u64>)
        requires
            self.wf(),
        ensures
            r@ == ifft_s(
                self.vals@,
                pow_s(self.omega as int, (self.vals@.len() - 1) as nat),
            ),
            r@.len() == self.vals@.len(),
    {
        proof {
            if self.vals@.len() == 0 {
                assert(!is_pow2(0));
            }
        }
        let n = self.vals.len();
        let wi = field_pow(self.omega, (n - 1) as u64);
        let mut vcopy: Vec<u64> = Vec::new();
        let mut i: usize = 0;
        while i < n
            invariant
                i <= n,
                n == self.vals@.len(),
                vcopy@ =~= self.vals@.take(i as int),
            decreases n - i,
        {
            vcopy.push(self.vals[i]);
            i += 1;
        }
        proof {
            assert(vcopy@ =~= self.vals@);
        }
        ifft_rec(vcopy, wi)
    }
}

/// The round-trip law of the transforms: for every coefficient sequence of
/// power-of-two length and every root of unity of that order, the inverse
/// transform by the inverse root recovers the coefficients from the forward
/// transform exactly.
pub proof fn lemma_domain_round_trip(coeffs: Seq<u64>, omega: u64)
    requires
        is_pow2(coeffs.len()),
        forall|i: int| 0 <= i < coeffs.len() ==> (#[trigger] coeffs[i]) < FIELD_MODULUS,
        omega < FIELD_MODULUS,
        pow_s(omega as int, coeffs.len()) == 1,
    ensures
        ifft_s(fft_s(coeffs, omega as int), pow_s(omega as int, (coeffs.len() - 1) as nat))
            == coeffs,
{
    let wi = pow_s(omega as int, (coeffs.len() - 1) as nat);
    lemma_pow_range(omega as int, (coeffs.len() - 1) as nat);
    assert(fmul_s(omega as int, wi) == pow_s(omega as int, coeffs.len()));
    lemma_fft_round_trip(coeffs, omega as int, wi);
}

} // verus!
