//! The pairing-friendly group abstraction the commitment scheme is built on.
//!
//! The scheme needs two source groups with scalar multiplication and a
//! bilinear pairing into a target group.  This crate instantiates them
//! transparently: each group is the additive group of the scalar field, a
//! group element stores the exponent of the generator directly, scalar
//! multiplication is field multiplication, and the pairing multiplies
//! exponents.  The pairing is exactly bilinear, which is all the protocol
//! algebra relies on; the instantiation hides nothing, so it is a model for
//! reasoning and testing rather than a production curve.

use vstd::prelude::*;
use crate::field::{FIELD_MODULUS, fadd_s, fsub_s, fmul_s, field_add, field_sub, field_mul};

verus! {

/// An element of the first source group, stored as the exponent of the
/// group generator.
#[derive(Clone, Copy, PartialEq, Eq, Structural, Debug)]
pub struct G1 {
    /// The exponent of the generator.
    pub v: u64,
}

/// An element of the second source group.
#[derive(Clone, Copy, PartialEq, Eq, Structural, Debug)]
pub struct G2 {
    /// The exponent of the generator.
    pub v: u64,
}

/// An element of the pairing's target group.
#[derive(Clone, Copy, PartialEq, Eq, Structural, Debug)]
pub struct Gt {
    /// The exponent of the generator.
    pub v: u64,
}

impl G1 {
    /// A valid group element: a reduced exponent.
    pub open spec fn wf(&self) -> bool {
        self.v < FIELD_MODULUS
    }
}

impl G2 {
    /// A valid group element: a reduced exponent.
    pub open spec fn wf(&self) -> bool {
        self.v < FIELD_MODULUS
    }
}

/// Adds two elements of the first group.
pub fn g1_add(a: G1, b: G1) -> (r: G1)
    requires
        a.wf(),
        b.wf(),
    ensures
        r.wf(),
        r.v as int == fadd_s(a.v as int, b.v as int),
{
    G1 { v: field_add(a.v, b.v) }
}

/// Subtracts an element of the first group from another.
pub fn g1_sub(a: G1, b: G1) -> (r: G1)
    requires
        a.wf(),
        b.wf(),
    ensures
        r.wf(),
        r.v as int == fsub_s(a.v as int, b.v as int),
{
    G1 { v: field_sub(a.v, b.v) }
}

/// Multiplies an element of the first group by a scalar.
pub fn g1_scale(s: u64, p: G1) -> (r: G1)
    requires
        s < FIELD_MODULUS,
        p.wf(),
    ensures
        r.wf(),
        r.v as int == fmul_s(s as int, p.v as int),
{
    G1 { v: field_mul(s, p.v) }
}

/// Subtracts an element of the second group from another.
pub fn g2_sub(a: G2, b: G2) -> (r: G2)
    requires
        a.wf(),
        b.wf(),
    ensures
        r.wf(),
        r.v as int == fsub_s(a.v as int, b.v as int),
{
    G2 { v: field_sub(a.v, b.v) }
}

/// Multiplies an element of the second group by a scalar.
pub fn g2_scale(s: u64, p: G2) -> (r: G2)
    requires
        s < FIELD_MODULUS,
        p.wf(),
    ensures
        r.wf(),
        r.v as int == fmul_s(s as int, p.v as int),
{
    G2 { v: field_mul(s, p.v) }
}

/// The bilinear pairing: multiplies the exponents of the two source
/// elements, landing in the target group.
pub fn pairing(a: G1, b: G2) -> (r: Gt)
    requires
        a.wf(),
        b.wf(),
    ensures
        r.wf(),
        r.v as int == fmul_s(a.v as int, b.v as int),
{
    Gt { v: field_mul(a.v, b.v) }
}

impl Gt {
    /// A valid group element: a reduced exponent.
    pub open spec fn wf(&self) -> bool {
        self.v < FIELD_MODULUS
    }
}

} // verus!
