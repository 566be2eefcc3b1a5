//! Scalar records that travel with a proof: the random oracle values and
//! the per-column polynomial evaluations at one challenge point.

use vstd::prelude::*;
use crate::field::Fp;

verus! {

/// The Fiat-Shamir challenges, in the order the transcript produces them.
#[derive(Clone, Copy, PartialEq, Eq, Structural, Debug)]
pub struct RandomOracles {
    pub beta: Fp,
    pub gamma: Fp,
    pub alpha: Fp,
    pub zeta: Fp,
    pub v: Fp,
    pub u: Fp,
}

impl RandomOracles {
    /// All fields are reduced residues.
    pub open spec fn wf(self) -> bool {
        self.beta.wf() && self.gamma.wf() && self.alpha.wf() && self.zeta.wf() && self.v.wf()
            && self.u.wf()
    }

    /// The all-zero record the prover starts from.
    pub fn zero() -> (r: Self)
        ensures
            r.wf(),
            r.beta.val() == 0,
            r.gamma.val() == 0,
            r.alpha.val() == 0,
            r.zeta.val() == 0,
            r.v.val() == 0,
            r.u.val() == 0,
    {
        RandomOracles {
            beta: Fp::zero(),
            gamma: Fp::zero(),
            alpha: Fp::zero(),
            zeta: Fp::zero(),
            v: Fp::zero(),
            u: Fp::zero(),
        }
    }
}

/// The evaluations of the proof's column polynomials at a single point:
/// the witness columns, the grand product, and the lookup columns.
#[derive(Clone, Debug)]
pub struct ProofEvaluations {
    pub w: Vec<Fp>,
    pub z: Fp,
    pub lookup_sorted: Vec<Fp>,
    pub lookup_aggreg: Fp,
    pub lookup_table: Fp,
}

impl ProofEvaluations {
    /// All entries are reduced residues.
    pub open spec fn wf(self) -> bool {
        &&& forall|i: int| 0 <= i < self.w@.len() ==> (#[trigger] self.w@[i]).wf()
        &&& self.z.wf()
        &&& forall|i: int|
            0 <= i < self.lookup_sorted@.len() ==> (#[trigger] self.lookup_sorted@[i]).wf()
        &&& self.lookup_aggreg.wf()
        &&& self.lookup_table.wf()
    }
}

} // verus!
