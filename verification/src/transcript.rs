//! The prover's Fiat-Shamir transcript order as a verified state machine:
//! from the current stage, the next stage and the action the driver must
//! perform.  The order is the soundness contract of the proof — the
//! public commitment is absorbed first, then each witness commitment in
//! column order, then the challenges interleave with the aggregation and
//! quotient commitments, the quotient absorption padded to a fixed
//! length, and the opening comes last.  A driver holding the sponge and
//! the commitment scheme can only perform these actions; it decides
//! nothing.

use vstd::prelude::*;
use crate::modarith::fsub;
use crate::field::Fp;
use crate::dense_polynomial::DensePolynomial;
use crate::evaluations::COLUMNS;
use crate::prover::PolyComm;

verus! {

/// Where the prover stands in the transcript.
#[derive(Clone, Copy, PartialEq, Eq, Structural, Debug)]
pub enum ProverStage {
    CommitPublic,
    AbsorbPublic,
    CommitWitness(usize),
    AbsorbWitness(usize),
    SqueezeBeta,
    SqueezeGamma,
    CommitAggregation,
    AbsorbAggregation,
    SqueezeAlpha,
    CommitQuotient,
    AbsorbQuotient,
    PadQuotient,
    SqueezeZeta,
    SqueezeV,
    SqueezeU,
    OpenProof,
    Done,
}

/// What the driver must do next: hand a polynomial to the commitment
/// scheme (with or without hiding), absorb a commitment or a fixed
/// number of identity points into the sponge, squeeze a challenge, or
/// produce the batched opening.
pub enum ProverAction<'a, G> {
    AbsorbComm(&'a PolyComm<G>),
    AbsorbPadding { count: usize },
    Squeeze,
    CommitHiding(&'a DensePolynomial),
    CommitPlain(&'a DensePolynomial),
    Open,
}

/// What the prover has computed so far, as the driver carries it: the
/// polynomials the library built, the commitments the driver got back
/// for them, and the two chunking sizes.
pub struct ProverCtx<G> {
    pub public_poly: DensePolynomial,
    pub public_comm: PolyComm<G>,
    pub w: Vec<DensePolynomial>,
    pub w_comm: Vec<PolyComm<G>>,
    pub z_poly: DensePolynomial,
    pub z_comm: PolyComm<G>,
    pub t_poly: DensePolynomial,
    pub t_comm: PolyComm<G>,
    pub max_poly_size: usize,
    pub max_quot_size: usize,
}

impl<G> ProverCtx<G> {
    /// One polynomial and one commitment per witness column, a positive
    /// chunk size, and a quotient commitment no longer than the padded
    /// transcript slot it is absorbed into.
    pub open spec fn wf(self) -> bool {
        &&& self.w@.len() == COLUMNS
        &&& self.w_comm@.len() == COLUMNS
        &&& self.max_poly_size >= 1
        &&& self.max_quot_size + self.max_poly_size <= usize::MAX
        &&& self.t_comm.unshifted@.len() <= (self.max_quot_size + self.max_poly_size - 1) / (
        self.max_poly_size as int)
    }
}

/// The witness indices a stage may carry stay inside the column count.
pub open spec fn stage_wf(s: ProverStage) -> bool {
    match s {
        ProverStage::CommitWitness(i) => (i as int) < COLUMNS,
        ProverStage::AbsorbWitness(i) => (i as int) < COLUMNS,
        _ => true,
    }
}

/// The fixed transcript order: which stage follows which.  No challenge
/// value appears here — the order never depends on what was squeezed.
pub open spec fn stage_after(s: ProverStage) -> ProverStage {
    match s {
        ProverStage::CommitPublic => ProverStage::AbsorbPublic,
        ProverStage::AbsorbPublic => ProverStage::CommitWitness(0),
        ProverStage::CommitWitness(i) => ProverStage::AbsorbWitness(i),
        ProverStage::AbsorbWitness(i) => if (i as int) + 1 < COLUMNS {
            ProverStage::CommitWitness((i + 1) as usize)
        } else {
            ProverStage::SqueezeBeta
        },
        ProverStage::SqueezeBeta => ProverStage::SqueezeGamma,
        ProverStage::SqueezeGamma => ProverStage::CommitAggregation,
        ProverStage::CommitAggregation => ProverStage::AbsorbAggregation,
        ProverStage::AbsorbAggregation => ProverStage::SqueezeAlpha,
        ProverStage::SqueezeAlpha => ProverStage::CommitQuotient,
        ProverStage::CommitQuotient => ProverStage::AbsorbQuotient,
        ProverStage::AbsorbQuotient => ProverStage::PadQuotient,
        ProverStage::PadQuotient => ProverStage::SqueezeZeta,
        ProverStage::SqueezeZeta => ProverStage::SqueezeV,
        ProverStage::SqueezeV => ProverStage::SqueezeU,
        ProverStage::SqueezeU => ProverStage::OpenProof,
        ProverStage::OpenProof => ProverStage::Done,
        ProverStage::Done => ProverStage::Done,
    }
}

/// The action a stage demands, pinned payload by payload: each commit
/// hands over exactly the stage's polynomial, each absorption exactly
/// its commitment, and the padding exactly fills the quotient slot.
pub open spec fn action_ok<G>(stage: ProverStage, a: ProverAction<G>, ctx: ProverCtx<G>) -> bool {
    match stage {
        ProverStage::CommitPublic => a matches ProverAction::CommitPlain(p) && *p
            == ctx.public_poly,
        ProverStage::AbsorbPublic => a matches ProverAction::AbsorbComm(cm) && *cm
            == ctx.public_comm,
        ProverStage::CommitWitness(i) => a matches ProverAction::CommitHiding(p) && *p
            == ctx.w@[i as int],
        ProverStage::AbsorbWitness(i) => a matches ProverAction::AbsorbComm(cm) && *cm
            == ctx.w_comm@[i as int],
        ProverStage::SqueezeBeta => a is Squeeze,
        ProverStage::SqueezeGamma => a is Squeeze,
        ProverStage::CommitAggregation => a matches ProverAction::CommitHiding(p) && *p
            == ctx.z_poly,
        ProverStage::AbsorbAggregation => a matches ProverAction::AbsorbComm(cm) && *cm
            == ctx.z_comm,
        ProverStage::SqueezeAlpha => a is Squeeze,
        ProverStage::CommitQuotient => a matches ProverAction::CommitHiding(p) && *p == ctx.t_poly,
        ProverStage::AbsorbQuotient => a matches ProverAction::AbsorbComm(cm) && *cm == ctx.t_comm,
        ProverStage::PadQuotient => a matches ProverAction::AbsorbPadding { count } && count == (
        ctx.max_quot_size + ctx.max_poly_size - 1) / (ctx.max_poly_size as int)
            - ctx.t_comm.unshifted@.len(),
        ProverStage::SqueezeZeta => a is Squeeze,
        ProverStage::SqueezeV => a is Squeeze,
        ProverStage::SqueezeU => a is Squeeze,
        ProverStage::OpenProof => a is Open,
        ProverStage::Done => a is Open,
    }
}

/// How many identity points pad the quotient commitment's absorption,
/// so that the transcript length does not depend on the quotient's
/// actual chunk count.
pub fn max_t_padding(max_quot_size: usize, max_poly_size: usize, t_comm_len: usize) -> (r: usize)
    requires
        max_poly_size >= 1,
        max_quot_size + max_poly_size <= usize::MAX,
        t_comm_len <= (max_quot_size + max_poly_size - 1) / (max_poly_size as int),
    ensures
        r == (max_quot_size + max_poly_size - 1) / (max_poly_size as int) - t_comm_len,
{
    let max_t_size = (max_quot_size + max_poly_size - 1) / max_poly_size;
    max_t_size - t_comm_len
}

/// One step of the prover transcript: from the current stage and the
/// context, the next stage and the action the driver performs now.  The
/// challenge handed back from the previous squeeze is accepted but never
/// consulted: the order is fixed, whatever was squeezed.
pub fn prover_next<'a, G>(stage: ProverStage, _event: Fp, ctx: &'a ProverCtx<G>) -> (r: (
    ProverStage,
    ProverAction<'a, G>,
))
    requires
        ctx.wf(),
        stage_wf(stage),
        !(stage is Done),
    ensures
        r.0 == stage_after(stage),
        action_ok(stage, r.1, *ctx),
{
    match stage {
        ProverStage::CommitPublic => (
            ProverStage::AbsorbPublic,
            ProverAction::CommitPlain(&ctx.public_poly),
        ),
        ProverStage::AbsorbPublic => (
            ProverStage::CommitWitness(0),
            ProverAction::AbsorbComm(&ctx.public_comm),
        ),
        ProverStage::CommitWitness(i) => (
            ProverStage::AbsorbWitness(i),
            ProverAction::CommitHiding(&ctx.w[i]),
        ),
        ProverStage::AbsorbWitness(i) => {
            let next = if i + 1 < COLUMNS {
                ProverStage::CommitWitness(i + 1)
            } else {
                ProverStage::SqueezeBeta
            };
            (next, ProverAction::AbsorbComm(&ctx.w_comm[i]))
        },
        ProverStage::SqueezeBeta => (ProverStage::SqueezeGamma, ProverAction::Squeeze),
        ProverStage::SqueezeGamma => (ProverStage::CommitAggregation, ProverAction::Squeeze),
        ProverStage::CommitAggregation => (
            ProverStage::AbsorbAggregation,
            ProverAction::CommitHiding(&ctx.z_poly),
        ),
        ProverStage::AbsorbAggregation => (
            ProverStage::SqueezeAlpha,
            ProverAction::AbsorbComm(&ctx.z_comm),
        ),
        ProverStage::SqueezeAlpha => (ProverStage::CommitQuotient, ProverAction::Squeeze),
        ProverStage::CommitQuotient => (
            ProverStage::AbsorbQuotient,
            ProverAction::CommitHiding(&ctx.t_poly),
        ),
        ProverStage::AbsorbQuotient => (
            ProverStage::PadQuotient,
            ProverAction::AbsorbComm(&ctx.t_comm),
        ),
        ProverStage::PadQuotient => {
            let count = max_t_padding(
                ctx.max_quot_size,
                ctx.max_poly_size,
                ctx.t_comm.unshifted.len(),
            );
            (ProverStage::SqueezeZeta, ProverAction::AbsorbPadding { count })
        },
        ProverStage::SqueezeZeta => (ProverStage::SqueezeV, ProverAction::Squeeze),
        ProverStage::SqueezeV => (ProverStage::SqueezeU, ProverAction::Squeeze),
        ProverStage::SqueezeU => (ProverStage::OpenProof, ProverAction::Squeeze),
        ProverStage::OpenProof => (ProverStage::Done, ProverAction::Open),
        ProverStage::Done => (ProverStage::Done, ProverAction::Open),
    }
}

/// The blinder of the combined opening polynomial:
/// `blinding_f - (zeta_n - 1) * blinding_t`.
pub fn ft_blinder(blinding_f: Fp, blinding_t: Fp, zeta_n: Fp) -> (r: Fp)
    requires
        blinding_f.wf(),
        blinding_t.wf(),
        zeta_n.wf(),
    ensures
        r.wf(),
        r.val() == fsub(
            blinding_f.val(),
            crate::modarith::fmul(fsub(zeta_n.val(), 1), blinding_t.val()),
        ),
{
    blinding_f.sub(zeta_n.sub(Fp::one()).mul(blinding_t))
}

/// What the scalar sponge absorbs for the public polynomial: nothing at
/// all when the polynomial is zero, otherwise its evaluation at each of
/// the two points, one chunk each.
pub fn public_eval_absorption(p_is_zero: bool, p_at_zeta: Fp, p_at_zeta_omega: Fp) -> (r: (
    Vec<Fp>,
    Vec<Fp>,
))
    ensures
        p_is_zero ==> r.0@.len() == 0 && r.1@.len() == 0,
        !p_is_zero ==> r.0@ == seq![p_at_zeta] && r.1@ == seq![p_at_zeta_omega],
{
    if p_is_zero {
        (Vec::new(), Vec::new())
    } else {
        let mut at_zeta: Vec<Fp> = Vec::new();
        at_zeta.push(p_at_zeta);
        let mut at_zeta_omega: Vec<Fp> = Vec::new();
        at_zeta_omega.push(p_at_zeta_omega);
        proof {
            assert(at_zeta@ =~= seq![p_at_zeta]);
            assert(at_zeta_omega@ =~= seq![p_at_zeta_omega]);
        }
        (at_zeta, at_zeta_omega)
    }
}

} // verus!
