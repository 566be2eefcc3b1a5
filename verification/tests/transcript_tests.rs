use plonk_core::dense_polynomial::DensePolynomial;
use plonk_core::field::Fp;
use plonk_core::modarith::P;
use plonk_core::prover::{assemble_proof, OpeningProof, PolyComm};
use plonk_core::transcript::{
    ft_blinder, max_t_padding, prover_next, public_eval_absorption, ProverAction, ProverCtx,
    ProverStage,
};

fn poly(coeffs: &[u64]) -> DensePolynomial {
    DensePolynomial { coeffs: coeffs.iter().map(|c| Fp::new(*c)).collect() }
}

fn comm(tag: u64) -> PolyComm<u64> {
    PolyComm { unshifted: vec![tag], shifted: None }
}

fn small_ctx() -> ProverCtx<u64> {
    ProverCtx {
        public_poly: poly(&[1]),
        public_comm: comm(10),
        w: (0..15).map(|i| poly(&[i as u64])).collect(),
        w_comm: (0..15).map(|i| comm(100 + i)).collect(),
        z_poly: poly(&[2]),
        z_comm: comm(200),
        t_poly: poly(&[3]),
        t_comm: PolyComm { unshifted: vec![300, 301], shifted: None },
        max_poly_size: 4,
        max_quot_size: 21,
    }
}

#[test]
fn transcript_runs_in_the_fixed_order() {
    let ctx = small_ctx();
    let mut stage = ProverStage::CommitPublic;
    let mut trace = String::new();
    let mut padding = 0usize;
    let mut absorbed: Vec<u64> = Vec::new();
    while !matches!(stage, ProverStage::Done) {
        let (next, action) = prover_next(stage, Fp::zero(), &ctx);
        match action {
            ProverAction::CommitPlain(_) => trace.push('P'),
            ProverAction::CommitHiding(_) => trace.push('H'),
            ProverAction::AbsorbComm(cm) => {
                trace.push('A');
                absorbed.push(cm.unshifted[0]);
            },
            ProverAction::AbsorbPadding { count } => {
                trace.push('D');
                padding = count;
            },
            ProverAction::Squeeze => trace.push('S'),
            ProverAction::Open => trace.push('O'),
        }
        stage = next;
    }
    // public, the fifteen witness columns, beta/gamma, the aggregation,
    // alpha, the quotient with its padding, zeta, then v, u and the opening
    let expected = format!("PA{}SSHASHADSSSO", "HA".repeat(15));
    assert_eq!(trace, expected);
    // absorptions in column order: the public commitment first
    assert_eq!(absorbed[0], 10);
    for i in 0..15 {
        assert_eq!(absorbed[1 + i], 100 + i as u64);
    }
    assert_eq!(absorbed[16], 200);
    assert_eq!(absorbed[17], 300);
    // ceil(21 / 4) = 6 slots, two filled by the quotient commitment
    assert_eq!(padding, 4);
}

#[test]
fn padding_count_fills_the_quotient_slot() {
    assert_eq!(max_t_padding(21, 4, 3), 3);
    assert_eq!(max_t_padding(21, 4, 6), 0);
    assert_eq!(max_t_padding(8, 4, 1), 1);
    assert_eq!(max_t_padding(0, 4, 0), 0);
}

#[test]
fn ft_blinder_formula() {
    // 10 - (5 - 1) * 3 = -2
    let b = ft_blinder(Fp::new(10), Fp::new(3), Fp::new(5));
    assert_eq!(b.v, P - 2);
    // a blinder-free quotient leaves the linearization blinder alone
    let b = ft_blinder(Fp::new(10), Fp::zero(), Fp::new(5));
    assert_eq!(b.v, 10);
}

#[test]
fn public_evaluations_absorb_conditionally() {
    let (a, b) = public_eval_absorption(true, Fp::new(8), Fp::new(9));
    assert_eq!(a.len(), 0);
    assert_eq!(b.len(), 0);
    let (a, b) = public_eval_absorption(false, Fp::new(8), Fp::new(9));
    assert_eq!(a.len(), 1);
    assert_eq!(b.len(), 1);
    assert_eq!(a[0].v, 8);
    assert_eq!(b[0].v, 9);
}

#[test]
fn proof_assembly_keeps_every_field() {
    let w_comm = vec![comm(1), comm(2)];
    let opening = OpeningProof {
        lr: vec![(7u64, 8u64)],
        delta: 9,
        z1: Fp::new(11),
        z2: Fp::new(12),
        sg: 13,
    };
    let proof = assemble_proof(
        w_comm,
        comm(3),
        comm(4),
        opening,
        Vec::new(),
        Fp::new(5),
        vec![Fp::new(6)],
        Vec::new(),
    );
    assert_eq!(proof.commitments.w_comm.len(), 2);
    assert_eq!(proof.commitments.w_comm[1].unshifted[0], 2);
    assert_eq!(proof.commitments.z_comm.unshifted[0], 3);
    assert_eq!(proof.commitments.t_comm.unshifted[0], 4);
    assert_eq!(proof.proof.delta, 9);
    assert_eq!(proof.proof.z1.v, 11);
    assert_eq!(proof.ft_eval1.v, 5);
    assert_eq!(proof.public[0].v, 6);
    assert_eq!(proof.prev_challenges.len(), 0);
}
