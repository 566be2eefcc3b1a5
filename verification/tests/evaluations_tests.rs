use plonk_core::domains::Domain;
use plonk_core::evaluations::{
    l0_1, pows, unnormalized_lagrange_evals, DomainTag, EnvDomains, Environment, Evaluations,
};
use plonk_core::expr::{Column, CurrOrNext, Expr, GateType, Variable};
use plonk_core::field::Fp;

fn on_d8(d8: Domain, vals: Vec<u64>) -> Evaluations {
    assert_eq!(vals.len() as u64, d8.size);
    Evaluations { evals: vals.into_iter().map(Fp::new).collect(), domain: d8 }
}

// a small environment over |H| = 2, with eight-fold vectors of length 16
fn tiny_env() -> Environment {
    let d1 = Domain::new(2).unwrap();
    let d4 = Domain::new(8).unwrap();
    let d8 = Domain::new(16).unwrap();
    let flat = |k: u64| on_d8(d8, (0..16).map(|i| k * 1000 + i).collect());
    let witness: Vec<Evaluations> = (0..15).map(|c| flat(c as u64 + 1)).collect();
    let mut index: Vec<Option<Evaluations>> = Vec::new();
    for _ in 0..7 {
        index.push(None);
    }
    index[1] = Some(flat(40));
    Environment {
        witness,
        zk_polynomial: flat(20),
        z: flat(21),
        lookup_sorted: vec![flat(22)],
        lookup_aggreg: flat(23),
        lookup_table: flat(24),
        lookup_selectors: vec![flat(25)],
        index,
        alpha: Fp::new(5),
        beta: Fp::new(9),
        gamma: Fp::new(21),
        joint_combiner: Fp::new(2),
        domain: EnvDomains { d1, d4, d8 },
        l0_1: l0_1(d1),
    }
}

#[test]
fn powers_start_at_one() {
    let v = pows(Fp::new(3), 5);
    let expected = [1u64, 3, 9, 27, 81];
    assert_eq!(v.len(), 5);
    for (x, e) in v.iter().zip(expected.iter()) {
        assert_eq!(x.v, *e);
    }
    assert_eq!(pows(Fp::new(3), 0).len(), 1);
    assert_eq!(pows(Fp::new(3), 1).len(), 2);
}

#[test]
fn l0_1_products() {
    let d1 = Domain::new(2).unwrap();
    assert_eq!(l0_1(d1).v, 2);
    let d = Domain::new(4).unwrap();
    assert_eq!(l0_1(d).v, 4);
}

#[test]
fn unnormalized_lagrange_on_the_extended_domain() {
    // |H| = 2, stride 4: explicit values of l_0 on the eight points,
    // cross-checked against l_0(x) = x + 1 off the base domain
    let env = tiny_env();
    let ev = unnormalized_lagrange_evals(env.l0_1, 0, DomainTag::D4, &env);
    let expected = [2u64, 4097, 65282, 17, 0, 61442, 257, 65522];
    assert_eq!(ev.evals.len(), 8);
    for (x, e) in ev.evals.iter().zip(expected.iter()) {
        assert_eq!(x.v, *e);
    }
    // and l_1 takes the value w^(-1) l0_1 at the point w itself
    let ev1 = unnormalized_lagrange_evals(env.l0_1, 1, DomainTag::D4, &env);
    assert_eq!(ev1.evals[0].v, 0);
    let w_inv = env.domain.d1.group_gen.inverse();
    assert_eq!(ev1.evals[4].v, w_inv.mul(env.l0_1).v);
}

#[test]
fn evaluations_on_the_base_domain() {
    // cell + beta has degree |H|, so it lives on the base domain and
    // reads the witness vector with stride eight
    let env = tiny_env();
    let e = Expr::Cell(Variable { col: Column::Witness(0), row: CurrOrNext::Curr }).add(Expr::Beta);
    let out = e.evaluations(&env);
    assert_eq!(out.evals.len(), 2);
    assert_eq!(out.evals[0].v, 1000 + 9);
    assert_eq!(out.evals[1].v, 1008 + 9);
}

#[test]
fn evaluations_wrap_at_the_last_point() {
    // a degree-8|H| product of four cells, one on the next row: the
    // shifted read wraps past the end of the source vector
    let env = tiny_env();
    let c = |i: usize, row: CurrOrNext| Expr::Cell(Variable { col: Column::Witness(i), row });
    let e = c(0, CurrOrNext::Next).mul(c(1, CurrOrNext::Curr)).mul(c(2, CurrOrNext::Curr)).mul(
        c(3, CurrOrNext::Curr),
    );
    let out = e.evaluations(&env);
    assert_eq!(out.evals.len(), 16);
    let w = |k: u64, i: u64| Fp::new(k * 1000 + i);
    // an inner point
    assert_eq!(out.evals[3].v, w(1, 4).mul(w(2, 3)).mul(w(3, 3)).mul(w(4, 3)).v);
    // the final point wraps the shifted source back to index zero
    assert_eq!(out.evals[15].v, w(1, 0).mul(w(2, 15)).mul(w(3, 15)).mul(w(4, 15)).v);
}

#[test]
fn evaluations_of_missing_and_present_selectors() {
    let env = tiny_env();
    // the environment has no selector for this gate: the cell is zero
    let absent = Expr::Cell(
        Variable { col: Column::Index(GateType::Poseidon), row: CurrOrNext::Curr },
    );
    let out = absent.evaluations(&env);
    assert_eq!(out.evals.len(), 2);
    assert_eq!(out.evals[0].v, 0);
    assert_eq!(out.evals[1].v, 0);
    // this one is present and reads its vector
    let present = Expr::Cell(
        Variable { col: Column::Index(GateType::Generic), row: CurrOrNext::Curr },
    );
    let out = present.evaluations(&env);
    assert_eq!(out.evals[1].v, 40008);
}

#[test]
fn evaluations_of_the_lagrange_and_zk_leaves() {
    let env = tiny_env();
    let out = Expr::UnnormalizedLagrangeBasis(0).evaluations(&env);
    assert_eq!(out.evals.len(), 2);
    assert_eq!(out.evals[0].v, 2);
    assert_eq!(out.evals[1].v, 0);
    // the zk leaf has degree three, so it moves to the four-fold domain
    // and reads the precomputed vector with stride two
    let out = Expr::ZkPolynomial.evaluations(&env);
    assert_eq!(out.evals.len(), 8);
    assert_eq!(out.evals[0].v, 20000);
    assert_eq!(out.evals[1].v, 20002);
    assert_eq!(out.evals[7].v, 20014);
    // oracle leaves broadcast their constants
    let out = Expr::Alpha { power: 3 }.evaluations(&env);
    assert_eq!(out.evals[0].v, 125);
    assert_eq!(out.evals[1].v, 125);
}
