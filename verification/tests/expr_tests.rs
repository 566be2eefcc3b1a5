use plonk_core::domains::Domain;
use plonk_core::expr::{Column, CurrOrNext, Expr, Variable};
use plonk_core::field::Fp;
use plonk_core::scalars::{ProofEvaluations, RandomOracles};

fn cell(i: usize, row: CurrOrNext) -> Expr {
    Expr::Cell(Variable { col: Column::Witness(i), row })
}

fn some_evals() -> ProofEvaluations {
    ProofEvaluations {
        w: (0..15).map(|i| Fp::new(100 + i)).collect(),
        z: Fp::new(77),
        lookup_sorted: vec![Fp::new(11), Fp::new(12)],
        lookup_aggreg: Fp::new(13),
        lookup_table: Fp::new(14),
    }
}

#[test]
fn peephole_zero_and_one() {
    // 0 + 3 * cell builds the product alone, no sum node, no one factor
    let v = Variable { col: Column::Witness(2), row: CurrOrNext::Curr };
    let e = Expr::Constant(Fp::zero()).add(Expr::Constant(Fp::new(3)).mul(Expr::Cell(v)));
    match &e {
        Expr::Mul(a, b) => {
            assert!(matches!(**a, Expr::Constant(c) if c.v == 3));
            assert!(matches!(**b, Expr::Cell(u) if u == v));
        },
        _ => panic!("peephole failed to drop the zero sum"),
    }
    // 1 * x gives back x; x * 1 gives back x; x + 0 gives back x
    assert!(matches!(Expr::Constant(Fp::one()).mul(Expr::Beta), Expr::Beta));
    assert!(matches!(Expr::Beta.mul(Expr::Constant(Fp::one())), Expr::Beta));
    assert!(matches!(Expr::Beta.add(Expr::Constant(Fp::zero())), Expr::Beta));
    // subtraction never simplifies
    assert!(matches!(Expr::Beta.sub(Expr::Constant(Fp::zero())), Expr::Sub(..)));
}

#[test]
fn degree_estimates() {
    let d1 = 1024u64;
    assert_eq!(Expr::Beta.degree(d1), 0);
    assert_eq!(Expr::ZkPolynomial.degree(d1), 3);
    assert_eq!(cell(0, CurrOrNext::Curr).degree(d1), 1024);
    let prod = cell(0, CurrOrNext::Curr).mul(cell(1, CurrOrNext::Curr));
    assert_eq!(prod.degree(d1), 1024 * 1024);
    let sum = cell(0, CurrOrNext::Curr).add(Expr::ZkPolynomial);
    assert_eq!(sum.degree(d1), 1024);
}

#[test]
fn scalar_evaluation() {
    let d = Domain::new(4).unwrap();
    let mut oracles = RandomOracles::zero();
    oracles.alpha = Fp::new(5);
    oracles.beta = Fp::new(9);
    oracles.gamma = Fp::new(21);
    let evals = [some_evals(), some_evals()];
    let pt = Fp::new(2);

    let alpha_sq = Expr::Alpha { power: 2 };
    assert_eq!(alpha_sq.evaluate(d, pt, &oracles, &evals).unwrap().v, 25);
    assert_eq!(Expr::Beta.evaluate(d, pt, &oracles, &evals).unwrap().v, 9);
    assert_eq!(Expr::Gamma.evaluate(d, pt, &oracles, &evals).unwrap().v, 21);
    let w3 = cell(3, CurrOrNext::Curr);
    assert_eq!(w3.evaluate(d, pt, &oracles, &evals).unwrap().v, 103);
    // (beta + w3) * gamma
    let e = Expr::Beta.add(w3).mul(Expr::Gamma);
    assert_eq!(e.evaluate(d, pt, &oracles, &evals).unwrap().v, (9 + 103) * 21);
    // l_0(2) = (2^4 - 1) / (2 - 1) = 15
    let l0 = Expr::UnnormalizedLagrangeBasis(0);
    assert_eq!(l0.evaluate(d, pt, &oracles, &evals).unwrap().v, 15);
    // the vanishing-rows polynomial at 1
    assert_eq!(Expr::ZkPolynomial.evaluate(d, Fp::one(), &oracles, &evals).unwrap().v, 4);
}

#[test]
fn scalar_evaluation_errors() {
    let d = Domain::new(4).unwrap();
    let oracles = RandomOracles::zero();
    let evals = [some_evals(), some_evals()];
    let pt = Fp::new(2);
    let joint = Expr::JointCombiner { power: 1 };
    assert!(joint.evaluate(d, pt, &oracles, &evals).is_err());
    let idx = Expr::Cell(
        Variable { col: Column::Index(plonk_core::expr::GateType::Generic), row: CurrOrNext::Curr },
    );
    assert!(idx.evaluate(d, pt, &oracles, &evals).is_err());
    // an error anywhere poisons the whole expression
    let mixed = Expr::Beta.add(joint);
    assert!(mixed.evaluate(d, pt, &oracles, &evals).is_err());
}

#[test]
fn monomials_merge_duplicate_keys() {
    // cell(a) cell(b) + cell(a) cell(b) has one monomial {a, b} with
    // coefficient 1 + 1
    let a = Variable { col: Column::Witness(0), row: CurrOrNext::Curr };
    let b = Variable { col: Column::Witness(1), row: CurrOrNext::Curr };
    let e = Expr::Cell(a).mul(Expr::Cell(b)).add(Expr::Cell(a).mul(Expr::Cell(b)));
    let mono = e.monomials();
    assert_eq!(mono.len(), 1);
    assert_eq!(mono[0].0, vec![a, b]);
    match &mono[0].1 {
        Expr::Add(x, y) => {
            assert!(matches!(**x, Expr::Constant(c) if c.v == 1));
            assert!(matches!(**y, Expr::Constant(c) if c.v == 1));
        },
        _ => panic!("expected the coefficients to merge"),
    }
}

#[test]
fn monomials_sort_keys() {
    // cell(b) * cell(a) stores its key in canonical order
    let a = Variable { col: Column::Witness(0), row: CurrOrNext::Curr };
    let b = Variable { col: Column::Z, row: CurrOrNext::Next };
    let e = Expr::Cell(b).mul(Expr::Cell(a));
    let mono = e.monomials();
    assert_eq!(mono.len(), 1);
    assert_eq!(mono[0].0, vec![a, b]);
}

#[test]
fn linearize_splits_and_fails() {
    let a = Variable { col: Column::Witness(0), row: CurrOrNext::Curr };
    let b = Variable { col: Column::Witness(1), row: CurrOrNext::Curr };
    let prod = Expr::Cell(a).mul(Expr::Cell(b));

    // neither variable evaluated: too many unknowns
    let r = prod.linearize(vec![]);
    assert_eq!(r.err().unwrap(), "Linearization failed");

    // a evaluated: b's column carries the coefficient Cell(a)
    let r = prod.linearize(vec![Column::Witness(0)]);
    let lin = r.ok().unwrap();
    assert_eq!(lin.index_terms.len(), 1);
    assert_eq!(lin.index_terms[0].0, Column::Witness(1));
    assert!(matches!(lin.index_terms[0].1, Expr::Cell(v) if v == a));
    assert!(matches!(lin.constant_term, Expr::Constant(c) if c.v == 0));

    // an unevaluated next-row variable cannot be linearized
    let bn = Variable { col: Column::Witness(1), row: CurrOrNext::Next };
    let r = Expr::Cell(a).mul(Expr::Cell(bn)).linearize(vec![Column::Witness(0)]);
    assert_eq!(r.err().unwrap(), "Linearization failed (needed polynomial value at \"next\" row)");

    // everything evaluated: all of it lands in the constant term
    let r = prod.linearize(vec![Column::Witness(0), Column::Witness(1)]);
    let lin = r.ok().unwrap();
    assert_eq!(lin.index_terms.len(), 0);
}

#[test]
fn combine_constraints_sums_alpha_powers() {
    let d = Domain::new(4).unwrap();
    let cs = vec![
        Expr::Constant(Fp::new(7)),
        Expr::Constant(Fp::new(9)),
        Expr::Constant(Fp::new(11)),
    ];
    let combined = Expr::combine_constraints(0, cs);
    let mut oracles = RandomOracles::zero();
    oracles.alpha = Fp::new(2);
    let evals = [some_evals(), some_evals()];
    let v = combined.evaluate(d, Fp::one(), &oracles, &evals).unwrap();
    // 7 + 2 * 9 + 4 * 11
    assert_eq!(v.v, 69);
    // a nonzero start uses alpha^start for the first constraint
    let combined = Expr::combine_constraints(2, vec![Expr::Constant(Fp::new(7))]);
    let v = combined.evaluate(d, Fp::one(), &oracles, &evals).unwrap();
    assert_eq!(v.v, 28);
}

#[test]
fn linearization_preserves_the_value() {
    // the constant term plus the index coefficients times their column
    // values gives back the full evaluation
    let d = Domain::new(4).unwrap();
    let mut oracles = RandomOracles::zero();
    oracles.beta = Fp::new(9);
    let evals = [some_evals(), some_evals()];
    let pt = Fp::new(2);
    let a = Variable { col: Column::Witness(0), row: CurrOrNext::Curr };
    let b = Variable { col: Column::Witness(1), row: CurrOrNext::Curr };
    let e = Expr::Cell(a).mul(Expr::Cell(b)).add(Expr::Beta);
    let whole = e.evaluate(d, pt, &oracles, &evals).unwrap();
    let lin = e.linearize(vec![Column::Witness(0)]).unwrap();
    let mut acc = lin.constant_term.evaluate(d, pt, &oracles, &evals).unwrap();
    for (col, coeff) in &lin.index_terms {
        let cv = Expr::Cell(Variable { col: *col, row: CurrOrNext::Curr })
            .evaluate(d, pt, &oracles, &evals)
            .unwrap();
        acc = acc.add(coeff.evaluate(d, pt, &oracles, &evals).unwrap().mul(cv));
    }
    assert_eq!(acc.v, whole.v);
}

#[test]
fn constants_from_integers() {
    let e = Expr::from(70000u64);
    assert!(matches!(e, Expr::Constant(c) if c.v == 70000 % plonk_core::modarith::P));
}
