use plonk_core::dense_polynomial::DensePolynomial;
use plonk_core::domains::Domain;
use plonk_core::field::Fp;
use plonk_core::modarith::P;
use plonk_core::prover::{
    blind, check_witness_cols, perm_aggreg, quotient_by_vanishing, random_field_element,
    ProofError,
};
use plonk_core::scalars::RandomOracles;

fn fp_vec(xs: &[u64]) -> Vec<Fp> {
    xs.iter().map(|x| Fp::new(*x)).collect()
}

#[test]
fn oracles_start_at_zero() {
    let o = RandomOracles::zero();
    assert_eq!(o.beta.v, 0);
    assert_eq!(o.gamma.v, 0);
    assert_eq!(o.alpha.v, 0);
    assert_eq!(o.zeta.v, 0);
    assert_eq!(o.v.v, 0);
    assert_eq!(o.u.v, 0);
}

#[test]
fn grand_product_closes_on_a_consistent_permutation() {
    // sigma maps every cell to itself, so each row's factor is one
    let sid = fp_vec(&[1, 5]);
    let s0 = fp_vec(&[1, 5]);
    let s1 = fp_vec(&[7, 35]);
    let s2 = fp_vec(&[11, 55]);
    let witness = fp_vec(&[1, 2, 3, 4, 5, 6]);
    let z = perm_aggreg(
        &witness,
        &s0,
        &s1,
        &s2,
        &sid,
        Fp::new(3),
        Fp::new(4),
        Fp::new(7),
        Fp::new(11),
    )
        .unwrap();
    assert_eq!(z.len(), 2);
    assert_eq!(z[0].v, 1);
    assert_eq!(z[1].v, 1);
}

#[test]
fn grand_product_rejects_a_broken_permutation() {
    let sid = fp_vec(&[1, 5]);
    let s0 = fp_vec(&[2, 5]);
    let s1 = fp_vec(&[7, 35]);
    let s2 = fp_vec(&[11, 55]);
    let witness = fp_vec(&[1, 2, 3, 4, 5, 6]);
    let r = perm_aggreg(
        &witness,
        &s0,
        &s1,
        &s2,
        &sid,
        Fp::new(3),
        Fp::new(4),
        Fp::new(7),
        Fp::new(11),
    );
    assert_eq!(r.err().unwrap(), ProofError::ProofCreation);
}

#[test]
fn witness_shape_is_checked() {
    let d = Domain::new(4).unwrap();
    let good = vec![fp_vec(&[1, 2, 3, 4]), fp_vec(&[5, 6, 7, 8])];
    assert!(check_witness_cols(&good, d).is_ok());
    let bad = vec![fp_vec(&[1, 2, 3, 4]), fp_vec(&[5, 6, 7])];
    assert_eq!(check_witness_cols(&bad, d).err().unwrap(), ProofError::WitnessCsInconsistent);
}

#[test]
fn quotient_demands_exact_division() {
    let d = Domain::new(2).unwrap();
    // (2 + x)(x^2 - 1) divides exactly
    let exact = DensePolynomial { coeffs: fp_vec(&[P - 2, P - 1, 2, 1]) };
    let q = quotient_by_vanishing(&exact, d).unwrap();
    assert_eq!(q.coeffs.iter().map(|c| c.v).collect::<Vec<_>>(), vec![2, 1]);
    // a leftover remainder is a proof-creation bug
    let inexact = DensePolynomial { coeffs: fp_vec(&[3, 2, 2, 1]) };
    assert_eq!(quotient_by_vanishing(&inexact, d).err().unwrap(), ProofError::PolyDivision);
}

#[test]
fn blinding_preserves_the_domain_values() {
    let d = Domain::new(4).unwrap();
    let f = DensePolynomial { coeffs: fp_vec(&[1, 2, 3]) };
    let g = blind(&f, d, 2);
    // the blinder is a multiple of the vanishing polynomial, so the
    // values on the domain do not move
    for i in 0..4 {
        let x = d.element(i);
        assert_eq!(f.evaluate(x).v, g.evaluate(x).v);
    }
    assert_eq!(g.coeffs.len(), 7);
}

#[test]
fn random_elements_are_reduced() {
    for _ in 0..32 {
        let x = random_field_element();
        assert!(x.v < P);
    }
}

#[test]
fn ft_combines_linearization_and_quotient() {
    let f = DensePolynomial { coeffs: fp_vec(&[5, 7]) };
    let t = DensePolynomial { coeffs: fp_vec(&[1, 2, 3]) };
    let ft = plonk_core::prover::ft_polynomial(&f, &t, Fp::new(3));
    // f - 2 t, coefficient by coefficient
    let got: Vec<u64> = ft.coeffs.iter().map(|c| c.v).collect();
    assert_eq!(got, vec![3, 3, P - 6]);
}

#[test]
fn batch_inversion_of_nothing() {
    let mut v: Vec<Fp> = Vec::new();
    plonk_core::field::batch_inversion(&mut v);
    assert_eq!(v.len(), 0);
}

#[test]
fn grand_product_survives_a_zero_denominator() {
    // the first row's sigma denominator is exactly zero: batch inversion
    // maps it to zero, the partial products collapse to zero, and the
    // closure check reports the failure instead of dividing by zero
    let sid = fp_vec(&[1, 5]);
    let s0 = fp_vec(&[2, 5]);
    let s1 = fp_vec(&[7, 35]);
    let s2 = fp_vec(&[11, 55]);
    let witness = fp_vec(&[P - 10, 2, 3, 4, 5, 6]);
    let r = perm_aggreg(
        &witness,
        &s0,
        &s1,
        &s2,
        &sid,
        Fp::new(3),
        Fp::new(4),
        Fp::new(7),
        Fp::new(11),
    );
    assert_eq!(r.err().unwrap(), ProofError::ProofCreation);
}
