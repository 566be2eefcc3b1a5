use plonk_core::dense_polynomial::DensePolynomial;
use plonk_core::domains::Domain;
use plonk_core::field::Fp;
use plonk_core::modarith::P;

fn poly(coeffs: &[u64]) -> DensePolynomial {
    DensePolynomial { coeffs: coeffs.iter().map(|c| Fp::new(*c)).collect() }
}

#[test]
fn test_chunk() {
    let one = Fp::one();
    let two = one.add(one);
    let three = two.add(one);

    // 1 + x + x^2 + x^3 + x^4 + x^5 + x^6 + x^7
    let coeffs = [one, one, one, one, one, one, one, one];
    let f = DensePolynomial { coeffs: coeffs.to_vec() };
    let evals = f.to_chunked_polynomial(2).evaluate_chunks(two);
    for i in 0..4 {
        assert!(evals[i] == three);
    }
}

#[test]
fn chunk_counts_and_contents() {
    let f = poly(&[1, 2, 3, 4, 5, 6, 7, 8]);
    let ch = f.to_chunked_polynomial(3);
    assert_eq!(ch.polys.len(), 3);
    assert_eq!(ch.polys[0].coeffs.len(), 3);
    assert_eq!(ch.polys[2].coeffs.len(), 2);
    assert_eq!(ch.polys[2].coeffs[1].v, 8);
}

#[test]
fn scale_and_shift() {
    let f = poly(&[1, 2, 3]);
    let g = f.scale(Fp::new(10));
    assert_eq!(g.coeffs.iter().map(|c| c.v).collect::<Vec<_>>(), vec![10, 20, 30]);
    let h = f.shiftr(2);
    assert_eq!(h.coeffs.iter().map(|c| c.v).collect::<Vec<_>>(), vec![0, 0, 1, 2, 3]);
}

#[test]
fn horner_evaluation() {
    let f = poly(&[1, 2, 3]);
    // 1 + 2 * 2 + 3 * 4 = 17
    assert_eq!(f.evaluate(Fp::new(2)).v, 17);
    assert_eq!(DensePolynomial::eval_polynomial(&f.coeffs, Fp::new(2)).v, 17);
    assert_eq!(DensePolynomial::eval_polynomial(&[], Fp::new(2)).v, 0);
}

#[test]
fn sums_and_differences() {
    let f = poly(&[1, 2, 3]);
    let g = poly(&[5, 6]);
    let s = f.add(&g);
    assert_eq!(s.coeffs.iter().map(|c| c.v).collect::<Vec<_>>(), vec![6, 8, 3]);
    let d = g.sub(&f);
    assert_eq!(d.coeffs.iter().map(|c| c.v).collect::<Vec<_>>(), vec![4, 4, P - 3]);
    assert!(f.sub(&f).is_zero());
}

#[test]
fn vanishing_multiplication_and_division() {
    let d = Domain::new(2).unwrap();
    // (1 + 2x)(x^2 - 1) = -1 - 2x + x^2 + 2x^3
    let f = poly(&[1, 2]);
    let g = f.mul_by_vanishing_poly(d);
    assert_eq!(g.coeffs.iter().map(|c| c.v).collect::<Vec<_>>(), vec![P - 1, P - 2, 1, 2]);

    // dividing (2 + x)(x^2 - 1) + (5 + 3x) by x^2 - 1
    let h = poly(&[3, 2, 2, 1]);
    let (q, r) = h.divide_by_vanishing_poly(d);
    assert_eq!(q.coeffs.iter().map(|c| c.v).collect::<Vec<_>>(), vec![2, 1]);
    assert_eq!(r.coeffs.iter().map(|c| c.v).collect::<Vec<_>>(), vec![5, 3]);
}

#[test]
fn chunked_evaluation_recombines() {
    // evaluating the chunks at x and recombining them at x^size gives
    // the full evaluation: 2^8 - 1 = 255 for 1 + x + ... + x^7 at 2
    let f = poly(&[1, 1, 1, 1, 1, 1, 1, 1]);
    let chunks = f.eval(Fp::new(2), 2);
    assert_eq!(chunks.len(), 4);
    for c in &chunks {
        assert_eq!(c.v, 3);
    }
    let whole = DensePolynomial::eval_polynomial(&chunks, Fp::new(4));
    assert_eq!(whole.v, f.evaluate(Fp::new(2)).v);
    assert_eq!(whole.v, 255);
}

#[test]
fn degenerate_shapes() {
    let d = Domain::new(2).unwrap();
    // too short to divide: everything is remainder
    let p = poly(&[4]);
    let (q, r) = p.divide_by_vanishing_poly(d);
    assert_eq!(q.coeffs.len(), 0);
    assert_eq!(r.coeffs.len(), 1);
    assert_eq!(r.coeffs[0].v, 4);
    // an empty polynomial has no chunks and evaluates to zero
    let empty = poly(&[]);
    assert_eq!(empty.to_chunked_polynomial(3).polys.len(), 0);
    assert_eq!(empty.evaluate(Fp::new(9)).v, 0);
    assert!(empty.is_zero());
}
