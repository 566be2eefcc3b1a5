use plonk_core::domains::{Domain, EvaluationDomains};
use plonk_core::field::Fp;
use plonk_core::modarith::P;

#[test]
fn domain_selection() {
    // the sizes are the smallest powers of two at least the bounds,
    // and the product domain covers 3|K| - 3
    let ds = EvaluationDomains::create(1000, 5, 2000).unwrap();
    assert_eq!(ds.h.size, 1024);
    assert_eq!(ds.x.size, 8);
    assert_eq!(ds.k.size, 2048);
    assert_eq!(ds.b.size, 8192);
    assert!(ds.b.size >= 3 * ds.k.size - 3);
}

#[test]
fn domain_selection_fails_past_the_two_adicity() {
    assert!(EvaluationDomains::create(70000, 1, 1).is_none());
    // |K| = 32768 forces |B| >= 98301, past the largest subgroup
    assert!(EvaluationDomains::create(1, 1, 30000).is_none());
    assert!(EvaluationDomains::create(65536, 65536, 16384).is_some());
}

#[test]
fn domain_generator_and_vanishing() {
    let d = Domain::new(4).unwrap();
    assert_eq!(d.size, 4);
    // the generator has order exactly four
    assert_eq!(d.group_gen.pow(4).v, 1);
    assert_ne!(d.group_gen.pow(2).v, 1);
    // Z_D vanishes on the domain and nowhere nearby
    for i in 0..4 {
        assert_eq!(d.evaluate_vanishing_polynomial(d.element(i)).v, 0);
    }
    // Z_D(2) = 2^4 - 1 = 15
    assert_eq!(d.evaluate_vanishing_polynomial(Fp::new(2)).v, 15);
}

#[test]
fn tiny_and_nested_domains() {
    let d1 = Domain::new(0).unwrap();
    assert_eq!(d1.size, 1);
    let d2 = Domain::new(2).unwrap();
    assert_eq!(d2.group_gen.v, P - 1);
    let d8 = Domain::new(8).unwrap();
    // the eight-fold generator raised to the fourth gives the square root
    assert_eq!(d8.group_gen.pow(4).v, d2.group_gen.v);
    assert_eq!(d8.group_gen.v, 4096);
}
