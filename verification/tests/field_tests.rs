use plonk_core::field::{batch_inversion, Fp};
use plonk_core::modarith::P;

#[test]
fn field_ops_basics() {
    let a = Fp::new(12345);
    let b = Fp::new(54321);
    assert_eq!(a.add(b).v, (12345 + 54321) % P);
    assert_eq!(a.sub(b).add(b).v, a.v);
    assert_eq!(a.mul(b).v, 12345u64 * 54321 % P);
    assert_eq!(Fp::new(P).v, 0);
    assert!(Fp::zero().is_zero());
    assert!(Fp::one().is_one());
    assert_eq!(a.neg().add(a).v, 0);
}

#[test]
fn generator_has_full_order() {
    let g = Fp::new(3);
    assert_eq!(g.pow(65536).v, 1);
    assert_eq!(g.pow(32768).v, P - 1);
}

#[test]
fn inverse_of_nonzero_multiplies_to_one() {
    for x in [1u64, 2, 3, 4096, 65536, 40961] {
        let a = Fp::new(x);
        assert_eq!(a.mul(a.inverse()).v, 1);
    }
    assert_eq!(Fp::zero().inverse().v, 0);
}

#[test]
fn batch_inversion_twice_is_identity() {
    let original = vec![
        Fp::new(7),
        Fp::zero(),
        Fp::new(65536),
        Fp::new(1),
        Fp::zero(),
        Fp::new(12321),
    ];
    let mut v = original.clone();
    batch_inversion(&mut v);
    // zeros pass through, everything else is inverted
    assert_eq!(v[1].v, 0);
    assert_eq!(v[4].v, 0);
    assert_eq!(v[0].mul(Fp::new(7)).v, 1);
    batch_inversion(&mut v);
    for (x, y) in v.iter().zip(original.iter()) {
        assert_eq!(x.v, y.v);
    }
}
