use maths_fun::gf2::GF2;

#[test]
fn test() {
    let f: GF2 = GF2::additive_identity();
    let t: GF2 = GF2::multiplicative_identity();

    assert_eq!(t, f.add(t));
}

#[test]
fn field_laws_exhaustive() {
    let elements = [GF2::additive_identity(), GF2::multiplicative_identity()];
    let zero = GF2::additive_identity();
    let one = GF2::multiplicative_identity();
    for a in elements {
        for b in elements {
            assert_eq!(a.add(b), b.add(a));
            assert_eq!(a.multiply(b), b.multiply(a));
            for c in elements {
                assert_eq!(a.add(b).add(c), a.add(b.add(c)));
                assert_eq!(a.multiply(b).multiply(c), a.multiply(b.multiply(c)));
                assert_eq!(a.multiply(b.add(c)), a.multiply(b).add(a.multiply(c)));
            }
        }
        assert_eq!(a.add(zero), a);
        assert_eq!(a.multiply(one), a);
        assert_eq!(a.additive_inverse(), a);
        assert_eq!(a.add(a.additive_inverse()), zero);
    }
}

#[test]
fn multiplicative_inverse_negates_the_bit() {
    let zero = GF2::additive_identity();
    let one = GF2::multiplicative_identity();
    assert_eq!(zero.multiplicative_inverse(), one);
    assert_eq!(one.multiplicative_inverse(), zero);
    // The nonzero element is nonetheless its own inverse under multiplication.
    assert_eq!(one.multiply(one), one);
}

#[test]
fn construction_from_bits() {
    assert_eq!(GF2::new(false), GF2::additive_identity());
    assert_eq!(GF2::new(true), GF2::multiplicative_identity());
    assert!(GF2::new(true).bit());
    assert!(!GF2::new(false).bit());
}
