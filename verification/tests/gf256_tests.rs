use circ_das::gf256::{add, Gf256};

#[test]
fn tables_full_period() {
    // Every nonzero element appears exactly once as a power of g.
    let f = Gf256::new();
    let mut seen = [false; 256];
    for i in 0..255 {
        let v = f.exp_g(i);
        assert_ne!(v, 0);
        assert!(!seen[v as usize], "g not a generator: repeat at i={i}");
        seen[v as usize] = true;
    }
    // 1..=255 all seen.
    for (x, s) in seen.iter().enumerate().skip(1) {
        assert!(*s, "element {x} never produced");
    }
}

#[test]
fn mul_zero_and_identity() {
    let f = Gf256::new();
    for a in 0u16..=255 {
        let a = a as u8;
        assert_eq!(f.mul(a, 0), 0);
        assert_eq!(f.mul(0, a), 0);
        assert_eq!(f.mul(a, 1), a);
        assert_eq!(f.mul(1, a), a);
    }
}

#[test]
fn mul_commutative_and_inverse() {
    let f = Gf256::new();
    for a in 1u16..=255 {
        let a = a as u8;
        // inverse
        assert_eq!(f.mul(a, f.inv(a)), 1, "inv failed for {a}");
        for b in 1u16..=255 {
            let b = b as u8;
            assert_eq!(f.mul(a, b), f.mul(b, a));
            // division is the inverse of multiplication
            assert_eq!(f.div(f.mul(a, b), b), a);
        }
    }
}

#[test]
fn distributive() {
    // a*(b+c) = a*b + a*c ; brute over a small but representative sweep.
    let f = Gf256::new();
    for a in 0u16..=255u16 {
        for b in (0u16..=255).step_by(17) {
            for c in (0u16..=255).step_by(19) {
                let (a, b, c) = (a as u8, b as u8, c as u8);
                let lhs = f.mul(a, add(b, c));
                let rhs = add(f.mul(a, b), f.mul(a, c));
                assert_eq!(lhs, rhs);
            }
        }
    }
}

#[test]
fn known_products_of_the_0x11d_field() {
    let f = Gf256::new();
    // x * x^7 = x^8 = x^4 + x^3 + x^2 + 1 under the 0x11d polynomial.
    assert_eq!(f.mul(0x02, 0x80), 0x1d);
    assert_eq!(f.mul(0x80, 0x02), 0x1d);
    assert_eq!(f.mul(0x03, 0x07), 0x09);
    assert_eq!(f.exp_g(0), 1);
    assert_eq!(f.exp_g(1), 2);
    assert_eq!(f.exp_g(8), 0x1d);
    // g^255 = 1 wraps to the start of the cycle.
    assert_eq!(f.exp_g(255), 1);
    assert_eq!(f.exp_g(256), 2);
}

#[test]
fn associativity_and_division_edge_cases() {
    let f = Gf256::new();
    for a in (0u16..=255).step_by(7) {
        for b in (0u16..=255).step_by(11) {
            for c in (0u16..=255).step_by(13) {
                let (a, b, c) = (a as u8, b as u8, c as u8);
                assert_eq!(f.mul(f.mul(a, b), c), f.mul(a, f.mul(b, c)));
            }
        }
    }
    // 0 / b = 0 and 0 / 0 = 0.
    assert_eq!(f.div(0, 7), 0);
    assert_eq!(f.div(0, 0), 0);
    assert_eq!(f.inv(1), 1);
    assert_eq!(add(0x53, 0xca), 0x99);
}
