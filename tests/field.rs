use gf256::field::{gmul, GF256};
use gf256::inverse::{DivisionByZero, InverseTable};

#[test]
fn gmul_known_products() {
    assert_eq!(gmul(3, 5), 0x0f);
    assert_eq!(gmul(0x57, 0x83), 0xc1);
    assert_eq!(gmul(0x57, 0x13), 0xfe);
    assert_eq!(gmul(0x80, 2), 0x1b);
}

#[test]
fn add_is_self_inverse_and_commutative() {
    for a in 0..=255u8 {
        let x = GF256::new(a);
        assert_eq!(x.add(x).value(), 0);
        for b in 0..=255u8 {
            let y = GF256::new(b);
            assert_eq!(x.add(y), y.add(x));
        }
    }
}

#[test]
fn mul_is_commutative() {
    for a in 0..=255u8 {
        for b in 0..=255u8 {
            assert_eq!(gmul(a, b), gmul(b, a));
        }
    }
}

#[test]
fn mul_by_zero_and_one() {
    for a in 0..=255u8 {
        assert_eq!(gmul(a, 0), 0);
        assert_eq!(gmul(a, 1), a);
    }
}

#[test]
fn mul_distributes_sampled() {
    for a in (0..=255u8).step_by(7) {
        for b in 0..=255u8 {
            for c in (0..=255u8).step_by(5) {
                assert_eq!(gmul(a, b ^ c), gmul(a, b) ^ gmul(a, c));
            }
        }
    }
}

#[test]
fn xor_methods() {
    let mut x = GF256::new(0x0f);
    assert_eq!(x.bitxor(GF256::new(0xff)).value(), 0xf0);
    x.bitxor_assign(GF256::new(0x3c));
    assert_eq!(x.value(), 0x33);
}

#[test]
fn inverse_table_is_complete() {
    let t = InverseTable::build();
    for a in 1..=255u8 {
        let inv = t.invert(GF256::new(a));
        assert_eq!(GF256::new(a).mul(inv).value(), 1);
    }
    assert_eq!(t.invert(GF256::new(0x53)).value(), 0xca);
}

#[test]
fn division_undoes_multiplication() {
    let t = InverseTable::build();
    for a in 0..=255u8 {
        for b in 1..=255u8 {
            let p = GF256::new(a).mul(GF256::new(b));
            assert_eq!(p.div(GF256::new(b), &t), Ok(GF256::new(a)));
        }
    }
}

#[test]
fn division_by_zero_fails() {
    let t = InverseTable::build();
    for a in 0..=255u8 {
        assert_eq!(GF256::new(a).div(GF256::new(0), &t), Err(DivisionByZero));
    }
}

#[test]
fn hex_rendering() {
    assert_eq!(GF256::new(0x0f).to_hex_string(), "0f");
    assert_eq!(GF256::new(0).to_hex_string(), "00");
    assert_eq!(GF256::new(0xab).to_hex_string(), "ab");
}

#[test]
fn from_u8array_needs_sixteen_bytes() {
    let bytes: Vec<u8> = (0..16).map(|i| i * 3).collect();
    let elems = GF256::from_u8array(&bytes).unwrap();
    for i in 0..16 {
        assert_eq!(elems[i].value(), bytes[i]);
    }
    assert!(GF256::from_u8array(&bytes[..15]).is_err());
    assert!(GF256::from_u8array(&[0u8; 17]).is_err());
    assert!(GF256::from_u8array(&[]).is_err());
}

#[test]
fn mul_is_associative_sampled() {
    for a in (0..=255u8).step_by(3) {
        for b in (0..=255u8).step_by(5) {
            for c in 0..=255u8 {
                assert_eq!(gmul(gmul(a, b), c), gmul(a, gmul(b, c)));
            }
        }
    }
}
