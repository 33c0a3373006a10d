use f64_risc0::{
    equals, mont_red_cst, mont_red_var, BaseElement, DeserializationError, HintError,
    InverseHints, ELEMENT_BYTES, G, M, MODULUS_BITS, TWO_ADICITY,
};

fn e(v: u64) -> BaseElement {
    BaseElement::convert_into(v)
}

#[test]
fn modulus_and_identities() {
    assert_eq!(M, 18446744069414584321);
    assert_eq!(BaseElement::modulus(), 18446744069414584321);
    assert!(BaseElement::convert_into(0) == BaseElement::zero());
    assert!(BaseElement::convert_into(1) == BaseElement::one());
    assert_eq!(BaseElement::zero().inner(), 0);
    assert_eq!(BaseElement::one().inner(), 0xFFFF_FFFF);
    assert_eq!(BaseElement::get_modulus_le_bytes(), M.to_le_bytes().to_vec());
}

#[test]
fn generator_satisfies_fermat() {
    let g = BaseElement::generator();
    assert!(g == e(7));
    assert!(g.exp(M - 1) == BaseElement::one());
}

#[test]
fn root_of_unity_has_order_two_to_the_32() {
    let w = BaseElement::two_adic_root_of_unity();
    assert_eq!(w.as_int(), 1753635133440165772);
    assert_eq!(w.as_int(), G);
    assert_eq!(TWO_ADICITY, 32);
    assert_eq!(MODULUS_BITS, 64);
    assert_eq!(ELEMENT_BYTES, 8);
    assert_eq!((M - 1) % (1u64 << TWO_ADICITY), 0);
    assert_eq!(((M - 1) >> TWO_ADICITY) % 2, 1);
    assert!(w.exp(1u64 << 32) == BaseElement::one());
    assert!(w.exp(1u64 << 31) != BaseElement::one());
}

#[test]
fn product_of_ten_and_twenty() {
    assert_eq!((e(10) * e(20)).as_int(), 200);
}

#[test]
fn quadratic_one_is_identity_and_frobenius() {
    let one = [BaseElement::one(), BaseElement::zero()];
    let x = [e(123456789), e(M - 3)];
    let r = BaseElement::mul_quad(one, x);
    assert!(r[0] == x[0] && r[1] == x[1]);
    let f = BaseElement::frobenius_quad([e(3), e(5)]);
    assert_eq!(f[0].as_int(), 8);
    assert_eq!(f[1].as_int(), M - 5);
}

#[test]
fn quadratic_product_follows_phi_squared() {
    // φ * φ = φ - 2
    let phi = [BaseElement::zero(), BaseElement::one()];
    let r = BaseElement::mul_quad(phi, phi);
    assert_eq!(r[0].as_int(), M - 2);
    assert_eq!(r[1].as_int(), 1);
    // (2 + 3φ)(4 + 5φ) = 8 - 30 + (10 + 12 + 15)φ
    let r = BaseElement::mul_quad([e(2), e(3)], [e(4), e(5)]);
    assert_eq!(r[0].as_int(), M - 22);
    assert_eq!(r[1].as_int(), 37);
    let r = BaseElement::mul_base_quad([e(2), e(3)], e(10));
    assert_eq!((r[0].as_int(), r[1].as_int()), (20, 30));
}

#[test]
fn cubic_product_follows_phi_cubed() {
    // φ * φ^2 = φ^3 = φ + 1
    let r = BaseElement::mul_cubic(
        [BaseElement::zero(), BaseElement::one(), BaseElement::zero()],
        [BaseElement::zero(), BaseElement::zero(), BaseElement::one()],
    );
    assert_eq!((r[0].as_int(), r[1].as_int(), r[2].as_int()), (1, 1, 0));
    // (1 + 2φ + 3φ^2)(4 + 5φ + 6φ^2)
    let r = BaseElement::mul_cubic([e(1), e(2), e(3)], [e(4), e(5), e(6)]);
    assert_eq!(r[0].as_int(), 4 + 12 + 15);
    assert_eq!(r[1].as_int(), 5 + 8 + 12 + 15 + 18);
    assert_eq!(r[2].as_int(), 6 + 10 + 12 + 18);
    let r = BaseElement::mul_base_cubic([e(1), e(2), e(3)], e(3));
    assert_eq!((r[0].as_int(), r[1].as_int(), r[2].as_int()), (3, 6, 9));
}

#[test]
fn cubic_frobenius_fixes_base_field_and_cubes_to_identity() {
    let r = BaseElement::frobenius_cubic([e(42), BaseElement::zero(), BaseElement::zero()]);
    assert_eq!((r[0].as_int(), r[1].as_int(), r[2].as_int()), (42, 0, 0));
    let x = [e(5), e(6), e(7)];
    let once = BaseElement::frobenius_cubic(x);
    assert!(once[1] != x[1] || once[2] != x[2]);
    let thrice = BaseElement::frobenius_cubic(BaseElement::frobenius_cubic(once));
    assert!(thrice[0] == x[0] && thrice[1] == x[1] && thrice[2] == x[2]);
}

#[test]
fn quadratic_frobenius_twice_is_identity() {
    let x = [e(11), e(97)];
    let twice = BaseElement::frobenius_quad(BaseElement::frobenius_quad(x));
    assert!(twice[0] == x[0] && twice[1] == x[1]);
}

#[test]
fn ring_axioms_on_samples() {
    let samples = [0u64, 1, 2, 7, 0xFFFF_FFFF, 1 << 63, M - 1, M - 2, 123456789123456789];
    for &x in &samples {
        let a = e(x);
        assert!(a + BaseElement::zero() == a);
        assert!(a * BaseElement::one() == a);
        assert!(a - a == BaseElement::zero());
        assert!(a + (-a) == BaseElement::zero());
        assert!(a.double() == a + a);
        for &y in &samples {
            let b = e(y);
            assert!(a + b == b + a);
            assert!(a * b == b * a);
            for &z in &samples[..4] {
                let c = e(z);
                assert!((a + b) + c == a + (b + c));
                assert!(a * (b + c) == a * b + a * c);
            }
        }
    }
    assert_eq!((e(5) - e(7)).as_int(), M - 2);
    assert_eq!((-e(1)).as_int(), M - 1);
    assert_eq!(e(M - 1).double().as_int(), M - 2);
}

#[test]
fn inverse_law_on_samples() {
    for &x in &[1u64, 2, 7, 1 << 40, M - 1, 987654321987654321] {
        let a = e(x);
        assert!(a * a.inv() == BaseElement::one());
        assert!((e(3) / a) * a == e(3));
    }
    assert!(BaseElement::zero().inv() == BaseElement::zero());
    assert_eq!(e(2).inv().as_int(), (M + 1) / 2);
}

#[test]
fn exponentiation() {
    assert!(BaseElement::zero().exp(0) == BaseElement::one());
    assert!(e(12345).exp(0) == BaseElement::one());
    assert_eq!(e(3).exp(5).as_int(), 243);
    assert_eq!(e(2).exp(64).as_int(), 0xFFFF_FFFF);
    for &x in &[0u64, 1, 2, 3, 1 << 50, M - 1] {
        let a = e(x);
        assert!(a.exp7() == a.exp(7));
        assert!(a.square() == a * a);
    }
    assert_eq!(e(2).exp7().as_int(), 128);
}

#[test]
fn serialization_round_trip() {
    for &x in &[0u64, 1, 255, 256, M - 1, 1 << 63] {
        let a = e(x);
        let mut out = Vec::new();
        a.write_into(&mut out);
        assert_eq!(out.len(), 8);
        assert_eq!(out, x.to_le_bytes().to_vec());
        assert!(u64::from_le_bytes([out[0], out[1], out[2], out[3], out[4], out[5], out[6], out[7]]) < M);
        let back = BaseElement::try_from_bytes(&out).unwrap();
        assert!(back == a);
        let back: BaseElement = BaseElement::try_from(&out[..]).unwrap();
        assert!(back == a);
        assert!(BaseElement::from_random_bytes(&out) == Some(a));
    }
    // a value at or above M is reduced when written
    let mut out = Vec::new();
    e(M + 5).write_into(&mut out);
    assert_eq!(out, 5u64.to_le_bytes().to_vec());
}

#[test]
fn deserialization_boundaries() {
    assert_eq!(
        BaseElement::try_from_bytes(&[1u8; 7]).err(),
        Some(DeserializationError::InvalidValue)
    );
    assert_eq!(
        BaseElement::try_from_bytes(&[1u8; 9]).err(),
        Some(DeserializationError::InvalidValue)
    );
    assert_eq!(
        BaseElement::try_from_bytes(&M.to_le_bytes()).err(),
        Some(DeserializationError::InvalidValue)
    );
    assert_eq!(
        BaseElement::try_from_bytes(&u64::MAX.to_le_bytes()).err(),
        Some(DeserializationError::InvalidValue)
    );
    assert_eq!(BaseElement::try_from_bytes(&(M - 1).to_le_bytes()).unwrap().as_int(), M - 1);
    assert!(BaseElement::from_random_bytes(&[0u8; 3]).is_none());
}

#[test]
fn read_from_advances_or_fails() {
    let mut src = Vec::new();
    e(17).write_into(&mut src);
    src.extend_from_slice(&M.to_le_bytes());
    src.extend_from_slice(&[1, 2, 3]);
    let mut pos = 0usize;
    assert_eq!(BaseElement::read_from(&src, &mut pos).unwrap().as_int(), 17);
    assert_eq!(pos, 8);
    assert_eq!(
        BaseElement::read_from(&src, &mut pos).err(),
        Some(DeserializationError::InvalidValue)
    );
    assert_eq!(pos, 8);
    pos = 16;
    assert_eq!(
        BaseElement::read_from(&src, &mut pos).err(),
        Some(DeserializationError::UnexpectedEOF)
    );
    assert_eq!(pos, 16);
}

#[test]
fn constant_time_equality() {
    for &x in &[0u64, 1, M, u64::MAX, 1 << 63] {
        assert_eq!(equals(x, x), 0xFFFF_FFFF_FFFF_FFFF);
        assert_eq!(equals(x, x ^ 1), 0);
        assert_eq!(equals(x, x.wrapping_add(1 << 63)), 0);
    }
    assert!(e(5) == e(5));
    assert!(e(5) != e(6));
}

#[test]
fn conversions_from_integers_and_bytes() {
    assert!(BaseElement::from(5u8) == e(5));
    assert!(BaseElement::from(500u16) == e(500));
    assert!(BaseElement::from(70000u32) == e(70000));
    assert!(BaseElement::from(M + 3) == e(3));
    assert!(BaseElement::from(u128::MAX) == e(((u128::MAX) % (M as u128)) as u64));
    assert!(BaseElement::from((M as u128) * 5 + 9) == e(9));
    assert!(BaseElement::from(1u128 << 64) == e(0xFFFF_FFFF));
    assert!(BaseElement::from(42u64.to_le_bytes()) == e(42));
    assert!(BaseElement::from((M + 1).to_le_bytes()) == e(1));
    assert!(BaseElement::from_le_array(7u64.to_le_bytes()) == e(7));
    let a = e(99);
    assert!(BaseElement::from_mont(a.inner()) == a);
    assert!(a.conjugate() == a);
    assert_eq!(a.as_bytes(), a.inner().to_le_bytes().to_vec());
}

#[test]
fn montgomery_reductions_agree() {
    let samples = [
        0u128,
        1,
        (M as u128) * (M as u128) - 1,
        u128::MAX,
        (M as u128) << 63,
        123456789u128 << 70,
    ];
    for &x in &samples {
        let a = mont_red_cst(x);
        let b = mont_red_var(x);
        assert_eq!((a as u128) % (M as u128), (b as u128) % (M as u128));
        // a * 2^64 = x (mod M)
        let lhs = ((a as u128 % M as u128) * (0xFFFF_FFFFu128)) % (M as u128);
        assert_eq!(lhs, x % (M as u128));
    }
    assert!(mont_red_cst((M as u128) * (M as u128) - 1) < M);
}

#[test]
fn bulk_byte_views() {
    let xs = vec![e(1), e(2), e(M - 1)];
    let bytes = BaseElement::elements_as_bytes(&xs);
    assert_eq!(bytes.len(), 24);
    assert_eq!(&bytes[8..16], &xs[1].inner().to_le_bytes());
    let back = BaseElement::bytes_as_elements(&bytes).unwrap();
    assert_eq!(back.len(), 3);
    assert!(back[0] == xs[0] && back[1] == xs[1] && back[2] == xs[2]);
    assert_eq!(
        BaseElement::bytes_as_elements(&bytes[..23]).err(),
        Some(DeserializationError::InvalidValue)
    );
    assert_eq!(
        BaseElement::bytes_as_elements(&u64::MAX.to_le_bytes()).err(),
        Some(DeserializationError::InvalidValue)
    );
    let zeros = BaseElement::zeroed_vector(4);
    assert_eq!(zeros.len(), 4);
    assert!(zeros.iter().all(|z| *z == BaseElement::zero()));
    assert_eq!(BaseElement::as_base_elements(&xs).len(), 3);
}

#[test]
fn base_hints_generate_then_consume() {
    let mut hints = InverseHints::new();
    let a = e(123456);
    let plain = a.inv();
    // nothing cached: computed directly
    assert!(a.inv_consuming(&hints).unwrap() == plain);
    let generated = a.inv_generating(&mut hints);
    assert!(generated == plain);
    assert_eq!(hints.lookup_base(a.inner()), Some(plain.inner()));
    assert!(a.inv_consuming(&hints).unwrap() == plain);
    // zero's recorded "inverse" fails the check
    let z = BaseElement::zero();
    z.inv_generating(&mut hints);
    assert_eq!(z.inv_consuming(&hints).err(), Some(HintError::InconsistentHint));
    // a wrong cached value fails the check
    hints.record_base(a.inner(), e(5).inner());
    assert_eq!(a.inv_consuming(&hints).err(), Some(HintError::InconsistentHint));
    // a word that is not canonical fails the check
    hints.record_base(a.inner(), u64::MAX);
    assert_eq!(a.inv_consuming(&hints).err(), Some(HintError::InconsistentHint));
}

#[test]
fn quadratic_hints_are_keyed_by_canonical_integers() {
    let mut hints = InverseHints::new();
    let a = [e(3), e(4)];
    let b = [e(10), e(20)];
    assert!(BaseElement::use_hint_quad(a, &hints).is_none());
    BaseElement::save_hint_quad(a, b, &mut hints);
    assert_eq!(hints.lookup_quad((3, 4)), Some((10, 20)));
    // lookup goes by raw words: the element whose words are 3 and 4 finds the entry
    let raw = [BaseElement::from_mont(3), BaseElement::from_mont(4)];
    let found = BaseElement::use_hint_quad(raw, &hints).unwrap();
    assert!(found[0] == b[0] && found[1] == b[1]);
    // the element that stands for 3 and 4 has other words and finds nothing
    assert!(BaseElement::use_hint_quad(a, &hints).is_none());
}

#[test]
fn cubic_hints_are_unsupported() {
    let mut hints = InverseHints::new();
    let a = [e(1), e(2), e(3)];
    assert_eq!(BaseElement::use_hint_cubic(a, &hints).err(), Some(HintError::Unsupported));
    assert_eq!(BaseElement::save_hint_cubic(a, a, &mut hints), Err(HintError::Unsupported));
}

#[test]
fn order_follows_raw_words_and_default_is_zero() {
    assert!(BaseElement::default() == BaseElement::zero());
    assert!(BaseElement::from_mont(3) < BaseElement::from_mont(4));
    // the element that stands for 1 has the larger word here
    assert!(e(1) > BaseElement::from_mont(5));
    assert_eq!(e(9).cmp(&e(9)), std::cmp::Ordering::Equal);
}
