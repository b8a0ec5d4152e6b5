use baby_bear::BabyBear;

type F = BabyBear;

fn f(n: u32) -> F {
    F::from_canonical_u32(n)
}

#[test]
fn test_baby_bear() {
    let f = F::from_canonical_u32(100);
    assert_eq!(f.as_canonical_u64(), 100);

    let f = F::from_canonical_u32(0);
    assert!(f.is_zero());

    let f = F::from_wrapped_u32(F::ORDER_U32);
    assert!(f.is_zero());

    let f_1 = F::one();
    let f_1_copy = F::from_canonical_u32(1);

    let expected_result = F::zero();
    assert_eq!(f_1 - f_1_copy, expected_result);

    let expected_result = F::two();
    assert_eq!(f_1 + f_1_copy, expected_result);

    let f_2 = F::from_canonical_u32(2);
    let expected_result = F::from_canonical_u32(3);
    assert_eq!(f_1 + f_1_copy * f_2, expected_result);

    let expected_result = F::from_canonical_u32(5);
    assert_eq!(f_1 + f_2 * f_2, expected_result);

    let f_p_minus_1 = F::from_canonical_u32(F::ORDER_U32 - 1);
    let expected_result = F::zero();
    assert_eq!(f_1 + f_p_minus_1, expected_result);

    let f_p_minus_2 = F::from_canonical_u32(F::ORDER_U32 - 2);
    let expected_result = F::from_canonical_u32(F::ORDER_U32 - 3);
    assert_eq!(f_p_minus_1 + f_p_minus_2, expected_result);

    let expected_result = F::from_canonical_u32(1);
    assert_eq!(f_p_minus_1 - f_p_minus_2, expected_result);

    let expected_result = f_p_minus_1;
    assert_eq!(f_p_minus_2 - f_p_minus_1, expected_result);

    let expected_result = f_p_minus_2;
    assert_eq!(f_p_minus_1 - f_1, expected_result);

    let m1 = F::from_canonical_u32(0x34167c58);
    let m2 = F::from_canonical_u32(0x61f3207b);
    let expected_prod = F::from_canonical_u32(0x1b5c8046);
    assert_eq!(m1 * m2, expected_prod);
}

#[test]
fn inverse() {
    assert!(F::zero().try_inverse().is_none());
    assert_eq!(F::one().try_inverse(), Some(F::one()));
    for n in [2u32, 3, 5, 31, 100, 0x34167c58, 0x61f3207b, 0x78000000] {
        let a = f(n);
        let inv = a.try_inverse().unwrap();
        assert_eq!(a * inv, F::one());
        assert_eq!(inv.try_inverse(), Some(a));
        assert_eq!(F::one() / a, inv);
    }
    // 2 * (P + 1) / 2 = 1, so the inverse of 2 is (P + 1) / 2.
    assert_eq!(f(2).try_inverse().unwrap().as_canonical_u32(), 0x3c000001);
}

#[test]
fn two_adic_subgroup_zerofier() {
    let g = F::power_of_two_generator();
    assert_eq!(g.exp_power_of_2(27), F::one());
    assert_ne!(g.exp_power_of_2(26), F::one());
    assert_eq!(g.exp_power_of_2(26), F::neg_one());
    for bits in 0..=27usize {
        let h = F::two_adic_generator(bits);
        assert_eq!(h.exp_power_of_2(bits), F::one());
        if bits > 0 {
            assert_ne!(h.exp_power_of_2(bits - 1), F::one());
        }
    }
    assert_eq!(F::two_adic_generator(0), F::one());
    assert_eq!(F::two_adic_generator(1), F::neg_one());
}

#[test]
fn two_adic_coset_zerofier() {
    // The vanishing polynomial of the order-8 subgroup is x^8 - 1: it is
    // zero on every element of the subgroup and not on a coset of it.
    let g = F::two_adic_generator(3);
    let mut x = F::one();
    for _ in 0..8 {
        assert!((x.exp_power_of_2(3) - F::one()).is_zero());
        x = x * g;
    }
    assert_eq!(x, F::one());
    let shift = F::multiplicative_group_generator();
    let mut y = shift;
    let expected = shift.exp_power_of_2(3) - F::one();
    assert!(!expected.is_zero());
    for _ in 0..8 {
        assert_eq!(y.exp_power_of_2(3) - F::one(), expected);
        y = y * g;
    }
}

#[test]
fn canonical_round_trip_of_100() {
    assert_eq!(F::from_canonical_u32(100).as_canonical_u32(), 100);
    let a = f(0x1234567);
    assert_eq!(F::from_canonical_u32(a.as_canonical_u32()), a);
}

#[test]
fn wrapped_modulus_is_zero() {
    assert_eq!(F::from_wrapped_u32(0x78000001), F::zero());
    assert_eq!(F::from_wrapped_u64(0x78000001), F::zero());
    assert_eq!(F::from_wrapped_u32(u32::MAX).as_canonical_u32(), (u32::MAX as u64 % 0x78000001) as u32);
    assert_eq!(F::from_wrapped_u64(u64::MAX).as_canonical_u64(), u64::MAX % 0x78000001);
    assert_eq!(F::from_wrapped_u64(0x78000001 * 5 + 7).as_canonical_u32(), 7);
}

#[test]
fn literal_product() {
    assert_eq!((f(0x34167c58) * f(0x61f3207b)).as_canonical_u32(), 0x1b5c8046);
}

#[test]
fn small_sums_and_differences() {
    assert_eq!(F::one() - F::one(), F::zero());
    assert_eq!(F::one() + F::one(), F::two());
    assert_eq!(f(0x78000000) + F::one(), F::zero());
    assert_eq!(f(0x78000000) - f(0x77ffffff), F::one());
    assert_eq!(-F::one(), F::neg_one());
    assert_eq!(-F::zero(), F::zero());
    assert_eq!(F::neg_one().as_canonical_u32(), 0x78000000);
}

#[test]
fn ring_laws_on_samples() {
    let xs = [f(0), f(1), f(7), f(0x34167c58), f(0x61f3207b), f(0x78000000)];
    for &a in &xs {
        assert_eq!(a + F::zero(), a);
        assert_eq!(a * F::one(), a);
        assert_eq!(a * F::zero(), F::zero());
        assert_eq!(a + (-a), F::zero());
        assert_eq!(a.square(), a * a);
        assert_eq!(a.double(), a + a);
        for &b in &xs {
            assert_eq!(a + b, b + a);
            assert_eq!(a * b, b * a);
            assert_eq!(a - b, a + (-b));
            for &c in &xs {
                assert_eq!((a + b) + c, a + (b + c));
                assert_eq!((a * b) * c, a * (b * c));
                assert_eq!(a * (b + c), a * b + a * c);
            }
        }
    }
}

#[test]
fn small_constructors() {
    assert_eq!(F::from_bool(true), F::one());
    assert_eq!(F::from_bool(false), F::zero());
    assert_eq!(F::from_canonical_u8(255).as_canonical_u32(), 255);
    assert_eq!(F::from_canonical_u16(65535).as_canonical_u32(), 65535);
    assert_eq!(F::from_canonical_u64(12345).as_canonical_u32(), 12345);
    assert_eq!(F::from_canonical_usize(54321).as_canonical_u32(), 54321);
    assert_eq!(F::default(), F::zero());
    assert_eq!(F::multiplicative_group_generator().as_canonical_u32(), 31);
    assert_eq!(F::power_of_two_generator().as_canonical_u32(), 0x1a427a41);
}

#[test]
fn assign_operators() {
    let mut a = f(10);
    a += f(5);
    assert_eq!(a, f(15));
    a -= f(20);
    assert_eq!(a, f(0x78000001 - 5));
    a *= f(3);
    assert_eq!(a, f(0x78000001 - 15));
}

#[test]
fn sums_and_products() {
    assert_eq!(F::sum(&[]), F::zero());
    assert_eq!(F::product(&[]), F::one());
    assert_eq!(F::sum(&[f(1), f(2), f(3)]), f(6));
    assert_eq!(F::product(&[f(2), f(3), f(4)]), f(24));
    assert_eq!(F::sum(&[f(0x78000000), f(2)]), f(1));
}

#[test]
fn linear_combination() {
    let r = F::linear_combination_u64(&[3, 5, 7], &[f(2), f(10), f(0x78000000)]);
    assert_eq!(r, f(3 * 2 + 5 * 10) - f(7));
    assert_eq!(F::linear_combination_u64(&[], &[]), F::zero());
    let big = F::linear_combination_u64(&[1u64 << 31, 1u64 << 31], &[f(0x78000000), f(0x78000000)]);
    assert_eq!(big, -f(2).exp_power_of_2(5));
}

#[test]
fn ordering_by_canonical_value() {
    assert!(f(1) < f(2));
    assert!(f(0x78000000) > f(5));
    assert!(f(7) <= f(7));
    assert_eq!(f(3).partial_cmp(&f(3)), Some(core::cmp::Ordering::Equal));
}

#[test]
fn random_bits_candidates() {
    let a = F::from_random_bits(0xffff_ffff).unwrap();
    assert_eq!(a, F::from_random_bits(0x07ff_ffff).unwrap());
    assert_eq!(F::from_random_bits(0).unwrap(), F::zero());
    assert_eq!(F::from_random_bits(0x07ff_ffff).unwrap(), F::one());
}
