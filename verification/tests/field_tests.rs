use shamir_algorithm::tables::{antilog, log};
use shamir_algorithm::{ShamirError, GFC256};

#[test]
fn tables_are_inverse_to_each_other() {
    assert_eq!(antilog(0), 1);
    assert_eq!(antilog(1), 3);
    assert_eq!(antilog(25), 2);
    assert_eq!(antilog(254), 246);
    assert_eq!(log(1), 0);
    assert_eq!(log(2), 25);
    assert_eq!(log(3), 1);
    assert_eq!(log(255), 7);
    for exponent in 0..255usize {
        assert_eq!(log(antilog(exponent)) as usize, exponent);
    }
    for element in 1..=255u8 {
        assert_eq!(antilog(log(element) as usize), element);
    }
}

#[test]
fn add_and_sub_are_xor() {
    assert_eq!(GFC256::add(0x57, 0x83), 0xd4);
    assert_eq!(GFC256::sub(0x57, 0x83), 0xd4);
    assert_eq!(GFC256::add(0, 0), 0);
    assert_eq!(GFC256::add(0xff, 0xff), 0);
    assert_eq!(GFC256::sub(0x12, 0), 0x12);
    for a in 0..=255u8 {
        for b in 0..=255u8 {
            assert_eq!(GFC256::add(a, b), a ^ b);
            assert_eq!(GFC256::sub(GFC256::add(a, b), b), a);
        }
    }
}

#[test]
fn mul_known_products() {
    assert_eq!(GFC256::mul(0x57, 0x83), 0xc1);
    assert_eq!(GFC256::mul(0x57, 0x13), 0xfe);
    assert_eq!(GFC256::mul(2, 3), 6);
    assert_eq!(GFC256::mul(0x80, 2), 0x1b);
    assert_eq!(GFC256::mul(0xff, 0xff), 0x13);
    assert_eq!(GFC256::mul(0, 0x57), 0);
    assert_eq!(GFC256::mul(0x57, 0), 0);
    assert_eq!(GFC256::mul(1, 0x57), 0x57);
}

#[test]
fn mul_is_a_field_product() {
    for a in 0..=255u8 {
        assert_eq!(GFC256::mul(a, 1), a);
        for b in 0..=255u8 {
            assert_eq!(GFC256::mul(a, b), GFC256::mul(b, a));
            assert_eq!(GFC256::mul(a, b) == 0, a == 0 || b == 0);
        }
    }
    for a in [0u8, 1, 2, 0x53, 0xca, 0xff] {
        for b in [0u8, 1, 3, 0x57, 0x83, 0xfe] {
            for c in [0u8, 1, 7, 0x13, 0xc1, 0xff] {
                assert_eq!(GFC256::mul(GFC256::mul(a, b), c), GFC256::mul(a, GFC256::mul(b, c)));
                assert_eq!(
                    GFC256::mul(a, GFC256::add(b, c)),
                    GFC256::add(GFC256::mul(a, b), GFC256::mul(a, c))
                );
            }
        }
    }
}

#[test]
fn div_known_quotients() {
    assert_eq!(GFC256::div(1, 0x53), Ok(0xca));
    assert_eq!(GFC256::div(0xc1, 0x83), Ok(0x57));
    assert_eq!(GFC256::div(6, 3), Ok(2));
    assert_eq!(GFC256::div(0, 7), Ok(0));
    assert_eq!(GFC256::div(0x57, 1), Ok(0x57));
}

#[test]
fn div_undoes_mul() {
    for a in 0..=255u8 {
        for b in 1..=255u8 {
            assert_eq!(GFC256::div(GFC256::mul(a, b), b), Ok(a));
            assert_eq!(GFC256::div(a, b).map(|q| GFC256::mul(q, b)), Ok(a));
        }
    }
}

#[test]
fn div_by_zero_is_refused() {
    assert_eq!(GFC256::div(1, 0), Err(ShamirError::DivisionByZero));
    assert_eq!(GFC256::div(0, 0), Err(ShamirError::DivisionByZero));
    assert_eq!(GFC256::div(0xff, 0), Err(ShamirError::DivisionByZero));
}

#[test]
fn eval_by_horner() {
    let p = [72u8, 3, 5];
    assert_eq!(GFC256::eval(&p, 0), 72);
    assert_eq!(GFC256::eval(&p, 1), 78);
    assert_eq!(GFC256::eval(&p, 2), 90);
    assert_eq!(GFC256::eval(&p, 3), 92);
    assert_eq!(GFC256::eval(&p, 4), 20);
    assert_eq!(GFC256::eval(&p, 5), 18);
    assert_eq!(GFC256::eval(&[], 9), 0);
    assert_eq!(GFC256::eval(&[200], 9), 200);
    assert_eq!(GFC256::eval(&[0, 1], 9), 9);
}

#[test]
fn generate_keeps_the_constant_and_the_degree() {
    let mut rng = rand::rng();
    for degree in 1..20 {
        for constant in [0u8, 1, 72, 255] {
            let p = GFC256::generate(degree, constant, &mut rng);
            assert_eq!(p.len(), (degree + 1) as usize);
            assert_eq!(p[0], constant);
            assert_ne!(p[degree as usize], 0);
            assert_eq!(GFC256::eval(&p, 0), constant);
        }
    }
}

#[test]
fn generate_draws_its_coefficients() {
    let mut rng = rand::rng();
    let mut leading: Vec<u8> = Vec::new();
    let mut middle: Vec<u8> = Vec::new();
    for _ in 0..64 {
        let p = GFC256::generate(2, 7, &mut rng);
        middle.push(p[1]);
        leading.push(p[2]);
    }
    assert!(leading.iter().all(|c| *c != 0));
    assert!(leading.iter().any(|c| *c != leading[0]));
    assert!(middle.iter().any(|c| *c != middle[0]));
}

#[test]
fn interpolate_recovers_the_constant_term() {
    let points = vec![vec![1u8, 78], vec![2, 90], vec![3, 92]];
    assert_eq!(GFC256::interpolate(points), Ok(72));
    let points = vec![vec![5u8, 18], vec![2, 90], vec![4, 20], vec![1, 78]];
    assert_eq!(GFC256::interpolate(points), Ok(72));
    let points = vec![vec![1u8, 10], vec![2, 20], vec![3, 30]];
    assert_eq!(GFC256::interpolate(points), Ok(0));
}

#[test]
fn interpolate_few_points() {
    assert_eq!(GFC256::interpolate(Vec::new()), Ok(0));
    assert_eq!(GFC256::interpolate(vec![vec![7u8, 99]]), Ok(99));
    assert_eq!(GFC256::interpolate(vec![vec![1u8, 78], vec![2, 90]]), Ok(66));
    assert_eq!(GFC256::interpolate(vec![vec![0u8, 42], vec![1, 17]]), Ok(42));
}

#[test]
fn interpolate_refuses_two_points_with_one_abscissa() {
    let points = vec![vec![1u8, 78], vec![2, 90], vec![1, 92]];
    assert_eq!(GFC256::interpolate(points), Err(ShamirError::DuplicateShareIndex));
    let points = vec![vec![4u8, 1], vec![4, 1]];
    assert_eq!(GFC256::interpolate(points), Err(ShamirError::DuplicateShareIndex));
}
