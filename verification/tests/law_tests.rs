use malachite::Natural;
use recalc::pow::pow;
use recalc::rational::Rational;

fn frac2(numer: i64, denom: i64) -> Rational {
    let neg = (numer < 0) != (denom < 0);
    Rational::from_parts(
        neg,
        Natural::from(numer.unsigned_abs()),
        Natural::from(denom.unsigned_abs()),
    )
}

#[test]
fn integer_power_is_repeated_multiplication() {
    let r = frac2(-2, 3);
    let mut product = frac2(1, 1);
    for n in 0u64..=6 {
        let p = pow(r.duplicate(), frac2(n as i64, 1)).unwrap();
        assert!(p.eq_rat(&product));
        product = product.mul(&r);
    }
}

#[test]
fn exact_root_restores_the_power() {
    // for each r and n, pow(r^n, 1/n) is some s with s^n == r^n
    let cases: [(i64, i64, i64); 4] = [(2, 3, 3), (-3, 5, 3), (7, 2, 2), (-1, 4, 5)];
    for (num, den, n) in cases {
        let r = frac2(num, den);
        let rn = pow(r, frac2(n, 1)).unwrap();
        let s = pow(rn.duplicate(), frac2(1, n)).unwrap();
        let sn = pow(s, frac2(n, 1)).unwrap();
        assert!(sn.eq_rat(&rn));
    }
}

#[test]
fn arithmetic_is_exact_and_canonical() {
    let a = frac2(1, 6);
    let b = frac2(1, 3);
    assert!(a.add(&b).eq_rat(&frac2(1, 2)));
    assert!(a.sub(&b).eq_rat(&frac2(-1, 6)));
    assert!(a.mul(&b).eq_rat(&frac2(1, 18)));
    assert!(a.div(&b).eq_rat(&frac2(1, 2)));
    assert!(frac2(-4, 8).eq_rat(&frac2(-1, 2)));
}
