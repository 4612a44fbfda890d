use malachite::Natural;
use recalc::pow::pow;
use recalc::rational::Rational;

fn frac2(numer: i64, denom: i64) -> Rational {
    let neg = (numer < 0) != (denom < 0);
    Rational::from_parts(
        neg,
        Natural::from(numer.unsigned_abs()),
        Natural::from(denom.unsigned_abs()),
    )
}

fn frac(numer: i64) -> Rational {
    frac2(numer, 1)
}

fn assert_pow(a: Rational, b: Rational, expected: Option<Rational>) {
    let got = pow(a, b);
    match (got, expected) {
        (Some(v), Some(w)) => assert!(v.eq_rat(&w)),
        (None, None) => {}
        (Some(_), None) => panic!("expected None"),
        (None, Some(_)) => panic!("expected Some"),
    }
}

#[test]
fn pow_test() {
    assert_pow(frac(0), frac(0), Some(frac(1)));
    assert_pow(frac(0), frac(1), Some(frac(0)));
    assert_pow(frac(1), frac(0), Some(frac(1)));
    assert_pow(frac(1), frac(1), Some(frac(1)));
    assert_pow(frac(1), frac(4), Some(frac(1)));
    assert_pow(frac(2), frac(1), Some(frac(2)));
    assert_pow(frac(2), frac(2), Some(frac(4)));
    assert_pow(frac(0), frac2(1, 2), Some(frac(0)));
    assert_pow(frac(1), frac2(1, 2), Some(frac(1)));
    assert_pow(frac(2), frac2(1, 2), None);
    assert_pow(frac(4), frac2(1, 2), Some(frac(2)));
    assert_pow(frac(2), frac(3), Some(frac(8)));
    assert_pow(frac(8), frac2(1, 3), Some(frac(2)));
    assert_pow(frac(8), frac2(1, 2), None);
    assert_pow(frac(3), frac(3), Some(frac(27)));
    assert_pow(frac(27), frac2(1, 3), Some(frac(3)));
    assert_pow(frac(27), frac2(2, 3), Some(frac(9)));
    assert_pow(frac(9), frac2(3, 2), Some(frac(27)));
    assert_pow(frac(27), frac2(1, 2), None);
    assert_pow(frac2(1, 4), frac2(1, 2), Some(frac2(1, 2)));
    assert_pow(frac2(1, 4), frac2(1, 3), None);
    assert_pow(frac2(1, 2), frac(2), Some(frac2(1, 4)));
    assert_pow(frac2(1, 4), frac2(3, 2), Some(frac2(1, 8)));
    assert_pow(frac(10_000), frac2(1, 4), Some(frac(10)));
    assert_pow(frac(1024), frac2(7, 5), Some(frac(16384)));
    assert_pow(frac(1234), frac2(1, 2), None);
    assert_pow(frac(4567), frac2(234, 564), None);
    assert_pow(frac(-7), frac(0), Some(frac(1)));
    assert_pow(frac2(-56, 3), frac(0), Some(frac(1)));
    assert_pow(frac(-1), frac2(1, 2), None);
    assert_pow(frac(-1), frac(2), Some(frac(1)));
    assert_pow(frac(-1), frac(3), Some(frac(-1)));
    assert_pow(frac(-1), frac(100), Some(frac(1)));
    assert_pow(frac(-7), frac(2), Some(frac(49)));
    assert_pow(frac2(-5, 3), frac(4), Some(frac2(625, 81)));
    assert_pow(frac(-8), frac2(1, 3), Some(frac(-2)));
    assert_pow(frac2(-8, 27), frac2(1, 3), Some(frac2(-2, 3)));
    assert_pow(frac2(-4, 1023), frac2(6, 100), None);
    assert_pow(frac2(-535, 24), frac2(7, 52), None);
    assert_pow(frac2(-1, 27), frac2(2, 6), Some(frac2(-1, 3)));
    assert_pow(frac(-27), frac2(2, 3), Some(frac(9)));
    assert_pow(frac(0), frac(-1), None);
    assert_pow(frac(0), frac2(-2, 7), None);
    assert_pow(frac(0), frac2(-777, 9), None);
    assert_pow(frac(1), frac(-1), Some(frac(1)));
    assert_pow(frac2(7, 8), frac(-1), Some(frac2(8, 7)));
    assert_pow(frac(2), frac(-2), Some(frac2(1, 4)));
    assert_pow(frac2(3, 7), frac2(-1, 2), None);
    assert_pow(frac2(4, 49), frac2(-1, 2), Some(frac2(7, 2)));
    assert_pow(frac2(27, 125), frac2(-4, 3), Some(frac2(625, 81)));
    assert_pow(frac(-1), frac(-1), Some(frac(-1)));
    assert_pow(frac(-2), frac(-2), Some(frac2(1, 4)));
    assert_pow(frac(-2), frac2(-1, 2), None);
    assert_pow(frac(-1), frac2(-7, 3), Some(frac(-1)));
    assert_pow(frac(-1), frac2(-8, 3), Some(frac(1)));
    assert_pow(frac(-125), frac2(-1, 3), Some(frac2(-1, 5)));
    assert_pow(frac2(-1024, 243), frac2(-2, 5), Some(frac2(9, 16)));
    assert_pow(frac2(9, 16), frac2(-5, 2), Some(frac2(1024, 243)));
    assert_pow(frac2(-9, 16), frac2(-5, 2), None);
    assert_pow(frac2(-9, 16), frac2(-5, 3), None);
}
