use malachite::Natural;
use recalc::parse::{
    comment, expr, expr1, expr2, expr3, identifier, number, program, statement, ws0, Expression,
    Statement,
};
use recalc::rational::Rational;

fn chars(s: &str) -> Vec<char> {
    s.chars().collect()
}

fn rest(input: &[char], pos: usize) -> String {
    input[pos..].iter().collect()
}

fn frac(numer: u64, denom: u64) -> Rational {
    Rational::from_parts(false, Natural::from(numer), Natural::from(denom))
}

#[test]
fn number_test() {
    let input = chars("123 + 456");
    let (p, n) = number(&input, 0).unwrap();
    assert!(n.eq_rat(&frac(123, 1)));
    assert_eq!(rest(&input, p), " + 456");

    let input = chars("123.45");
    let (p, n) = number(&input, 0).unwrap();
    assert!(n.eq_rat(&frac(12345, 100)));
    assert_eq!(rest(&input, p), "");

    let input = chars(".123");
    assert!(number(&input, 0).is_none());
}

#[test]
fn identifier_test() {
    let input = chars("Hello, World");
    let (p, ident) = identifier(&input, 0).unwrap();
    assert_eq!(ident, "Hello");
    assert_eq!(rest(&input, p), ", World");

    let input = chars("_x'#");
    let (p, ident) = identifier(&input, 0).unwrap();
    assert_eq!(ident, "_x'");
    assert_eq!(rest(&input, p), "#");

    let input = chars("'x");
    assert!(identifier(&input, 0).is_none());
}

#[test]
fn comment_test() {
    let input = chars("** Hello ***a");
    let p = comment(&input, 0).unwrap();
    assert_eq!(rest(&input, p), "*a");

    let input = chars("*** ABC ** DEF * G****HIJ");
    let p = comment(&input, 0).unwrap();
    assert_eq!(rest(&input, p), "*HIJ");

    let input = chars(
        "***********\n\
         * Fancy   *\n\
         * Comment *\n\
         ***********\n\
         Rest",
    );
    let p = comment(&input, 0).unwrap();
    assert_eq!(rest(&input, p), "\nRest");

    let input = chars("* Hello *");
    assert!(comment(&input, 0).is_none());
}

#[test]
fn ws0_test() {
    let input = chars("  \t\nx");
    let p = ws0(&input, 0, false);
    assert_eq!(rest(&input, p), "\nx");

    let input = chars("\t\n\rxyz");
    let p = ws0(&input, 0, true);
    assert_eq!(rest(&input, p), "xyz");

    let input = chars("1+1");
    let p = ws0(&input, 0, true);
    assert_eq!(rest(&input, p), "1+1");
}

#[test]
fn simple_expression_test() {
    let input = chars("xyz+");
    let (p, e) = expr1(&input, 0, false).unwrap();
    assert!(matches!(e, Expression::Identifier(s) if s == "xyz"));
    assert_eq!(rest(&input, p), "+");

    let input = chars("A'**x**B");
    let (p, e) = expr1(&input, 0, true).unwrap();
    assert!(matches!(e, Expression::Identifier(s) if s == "A'"));
    assert_eq!(rest(&input, p), "**x**B");

    let input = chars("x^y");
    let (p, e) = expr1(&input, 0, false).unwrap();
    assert!(matches!(e, Expression::Identifier(s) if s == "x"));
    assert_eq!(rest(&input, p), "^y");

    let input = chars("'A");
    assert!(expr1(&input, 0, true).is_none());

    let input = chars("123.456.3");
    let (p, e) = expr1(&input, 0, false).unwrap();
    assert!(matches!(e, Expression::Number(n) if n.eq_rat(&frac(123456, 1000))));
    assert_eq!(rest(&input, p), ".3");

    let input = chars("123x4");
    let (p, e) = expr1(&input, 0, true).unwrap();
    assert!(matches!(e, Expression::Number(n) if n.eq_rat(&frac(123, 1))));
    assert_eq!(rest(&input, p), "x4");

    let input = chars("'x");
    assert!(expr1(&input, 0, false).is_none());
}

#[test]
fn parenthesis_test() {
    let input = chars("(1)x");
    let (p, e) = expr1(&input, 0, false).unwrap();
    assert!(matches!(e, Expression::Number(n) if n.eq_rat(&frac(1, 1))));
    assert_eq!(rest(&input, p), "x");

    let input = chars("(\n 1 \n)x");
    let (p, e) = expr1(&input, 0, false).unwrap();
    assert!(matches!(e, Expression::Number(n) if n.eq_rat(&frac(1, 1))));
    assert_eq!(rest(&input, p), "x");

    let input = chars("(1");
    assert!(expr1(&input, 0, true).is_none());
    let input = chars("(1, 2)");
    assert!(expr1(&input, 0, true).is_none());
}

#[test]
fn call_test() {
    let input = chars("f ( x , y \n)");
    let (p, e) = expr1(&input, 0, false).unwrap();
    assert!(matches!(
        e,
        Expression::Call(func, args)
        if func == "f"
        && matches!(
            &args[..],
            [Expression::Identifier(x), Expression::Identifier(y)]
            if x == "x" && y == "y",
        ),
    ));
    assert_eq!(rest(&input, p), "");

    let input = chars("foo ( \n1)");
    let (p, e) = expr1(&input, 0, false).unwrap();
    assert!(matches!(
        e,
        Expression::Call(func, args)
        if func == "foo"
        && matches!(
            &args[..],
            [Expression::Number(n)] if n.eq_rat(&frac(1, 1)),
        ),
    ));
    assert_eq!(rest(&input, p), "");

    let input = chars("foo()");
    let (p, e) = expr1(&input, 0, true).unwrap();
    assert!(matches!(e, Expression::Identifier(s) if s == "foo"));
    assert_eq!(rest(&input, p), "()");

    let input = chars("foo[bar,]");
    let (p, e) = expr1(&input, 0, false).unwrap();
    assert!(matches!(
        e,
        Expression::Call(foo, bar)
        if foo == "foo"
        && matches!(&bar[..], [Expression::Identifier(s)] if s == "bar"),
    ));
    assert_eq!(rest(&input, p), "");

    let input = chars("foo{bar, baz}");
    let (p, e) = expr1(&input, 0, false).unwrap();
    assert!(matches!(
        e,
        Expression::Call(foo, args)
        if foo == "foo"
        && matches!(
            &args[..],
            [Expression::Identifier(bar), Expression::Identifier(baz)]
            if bar == "bar" && baz == "baz",
        ),
    ));
    assert_eq!(rest(&input, p), "");

    let input = chars("f{x, y)");
    let (p, e) = expr1(&input, 0, false).unwrap();
    assert!(matches!(e, Expression::Identifier(s) if s == "f"));
    assert_eq!(rest(&input, p), "{x, y)");

    let input = chars("f(x, y]");
    let (p, e) = expr1(&input, 0, false).unwrap();
    assert!(matches!(e, Expression::Identifier(s) if s == "f"));
    assert_eq!(rest(&input, p), "(x, y]");
}

#[test]
fn pow_unary_expression_test() {
    let input = chars("1^2x");
    let (p, e) = expr2(&input, 0, false).unwrap();
    assert!(matches!(e, Expression::Pow(left, right)
        if matches!(&*left, Expression::Number(n) if n.eq_rat(&frac(1, 1)))
        && matches!(&*right, Expression::Number(m) if m.eq_rat(&frac(2, 1))),
    ));
    assert_eq!(rest(&input, p), "x");

    let input = chars("x\r\n^\n\r y z");
    let (p, e) = expr2(&input, 0, true).unwrap();
    assert!(matches!(e, Expression::Pow(left, right)
        if matches!(&*left, Expression::Identifier(x) if x == "x")
        && matches!(&*right, Expression::Identifier(y) if y == "y"),
    ));
    assert_eq!(rest(&input, p), " z");

    let input = chars("-+-3");
    let (p, e) = expr3(&input, 0, false).unwrap();
    assert!(matches!(
        e,
        Expression::Neg(pos) if matches!(
            &*pos,
            Expression::Pos(neg) if matches!(
                &**neg,
                Expression::Neg(num) if matches!(
                    &**num,
                    Expression::Number(n) if n.eq_rat(&frac(3, 1)),
                ),
            ),
        ),
    ));
    assert_eq!(rest(&input, p), "");

    let input = chars("- x \n^  + \ty^ -z");
    let (p, e) = expr3(&input, 0, true).unwrap();
    assert!(matches!(
        e,
        Expression::Neg(pow1) if matches!(
            &*pow1,
            Expression::Pow(x, pos)
            if matches!(&**x, Expression::Identifier(s) if s == "x")
            && matches!(
                &**pos,
                Expression::Pos(pow2) if matches!(
                    &**pow2,
                    Expression::Pow(y, neg)
                    if matches!(&**y, Expression::Identifier(s) if s == "y")
                    && matches!(
                        &**neg,
                        Expression::Neg(z)
                        if matches!(&**z, Expression::Identifier(s) if s == "z"),
                    ),
                ),
            ),
        ),
    ));
    assert_eq!(rest(&input, p), "");

    let input = chars("2^");
    let (p, e) = expr3(&input, 0, true).unwrap();
    assert!(matches!(e, Expression::Number(n) if n.eq_rat(&frac(2, 1))));
    assert_eq!(rest(&input, p), "^");
}

#[test]
fn expr_test() {
    let input = chars("x * y");
    let (p, e) = expr(&input, 0, false).unwrap();
    assert!(matches!(
        e,
        Expression::Mul(x, y)
        if matches!(&*x, Expression::Identifier(s) if s == "x")
        && matches!(&*y, Expression::Identifier(s) if s == "y"),
    ));
    assert_eq!(rest(&input, p), "");

    let input = chars("x * y+z*w\n+t");
    let (p, e) = expr(&input, 0, false).unwrap();
    assert!(matches!(
        e,
        Expression::Add(left, right)
        if matches!(
            &*left,
            Expression::Mul(x, y)
            if matches!(&**x, Expression::Identifier(s) if s == "x")
            && matches!(&**y, Expression::Identifier(s) if s == "y"),
        )
        && matches!(
            &*right,
            Expression::Mul(z, w)
            if matches!(&**z, Expression::Identifier(s) if s == "z")
            && matches!(&**w, Expression::Identifier(s) if s == "w"),
        ),
    ));
    assert_eq!(rest(&input, p), "\n+t");

    let input = chars("x - -3^4Ignore");
    let (p, e) = expr(&input, 0, true).unwrap();
    assert!(matches!(
        e,
        Expression::Sub(x, neg)
        if matches!(&*x, Expression::Identifier(s) if s == "x")
        && matches!(
            &*neg,
            Expression::Neg(pow)
            if matches!(
                &**pow,
                Expression::Pow(three, four)
                if matches!(&**three, Expression::Number(n) if n.eq_rat(&frac(3, 1)))
                && matches!(&**four, Expression::Number(n) if n.eq_rat(&frac(4, 1))),
            ),
        ),
    ));
    assert_eq!(rest(&input, p), "Ignore");

    let input = chars("1 + 2 - 3 +\n 4xyz");
    let (p, e) = expr(&input, 0, true).unwrap();
    assert!(matches!(
        e,
        Expression::Add(sub, four)
        if matches!(
            &*sub,
            Expression::Sub(add, three)
            if matches!(
                &**add,
                Expression::Add(one, two)
                if matches!(&**one, Expression::Number(n) if n.eq_rat(&frac(1, 1)))
                && matches!(&**two, Expression::Number(n) if n.eq_rat(&frac(2, 1))),
            )
            && matches!(&**three, Expression::Number(n) if n.eq_rat(&frac(3, 1))),
        )
        && matches!(&*four, Expression::Number(n) if n.eq_rat(&frac(4, 1))),
    ));
    assert_eq!(rest(&input, p), "xyz");
}

#[test]
fn statement_test() {
    let input = chars("x1 = y1 = z1#");
    let (p, stmt) = statement(&input, 0).unwrap();
    assert!(matches!(
        stmt,
        Statement::Assign(v)
        if matches!(
            &v[..],
            [x1, y1, z1]
            if matches!(&*x1, Expression::Identifier(s) if s == "x1")
            && matches!(y1, Expression::Identifier(s) if s == "y1")
            && matches!(z1, Expression::Identifier(s) if s == "z1"),
        ),
    ));
    assert_eq!(rest(&input, p), "#");

    let input = chars("-3");
    let (p, stmt) = statement(&input, 0).unwrap();
    assert!(matches!(
        &stmt,
        Statement::Evaluate(e)
        if matches!(
            e,
            Expression::Neg(three)
            if matches!(&**three, Expression::Number(n) if n.eq_rat(&frac(3, 1))),
        ),
    ));
    assert_eq!(rest(&input, p), "");
}

#[test]
fn program_test() {
    let input = chars(
        "
            x = 1

            x
        ",
    );
    let (p, statements) = program(&input, 0);
    assert!(matches!(
        &statements[..],
        [Statement::Assign(assign), Statement::Evaluate(eval)]
        if matches!(
            &assign[..],
            [Expression::Identifier(x), Expression::Number(one)]
            if x == "x"
            && one.eq_rat(&frac(1, 1)),
        )
        && matches!(
            eval,
            Expression::Identifier(x)
            if x == "x",
        ),
    ));
    assert_eq!(rest(&input, p), "");
}

#[test]
fn unicode_test() {
    let input = chars("-\u{A0}\u{1680}_\u{3c0}'!");
    let (p, e) = expr(&input, 0, false).unwrap();
    assert!(matches!(
        e,
        Expression::Neg(pi)
        if matches!(&*pi, Expression::Identifier(s) if s == "_\u{3c0}'")),);
    assert_eq!(rest(&input, p), "!");
}
