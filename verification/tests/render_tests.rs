use recalc::parse::{parse, Code, Expression, Statement};
use recalc::render::render_code;

fn expr_eq(a: &Expression, b: &Expression) -> bool {
    match (a, b) {
        (Expression::Number(x), Expression::Number(y)) => x.eq_rat(y),
        (Expression::Identifier(x), Expression::Identifier(y)) => x == y,
        (Expression::Pos(x), Expression::Pos(y)) => expr_eq(x, y),
        (Expression::Neg(x), Expression::Neg(y)) => expr_eq(x, y),
        (Expression::Add(x1, x2), Expression::Add(y1, y2)) => expr_eq(x1, y1) && expr_eq(x2, y2),
        (Expression::Sub(x1, x2), Expression::Sub(y1, y2)) => expr_eq(x1, y1) && expr_eq(x2, y2),
        (Expression::Mul(x1, x2), Expression::Mul(y1, y2)) => expr_eq(x1, y1) && expr_eq(x2, y2),
        (Expression::Div(x1, x2), Expression::Div(y1, y2)) => expr_eq(x1, y1) && expr_eq(x2, y2),
        (Expression::Pow(x1, x2), Expression::Pow(y1, y2)) => expr_eq(x1, y1) && expr_eq(x2, y2),
        (Expression::Call(n1, a1), Expression::Call(n2, a2)) => {
            n1 == n2 && a1.len() == a2.len() && a1.iter().zip(a2.iter()).all(|(x, y)| expr_eq(x, y))
        }
        _ => false,
    }
}

fn code_eq(a: &Code, b: &Code) -> bool {
    a.statements.len() == b.statements.len()
        && a.statements
            .iter()
            .zip(b.statements.iter())
            .all(|(s1, s2)| match (s1, s2) {
                (Statement::Evaluate(x), Statement::Evaluate(y)) => expr_eq(x, y),
                (Statement::Assign(xs), Statement::Assign(ys)) => {
                    xs.len() == ys.len()
                        && xs.iter().zip(ys.iter()).all(|(x, y)| expr_eq(x, y))
                }
                _ => false,
            })
}

fn round_trips(source: &str) {
    let code = parse(source).unwrap_or_else(|_| panic!("parse failed"));
    let rendered = render_code(&code);
    let reparsed = parse(&rendered)
        .unwrap_or_else(|_| panic!("re-parse failed on {rendered:?}"));
    assert!(code_eq(&code, &reparsed), "round trip changed the tree: {rendered:?}");
}

#[test]
fn render_round_trips_scenarios() {
    round_trips("1 + 1");
    round_trips("x = f(y) = 3 \n f(x) + 3*x");
    round_trips("zero = 0 \n f(n) = zero^n - -n*f(n-1) \n f(5)");
    round_trips("0/0");
    round_trips("2^(1/2)");
    round_trips("x = x + 1 \n x");
    round_trips("8^(1/3)");
}

#[test]
fn render_round_trips_decimals() {
    round_trips("123.45");
    round_trips("0.5 + 1.250");
    round_trips("0.0625 * 100.2");
    round_trips("1.000001");
    round_trips("0.0");
}

#[test]
fn render_round_trips_shapes() {
    round_trips("-+-3");
    round_trips("a = b = c'd = 1 ** a comment ** + 2");
    round_trips("g(a, b, c) = a^b^c - a*b/c \n g(1, 2.5, 3)");
    round_trips("x - -3^4");
    round_trips("1 + 2 - 3 + 4");
}

#[test]
fn render_canonical_text() {
    let code = parse("1 + 2*3").unwrap_or_else(|_| panic!("parse failed"));
    assert_eq!(render_code(&code), "(1+(2*3))");
    let code = parse("12.5").unwrap_or_else(|_| panic!("parse failed"));
    assert_eq!(render_code(&code), "12.5");
    let code = parse("x = 1 \n x").unwrap_or_else(|_| panic!("parse failed"));
    assert_eq!(render_code(&code), "x=1\nx");
}
