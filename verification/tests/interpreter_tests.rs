use malachite::Natural;
use recalc::compile::{compile_into, CompilationError};
use recalc::ctrlc_handler::CtrlCHandler;
use recalc::environment::EvaluationEnvironemnt;
use recalc::format::{format_value, parse_format, Format};
use recalc::parse::parse;
use recalc::program::{Program, ProgramError};
use recalc::rational::Rational;
use recalc::value::Value;

const FUEL: u64 = 1_000_000_000;

fn run_source(source: &str, format: Format) -> (Vec<String>, Option<ProgramError>) {
    let mut program = Program::new();
    run_more(&mut program, source, format)
}

fn run_more(program: &mut Program, source: &str, format: Format) -> (Vec<String>, Option<ProgramError>) {
    let code = parse(source).unwrap_or_else(|_| panic!("parse failed"));
    compile_into(&code, program).unwrap_or_else(|_| panic!("compile failed"));
    let mut env = EvaluationEnvironemnt::new(CtrlCHandler::mock());
    let (values, err) = program.run(&mut env, FUEL);
    let lines = values.iter().map(|v| format_value(format, v)).collect();
    (lines, err)
}

#[test]
fn one_plus_one() {
    let (lines, err) = run_source("1 + 1", Format::Scientific);
    assert!(err.is_none());
    assert_eq!(lines, vec!["2".to_string()]);
}

#[test]
fn shared_definition() {
    let (lines, err) = run_source("x = f(y) = 3 \n f(x) + 3*x", Format::Scientific);
    assert!(err.is_none());
    assert_eq!(lines, vec!["12".to_string()]);
}

#[test]
fn lazy_factorial() {
    let (lines, err) = run_source(
        "zero = 0 \n f(n) = zero^n - -n*f(n-1) \n f(5)",
        Format::Scientific,
    );
    assert!(err.is_none());
    assert_eq!(lines, vec!["120".to_string()]);
}

#[test]
fn zero_over_zero() {
    let (lines, err) = run_source("0/0", Format::Scientific);
    assert!(err.is_none());
    assert_eq!(lines, vec!["Undefined result: zero divided by zero".to_string()]);
}

#[test]
fn square_root_of_two() {
    let (lines, err) = run_source("2^(1/2)", Format::Scientific);
    assert!(err.is_none());
    assert_eq!(lines, vec!["Undefined result: possibly irrational".to_string()]);
}

#[test]
fn self_referential_constant() {
    let (lines, err) = run_source("x = x + 1 \n x", Format::Scientific);
    assert!(err.is_none());
    assert_eq!(lines, vec!["Undefined result: infinite loop detected".to_string()]);
}

#[test]
fn cube_root_fraction_format() {
    let (lines, err) = run_source("8^(1/3)", Format::Fraction);
    assert!(err.is_none());
    assert_eq!(lines, vec!["2".to_string()]);
}

#[test]
fn division_by_zero_is_infinite() {
    let (lines, err) = run_source("3/0", Format::Scientific);
    assert!(err.is_none());
    assert_eq!(lines, vec!["Undefined result: possibly infinite".to_string()]);
}

#[test]
fn mul_zero_absorbs_nonterminating_operand() {
    // the right operand recurses forever; the zero factor must absorb
    // it without reducing it
    let (lines, err) = run_source("f(n) = f(n + 1) \n 0 * f(1)", Format::Scientific);
    assert!(err.is_none());
    assert_eq!(lines, vec!["0".to_string()]);
}

#[test]
fn undefined_times_zero_is_zero() {
    let (lines, err) = run_source("(1/0) * 0", Format::Scientific);
    assert!(err.is_none());
    assert_eq!(lines, vec!["0".to_string()]);
}

#[test]
fn undefined_to_the_zero_is_one() {
    let (lines, err) = run_source("(0/0)^0", Format::Scientific);
    assert!(err.is_none());
    assert_eq!(lines, vec!["1".to_string()]);
}

#[test]
fn redefinition_keeps_earlier_compilation() {
    // the first unit's queued expression uses the first binding even
    // though the second unit redefines the name before anything runs
    let mut program = Program::new();
    let code1 = parse("x = 5 \n x").unwrap_or_else(|_| panic!("parse failed"));
    compile_into(&code1, &mut program).unwrap_or_else(|_| panic!("compile failed"));
    let code2 = parse("x = 7 \n x").unwrap_or_else(|_| panic!("parse failed"));
    compile_into(&code2, &mut program).unwrap_or_else(|_| panic!("compile failed"));
    let mut env = EvaluationEnvironemnt::new(CtrlCHandler::mock());
    let (values, err) = program.run(&mut env, FUEL);
    assert!(err.is_none());
    let lines: Vec<String> = values.iter().map(|v| format_value(Format::Scientific, v)).collect();
    assert_eq!(lines, vec!["5".to_string(), "7".to_string()]);
}

#[test]
fn memoized_value_survives_redefinition() {
    // y memoizes 5 in the first unit; redefining x leaves that memo
    // in place, so the second unit sees the old value through y and
    // the new one through x
    let mut program = Program::new();
    let (lines, err) = run_more(&mut program, "x = 5 \n y = x + 0 \n y", Format::Scientific);
    assert!(err.is_none());
    assert_eq!(lines, vec!["5".to_string()]);
    let (lines, err) = run_more(&mut program, "x = 7 \n y + x", Format::Scientific);
    assert!(err.is_none());
    assert_eq!(lines, vec!["12".to_string()]);
}

#[test]
fn duplicate_declaration_in_unit() {
    let mut program = Program::new();
    let code = parse("x = 1 \n x = 2").unwrap_or_else(|_| panic!("parse failed"));
    let r = compile_into(&code, &mut program);
    assert!(matches!(r, Err(CompilationError::DuplicateDeclaration(n)) if n == "x"));
}

#[test]
fn constant_not_found() {
    let mut program = Program::new();
    let code = parse("y + 1").unwrap_or_else(|_| panic!("parse failed"));
    let r = compile_into(&code, &mut program);
    assert!(matches!(r, Err(CompilationError::ConstantNotFound(n)) if n == "y"));
}

#[test]
fn wrong_argument_count() {
    let mut program = Program::new();
    let code = parse("f(a, b) = a + b \n f(1)").unwrap_or_else(|_| panic!("parse failed"));
    let r = compile_into(&code, &mut program);
    assert!(matches!(r, Err(CompilationError::WrongNArgs(n, 1, 2)) if n == "f"));
}

#[test]
fn parameter_shadows_global() {
    let mut program = Program::new();
    let code = parse("x = 1 \n f(x) = x").unwrap_or_else(|_| panic!("parse failed"));
    let r = compile_into(&code, &mut program);
    assert!(matches!(r, Err(CompilationError::ParamShadowsGlobal(n)) if n == "x"));
}

#[test]
fn function_used_as_constant() {
    let mut program = Program::new();
    let code = parse("f(n) = n \n f + 1").unwrap_or_else(|_| panic!("parse failed"));
    let r = compile_into(&code, &mut program);
    assert!(matches!(r, Err(CompilationError::FunctionNotConstant(n)) if n == "f"));
}

#[test]
fn cancellation_stops_evaluation() {
    // once the flag is pressed, the first tick of the driver aborts
    // even a non-terminating evaluation
    let handler = CtrlCHandler::mock();
    let mut program = Program::new();
    let code = parse("f(n) = f(n + 1) \n f(1)").unwrap_or_else(|_| panic!("parse failed"));
    compile_into(&code, &mut program).unwrap_or_else(|_| panic!("compile failed"));
    let mut env = EvaluationEnvironemnt::new(handler.clone());
    handler.press();
    let (values, err) = program.run(&mut env, FUEL);
    assert!(values.is_empty());
    assert!(matches!(err, Some(ProgramError::Cancelled(_))));
}

#[test]
fn runaway_recursion_runs_out_of_fuel() {
    let mut program = Program::new();
    let code = parse("f(n) = f(n + 1) \n f(1)").unwrap_or_else(|_| panic!("parse failed"));
    compile_into(&code, &mut program).unwrap_or_else(|_| panic!("compile failed"));
    let mut env = EvaluationEnvironemnt::new(CtrlCHandler::mock());
    let (values, err) = program.run(&mut env, 10_000);
    assert!(values.is_empty());
    assert!(matches!(err, Some(ProgramError::OutOfFuel)));
}

#[test]
fn deep_expression_is_stack_safe() {
    // recursive expansion builds a runtime tree thousands of nodes
    // deep; the driver and the destruction worklist must evaluate and
    // discard it without deep native recursion
    let n: u64 = 6_000;
    let source = format!("zero = 0 \n f(n) = zero^n - -n*f(n-1) \n f({n})");
    let (lines, err) = run_source(&source, Format::Fraction);
    assert!(err.is_none());
    let mut factorial = Natural::from(1u64);
    for k in 2..=n {
        factorial *= Natural::from(k);
    }
    assert_eq!(lines, vec![factorial.to_string()]);
}

#[test]
fn mixed_format() {
    let (lines, err) = run_source("7/2 \n -7/2 \n 4/2 \n 1/3", Format::Mixed);
    assert!(err.is_none());
    assert_eq!(
        lines,
        vec![
            "3 + 1/2".to_string(),
            "-3 - 1/2".to_string(),
            "2".to_string(),
            "1/3".to_string()
        ]
    );
}

#[test]
fn fraction_format_reduces() {
    let (lines, err) = run_source("4/6 \n 0 - 10/4", Format::Fraction);
    assert!(err.is_none());
    assert_eq!(lines, vec!["2/3".to_string(), "-5/2".to_string()]);
}

#[test]
fn scientific_negative_value() {
    let (lines, err) = run_source("0 - 5/2", Format::Scientific);
    assert!(err.is_none());
    assert_eq!(lines, vec!["-2.5".to_string()]);
}

#[test]
fn format_names() {
    assert!(matches!(parse_format("fraction"), Ok(Format::Fraction)));
    assert!(matches!(parse_format("MIXED"), Ok(Format::Mixed)));
    assert!(matches!(parse_format("Scientific"), Ok(Format::Scientific)));
    assert!(parse_format("decimal").is_err());
}

#[test]
fn decimal_literals() {
    let (lines, err) = run_source("1.5 + 1.25", Format::Fraction);
    assert!(err.is_none());
    assert_eq!(lines, vec!["11/4".to_string()]);
}

#[test]
fn comments_are_whitespace() {
    let (lines, err) = run_source("1 ** a comment ** + 2", Format::Scientific);
    assert!(err.is_none());
    assert_eq!(lines, vec!["3".to_string()]);
}

#[test]
fn value_algebra_basics() {
    let frac = |n: i64, d: u64| {
        Rational::from_parts(n < 0, Natural::from(n.unsigned_abs()), Natural::from(d))
    };
    let a = Value::Number(frac(1, 2));
    let b = Value::Number(frac(1, 3));
    let sum = a.add(&b);
    assert!(sum.eq_val(&Value::Number(frac(5, 6))));
    let two = Value::Number(frac(2, 1));
    let half = Value::Number(frac(1, 2));
    assert!(two.duplicate().mul(&half).eq_val(&Value::Number(frac(1, 1))));
    let neg = Value::Number(frac(-3, 4));
    assert!(neg.duplicate().abs().eq_val(&Value::Number(frac(3, 4))));
}
