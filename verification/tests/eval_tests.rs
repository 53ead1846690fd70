use set_parser::ast::{Expr, Program, Stmt};
use set_parser::eval::{evaluate, Env, EvalError};
use set_parser::parse_program;
use std::collections::BTreeSet;

fn set(values: &[i32]) -> BTreeSet<i32> {
    values.iter().copied().collect()
}

fn run(src: &str) -> Result<Vec<BTreeSet<i32>>, EvalError> {
    let program = parse_program(src).expect("the text should parse");
    Env::default().eval_program(&program)
}

fn ident(name: &str) -> Box<Expr> {
    Box::new(Expr::Ident(name.to_string()))
}

#[test]
fn complement_and_difference_program() {
    let src = "let universe={1,2,3,4,5}; let A={1,2}; let B=A' \\ {2}; print A ∪ B;";
    let program = parse_program(src).expect("the text should parse");
    assert_eq!(program.stmts.len(), 4);
    assert!(matches!(program.stmts[0], Stmt::Let { .. }));
    assert!(matches!(program.stmts[1], Stmt::Let { .. }));
    assert!(matches!(program.stmts[2], Stmt::Let { .. }));
    assert!(matches!(program.stmts[3], Stmt::Print(_)));
    let printed = Env::default().eval_program(&program).expect("the program should run");
    // A' is {3,4,5}, so B is {3,4,5}; the union with A holds 2, as A does.
    assert_eq!(printed, vec![set(&[1, 2, 3, 4, 5])]);
}

#[test]
fn reading_an_unbound_name_fails() {
    match run("print A;") {
        Err(EvalError::Undefined(name)) => assert_eq!(name, "A"),
        other => panic!("expected an undefined name, got {:?}", other),
    }
}

#[test]
fn complement_without_universe_fails() {
    assert!(matches!(run("let A={1,2}; print A';"), Err(EvalError::NoUniverse)));
}

#[test]
fn reversed_range_is_normalized() {
    assert_eq!(run("let R = {5..3}; print R;").unwrap(), vec![set(&[3, 4, 5])]);
}

#[test]
fn grouping_with_complement_and_symmetric_difference() {
    let src = "let universe={1,2,3}; let A={1}; let B={2}; print (A ∩ B)' △ (A △ B);";
    // (A ∩ B)' is {1,2,3}, A △ B is {1,2}.
    assert_eq!(run(src).unwrap(), vec![set(&[3])]);
}

#[test]
fn program_without_print_prints_nothing() {
    assert_eq!(run("let A = {1}; let B = A ∪ {2}; let universe = B;").unwrap(), Vec::new());
    assert_eq!(run("").unwrap(), Vec::new());
}

#[test]
fn prints_come_in_source_order() {
    let printed = run("print {3}; let A = {1}; print A; print ∅;").unwrap();
    assert_eq!(printed, vec![set(&[3]), set(&[1]), set(&[])]);
}

#[test]
fn range_is_the_same_either_way() {
    let env = Env::default();
    let up = env.eval_expr(&Expr::Range(-2, 3)).unwrap();
    let down = env.eval_expr(&Expr::Range(3, -2)).unwrap();
    assert_eq!(up, set(&[-2, -1, 0, 1, 2, 3]));
    assert_eq!(up, down);
}

#[test]
fn range_of_equal_bounds_is_a_singleton() {
    assert_eq!(Env::default().eval_expr(&Expr::Range(7, 7)).unwrap(), set(&[7]));
}

#[test]
fn range_reaches_the_largest_integer() {
    let r = Env::default().eval_expr(&Expr::Range(i32::MAX, i32::MAX - 2)).unwrap();
    assert_eq!(r, set(&[i32::MAX - 2, i32::MAX - 1, i32::MAX]));
    let low = Env::default().eval_expr(&Expr::Range(i32::MIN, i32::MIN + 1)).unwrap();
    assert_eq!(low, set(&[i32::MIN, i32::MIN + 1]));
}

#[test]
fn set_literal_collapses_repeats() {
    let e = Expr::SetLiteral(vec![3, 1, 3, 2, 1]);
    assert_eq!(Env::default().eval_expr(&e).unwrap(), set(&[1, 2, 3]));
    assert_eq!(Env::default().eval_expr(&Expr::SetLiteral(Vec::new())).unwrap(), set(&[]));
    assert_eq!(Env::default().eval_expr(&Expr::Empty).unwrap(), set(&[]));
}

#[test]
fn double_complement_keeps_what_lies_in_the_universe() {
    let src = "let universe = {1,2,3}; let S = {2,3,9}; print S''; print S';";
    assert_eq!(run(src).unwrap(), vec![set(&[2, 3]), set(&[1])]);
}

#[test]
fn complement_ignores_what_lies_outside_the_universe() {
    assert_eq!(run("let universe = {1,2}; print {2,7,8}';").unwrap(), vec![set(&[1])]);
}

#[test]
fn binary_operators_on_values() {
    let src = "let A = {1,2,3}; let B = {3,4}; print A ∪ B; print A ∩ B; print A \\ B; print A △ B;";
    assert_eq!(
        run(src).unwrap(),
        vec![set(&[1, 2, 3, 4]), set(&[3]), set(&[1, 2]), set(&[1, 2, 4])]
    );
}

#[test]
fn union_intersection_and_symmetric_difference_commute() {
    let a = "let A = {1,2,3}; let B = {3,4};";
    let one = run(&format!("{a} print A ∪ B; print A ∩ B; print A △ B;")).unwrap();
    let other = run(&format!("{a} print B ∪ A; print B ∩ A; print B △ A;")).unwrap();
    assert_eq!(one, other);
}

#[test]
fn difference_does_not_commute() {
    let printed = run("let A = {1,2,3}; let B = {3,4}; print A \\ B; print B \\ A;").unwrap();
    assert_eq!(printed, vec![set(&[1, 2]), set(&[4])]);
    assert_ne!(printed[0], printed[1]);
}

#[test]
fn a_second_let_replaces_the_first() {
    let printed = run("let A = {1,2}; print A; let A = {7}; print A;").unwrap();
    assert_eq!(printed, vec![set(&[1, 2]), set(&[7])]);
}

#[test]
fn a_let_may_read_the_name_it_binds() {
    assert_eq!(run("let A = {1}; let A = A ∪ {2}; print A;").unwrap(), vec![set(&[1, 2])]);
}

#[test]
fn universe_is_an_ordinary_name_too() {
    let printed = run("let universe = {1,2,3}; print universe; print universe';").unwrap();
    assert_eq!(printed, vec![set(&[1, 2, 3]), set(&[])]);
}

#[test]
fn rebinding_universe_changes_later_complements() {
    let src = "let universe = {1,2}; let A = {1}; print A'; let universe = {1,2,3}; print A';";
    assert_eq!(run(src).unwrap(), vec![set(&[2]), set(&[2, 3])]);
}

#[test]
fn only_the_exact_name_sets_the_universe() {
    assert!(matches!(run("let Universe = {1,2}; print {1}';"), Err(EvalError::NoUniverse)));
}

#[test]
fn no_forward_references() {
    match run("print B; let B = {1};") {
        Err(EvalError::Undefined(name)) => assert_eq!(name, "B"),
        other => panic!("expected an undefined name, got {:?}", other),
    }
}

#[test]
fn the_left_operand_fails_first() {
    match run("print A ∪ B;") {
        Err(EvalError::Undefined(name)) => assert_eq!(name, "A"),
        other => panic!("expected an undefined name, got {:?}", other),
    }
    match run("let A = {1}; print A ∪ B;") {
        Err(EvalError::Undefined(name)) => assert_eq!(name, "B"),
        other => panic!("expected an undefined name, got {:?}", other),
    }
}

#[test]
fn a_missing_universe_is_reported_before_the_operand() {
    assert!(matches!(run("print A';"), Err(EvalError::NoUniverse)));
    match run("let universe = {1}; print A';") {
        Err(EvalError::Undefined(name)) => assert_eq!(name, "A"),
        other => panic!("expected an undefined name, got {:?}", other),
    }
}

#[test]
fn an_error_gives_no_partial_output() {
    assert!(run("print {1}; print {2}; print Z; print {3};").is_err());
}

#[test]
fn a_failed_program_keeps_the_earlier_bindings() {
    let program = parse_program("let A = {1}; let B = C; let D = {4};").unwrap();
    let mut env = Env::default();
    assert!(env.eval_program(&program).is_err());
    assert_eq!(env.vars.get("A"), Some(&set(&[1])));
    assert_eq!(env.vars.get("B"), None);
    assert_eq!(env.vars.get("D"), None);
}

#[test]
fn default_environment_is_empty() {
    let env = Env::default();
    assert!(env.vars.is_empty());
    assert!(env.universe.is_none());
}

#[test]
fn eval_program_fills_the_environment() {
    let program = Program {
        stmts: vec![
            Stmt::Let { name: "universe".to_string(), value: Expr::Range(1, 3) },
            Stmt::Let { name: "A".to_string(), value: Expr::Complement(ident("universe")) },
            Stmt::Print(Expr::Diff(ident("universe"), ident("A"))),
        ],
    };
    let mut env = Env::default();
    assert_eq!(env.eval_program(&program).unwrap(), vec![set(&[1, 2, 3])]);
    assert_eq!(env.universe, Some(set(&[1, 2, 3])));
    assert_eq!(env.vars.get("A"), Some(&set(&[])));
    assert_eq!(env.vars.len(), 2);
}

#[test]
fn an_environment_can_run_two_programs() {
    let mut env = Env::default();
    env.eval_program(&parse_program("let A = {1,2};").unwrap()).unwrap();
    let printed = env.eval_program(&parse_program("print A;").unwrap()).unwrap();
    assert_eq!(printed, vec![set(&[1, 2])]);
}

#[test]
fn evaluate_starts_from_an_empty_environment() {
    let program = parse_program("let A = {2,1}; print A; print A \\ {1};").unwrap();
    assert_eq!(evaluate(&program).unwrap(), vec![set(&[1, 2]), set(&[2])]);
    assert_eq!(evaluate(&program).unwrap(), run("let A = {2,1}; print A; print A \\ {1};").unwrap());
    assert!(matches!(
        evaluate(&parse_program("print A';").unwrap()),
        Err(EvalError::NoUniverse)
    ));
}
