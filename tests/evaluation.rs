use arith_eval::environment::Environment;
use arith_eval::expression::{EvalError, Expression, Resolved};
use arith_eval::resolution::{
    resolve_addition, resolve_expression, resolve_multiplication, resolve_subtraction,
};

/// Folds a resolved tree into a number, adding, multiplying and subtracting
/// left to right.
fn value(r: &Resolved<f64>) -> f64 {
    match r {
        Resolved::Add(rs) => rs.iter().fold(0.0, |total, next| total + value(next)),
        Resolved::Multiply(rs) => rs.iter().fold(1.0, |total, next| total * value(next)),
        Resolved::Subtract(first, rest) => {
            rest.iter().fold(value(first), |total, next| total - value(next))
        }
        Resolved::Number(v) => *v,
    }
}

fn evaluate(e: &Expression<f64>, env: &Environment<f64>) -> Result<f64, EvalError> {
    resolve_expression(e, env).map(|r| value(&r))
}

fn num(v: f64) -> Expression<f64> {
    Expression::Number(v)
}

fn var(name: &str) -> Expression<f64> {
    Expression::Variable(String::from(name))
}

#[test]
fn it_works() {
    assert_eq!(2 + 2, 4);
}

#[test]
fn basic_addition() {
    let values = vec![Expression::Number(2.0), Expression::Number(2.0)];
    let sum = resolve_addition(&Expression::Add(values), &Environment::new()).unwrap();
    assert_eq!(4.0, value(&sum));
}

#[test]
fn basic_subtraction() {
    let values = vec![Expression::Number(4.0), Expression::Number(2.0)];
    let remainder =
        resolve_subtraction(&Expression::Subtract(values), &Environment::new()).unwrap();
    assert_eq!(2.0, value(&remainder));
}

#[test]
fn basic_multiplication() {
    let values = vec![Expression::Number(2.0), Expression::Number(2.0)];
    let product =
        resolve_multiplication(&Expression::Multiply(values), &Environment::new()).unwrap();
    assert_eq!(4.0, value(&product));
}

#[test]
fn simple_environment() {
    let mut environment = Environment::new();
    environment.define(String::from("x"), Expression::Number(5.0));
    let values = vec![Expression::Number(2.0), Expression::Variable(String::from("x"))];
    let sum = resolve_expression(&Expression::Add(values), &environment).unwrap();
    assert_eq!(7.0, value(&sum));
}

#[test]
fn empty_sum_and_product_are_identities() {
    let env = Environment::new();
    assert_eq!(evaluate(&Expression::Add(vec![]), &env), Ok(0.0));
    assert_eq!(evaluate(&Expression::Multiply(vec![]), &env), Ok(1.0));
    assert_eq!(resolve_expression(&Expression::Add(vec![]), &env), Ok(Resolved::Add(vec![])));
}

#[test]
fn single_operand_subtraction_is_the_operand() {
    let mut env = Environment::new();
    env.define(String::from("x"), num(6.5));
    let e = Expression::Subtract(vec![Expression::Add(vec![var("x"), num(1.0)])]);
    let expected = Resolved::Subtract(
        Box::new(Resolved::Add(vec![Resolved::Number(6.5), Resolved::Number(1.0)])),
        vec![],
    );
    assert_eq!(resolve_expression(&e, &env), Ok(expected));
    assert_eq!(evaluate(&e, &env), Ok(7.5));
    assert_eq!(evaluate(&Expression::Subtract(vec![num(-3.25)]), &env), Ok(-3.25));
}

#[test]
fn empty_subtraction_is_malformed() {
    let env = Environment::new();
    let e: Expression<f64> = Expression::Subtract(vec![]);
    assert_eq!(resolve_expression(&e, &env), Err(EvalError::MalformedExpression));
    assert_eq!(resolve_subtraction(&e, &env), Err(EvalError::MalformedExpression));
}

#[test]
fn subtraction_runs_left_to_right() {
    let env = Environment::new();
    assert_eq!(evaluate(&Expression::Subtract(vec![num(4.0), num(2.0)]), &env), Ok(2.0));
    assert_eq!(
        evaluate(&Expression::Subtract(vec![num(9.0), num(2.0), num(3.0)]), &env),
        Ok(4.0)
    );
}

#[test]
fn literal_sum_and_product() {
    let env = Environment::new();
    assert_eq!(evaluate(&Expression::Add(vec![num(2.0), num(2.0)]), &env), Ok(4.0));
    assert_eq!(evaluate(&Expression::Multiply(vec![num(2.0), num(2.0)]), &env), Ok(4.0));
    assert_eq!(
        evaluate(&Expression::Multiply(vec![num(3.0), num(0.5), num(4.0)]), &env),
        Ok(6.0)
    );
}

#[test]
fn variable_is_resolved_from_environment() {
    let mut env = Environment::new();
    env.define(String::from("x"), num(5.0));
    assert_eq!(evaluate(&Expression::Add(vec![var("x"), num(2.0)]), &env), Ok(7.0));
}

#[test]
fn variable_chain_is_followed() {
    let mut env = Environment::new();
    env.define(String::from("x"), var("y"));
    env.define(String::from("y"), num(3.0));
    assert_eq!(evaluate(&var("x"), &env), Ok(3.0));
    assert_eq!(resolve_expression(&var("x"), &env), Ok(Resolved::Number(3.0)));
}

#[test]
fn undefined_variable_fails() {
    let env = Environment::new();
    assert_eq!(evaluate(&var("z"), &env), Err(EvalError::UndefinedVariable));
    let mut env = Environment::new();
    env.define(String::from("x"), num(1.0));
    assert_eq!(evaluate(&var("z"), &env), Err(EvalError::UndefinedVariable));
}

#[test]
fn nested_composition() {
    let env = Environment::new();
    let tree = || {
        Expression::Multiply(vec![
            num(2.5),
            Expression::Add(vec![num(3.0), num(4.0), num(5.0)]),
        ])
    };
    assert_eq!(evaluate(&tree(), &env), Ok(30.0));
    let diff = evaluate(&Expression::Subtract(vec![tree(), num(2.2)]), &env).unwrap();
    assert!((diff - 27.8).abs() < 1e-9);
}

#[test]
fn redefinition_replaces_binding() {
    let mut env = Environment::new();
    env.define(String::from("x"), num(1.0));
    env.define(String::from("x"), num(2.0));
    assert_eq!(env.resolve(&String::from("x")), Ok(&num(2.0)));
    assert_eq!(env.len(), 1);
    assert_eq!(evaluate(&var("x"), &env), Ok(2.0));
}

#[test]
fn resolve_returns_the_binding_unevaluated() {
    let mut env = Environment::new();
    let bound = Expression::Add(vec![var("y"), num(1.0)]);
    env.define(String::from("x"), Expression::Add(vec![var("y"), num(1.0)]));
    assert_eq!(env.resolve(&String::from("x")), Ok(&bound));
    assert_eq!(env.resolve(&String::from("y")), Err(EvalError::UndefinedVariable));
}

#[test]
fn new_environment_is_empty() {
    let env: Environment<f64> = Environment::new();
    assert_eq!(env.len(), 0);
    assert_eq!(env.resolve(&String::new()), Err(EvalError::UndefinedVariable));
}

#[test]
fn wrong_kind_is_malformed() {
    let env = Environment::new();
    let product = Expression::Multiply(vec![num(2.0)]);
    let sum = Expression::Add(vec![num(2.0)]);
    assert_eq!(resolve_addition(&product, &env), Err(EvalError::MalformedExpression));
    assert_eq!(resolve_multiplication(&sum, &env), Err(EvalError::MalformedExpression));
    assert_eq!(resolve_subtraction(&num(1.0), &env), Err(EvalError::MalformedExpression));
    assert_eq!(resolve_addition(&var("x"), &env), Err(EvalError::MalformedExpression));
}

#[test]
fn self_reference_is_a_cycle() {
    let mut env = Environment::new();
    env.define(String::from("x"), Expression::Add(vec![var("x"), num(1.0)]));
    assert_eq!(evaluate(&var("x"), &env), Err(EvalError::ResolutionCycle));
}

#[test]
fn mutual_reference_is_a_cycle() {
    let mut env = Environment::new();
    env.define(String::from("a"), var("b"));
    env.define(String::from("b"), var("a"));
    assert_eq!(evaluate(&var("a"), &env), Err(EvalError::ResolutionCycle));
}

#[test]
fn repeated_use_of_a_name_is_no_cycle() {
    let mut env = Environment::new();
    env.define(String::from("x"), num(2.0));
    env.define(String::from("y"), Expression::Multiply(vec![var("x"), var("x")]));
    let e = Expression::Add(vec![var("y"), var("y"), var("x")]);
    assert_eq!(evaluate(&e, &env), Ok(10.0));
}

#[test]
fn first_failure_left_to_right_wins() {
    let env = Environment::new();
    let undefined_first = Expression::Add(vec![var("z"), Expression::Subtract(vec![])]);
    let malformed_first = Expression::Add(vec![Expression::Subtract(vec![]), var("z")]);
    assert_eq!(evaluate(&undefined_first, &env), Err(EvalError::UndefinedVariable));
    assert_eq!(evaluate(&malformed_first, &env), Err(EvalError::MalformedExpression));
}

#[test]
fn failure_deep_inside_aborts_evaluation() {
    let env = Environment::new();
    let e = Expression::Multiply(vec![
        num(2.0),
        Expression::Subtract(vec![num(1.0), Expression::Add(vec![num(1.0), var("q")])]),
    ]);
    assert_eq!(evaluate(&e, &env), Err(EvalError::UndefinedVariable));
}

#[test]
fn default_environment_is_empty() {
    let env: Environment<f64> = Environment::default();
    assert_eq!(env.len(), 0);
    assert_eq!(evaluate(&Expression::Add(vec![num(1.5), num(2.5)]), &env), Ok(4.0));
    assert_eq!(evaluate(&var("x"), &env), Err(EvalError::UndefinedVariable));
}

#[test]
fn clone_gives_the_same_tree() {
    let tree = Expression::Subtract(vec![
        Expression::Multiply(vec![num(2.5), var("x")]),
        Expression::Add(vec![]),
    ]);
    let copy = tree.clone();
    assert_eq!(copy, tree);
    let mut env = Environment::new();
    env.define(String::from("x"), num(4.0));
    assert_eq!(evaluate(&copy, &env), evaluate(&tree, &env));
    assert_eq!(evaluate(&copy, &env), Ok(10.0));
}
