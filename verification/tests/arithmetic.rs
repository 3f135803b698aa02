use cas::Operator;

fn num(n: i64) -> Operator {
    Operator::Number(n)
}

#[test]
fn scenario_three_sum_folds_to_constant() {
    let exp = Operator::Sum(vec![num(9), num(10), num(2)]);
    let normal = exp.simplify_arithmetic().expect("no overflow");
    assert!(normal.matches_exact(&num(21)));
}

#[test]
fn scenario_four_empty_product_is_one() {
    let exp = Operator::Product(vec![]);
    let normal = exp.simplify_arithmetic().expect("no overflow");
    assert!(normal.matches_exact(&num(1)));
}

#[test]
fn scenario_four_partial_product_keeps_the_product_tag() {
    let exp = Operator::Product(vec![
        Operator::Variable(String::from("x")),
        num(2),
        num(3),
    ]);
    let normal = exp.simplify_arithmetic().expect("no overflow");
    assert!(matches!(normal, Operator::Product(_)));
    let expected = Operator::Product(vec![Operator::Variable(String::from("x")), num(6)]);
    assert!(normal.matches_exact(&expected));
}

#[test]
fn nested_sums_are_flattened_and_folded() {
    let inner = Operator::Sum(vec![num(2), num(3), Operator::Variable(String::from("y"))]);
    let exp = Operator::Sum(vec![num(1), inner, Operator::Variable(String::from("x"))]);
    let normal = exp.simplify_arithmetic().expect("no overflow");
    let expected = Operator::Sum(vec![
        Operator::Variable(String::from("y")),
        Operator::Variable(String::from("x")),
        num(6),
    ]);
    assert!(normal.matches_exact(&expected));
}

#[test]
fn neutral_constant_disappears() {
    let exp = Operator::Sum(vec![num(0), Operator::Variable(String::from("x"))]);
    let normal = exp.simplify_arithmetic().expect("no overflow");
    assert!(normal.matches_exact(&Operator::Variable(String::from("x"))));
}

#[test]
fn empty_sum_is_zero() {
    let exp = Operator::Sum(vec![]);
    let normal = exp.simplify_arithmetic().expect("no overflow");
    assert!(normal.matches_exact(&num(0)));
}

#[test]
fn overflow_is_reported_not_wrapped() {
    let exp = Operator::Sum(vec![num(i64::MAX), num(1)]);
    assert!(exp.simplify_arithmetic().is_err());
    let exp2 = Operator::Product(vec![num(i64::MAX), num(2)]);
    assert!(exp2.simplify_arithmetic().is_err());
}

#[test]
fn boolean_nodes_pass_through_unchanged() {
    let exp = Operator::Or(
        Box::new(Operator::Sum(vec![num(1), num(2)])),
        Box::new(Operator::False),
    );
    let normal = exp.simplify_arithmetic().expect("no overflow");
    let expected = Operator::Or(Box::new(num(3)), Box::new(Operator::False));
    assert!(normal.matches_exact(&expected));
}
