use cas::Operator;

fn var(name: &str) -> Operator {
    Operator::Variable(String::from(name))
}

#[test]
fn renders_disjunction_infix() {
    let exp = Operator::Or(Box::new(var("a")), Box::new(Operator::True));
    assert_eq!(exp.render(), "(a + 1)");
}

#[test]
fn renders_conjunction_and_negation() {
    let exp = Operator::And(
        Box::new(Operator::Not(Box::new(var("x")))),
        Box::new(Operator::False),
    );
    assert_eq!(exp.render(), "((not x) * 0)");
}

#[test]
fn renders_numbers_in_decimal() {
    assert_eq!(Operator::Number(0).render(), "0");
    assert_eq!(Operator::Number(9).render(), "9");
    assert_eq!(Operator::Number(1204).render(), "1204");
    assert_eq!(Operator::Number(-42).render(), "-42");
    assert_eq!(Operator::Number(i64::MIN).render(), "-9223372036854775808");
}

#[test]
fn renders_sums_and_products() {
    let sum = Operator::Sum(vec![
        Operator::Number(9),
        Operator::Number(10),
        Operator::Number(2),
    ]);
    assert_eq!(sum.render(), "(9 + 10 + 2)");
    let product = Operator::Product(vec![var("x"), Operator::Number(6)]);
    assert_eq!(product.render(), "(x * 6)");
}
