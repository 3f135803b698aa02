use cas::Operator;
use cas::RewriteRule;
use cas::RewriteSystem;
use cas::Substitution;
use cas::TermCmp;

fn var(name: &str) -> Operator {
    Operator::Variable(String::from(name))
}

fn or(l: Operator, r: Operator) -> Operator {
    Operator::Or(Box::new(l), Box::new(r))
}

fn rule(lhs: Operator, rhs: Operator) -> RewriteRule {
    RewriteRule::new(lhs, rhs).expect("rule should be well formed")
}

/// The boolean identity table for disjunction.
fn or_rules() -> RewriteSystem {
    vec![
        rule(or(var("a"), Operator::True), Operator::True),
        rule(or(Operator::True, var("a")), Operator::True),
        rule(or(var("a"), Operator::False), var("a")),
        rule(or(Operator::False, var("a")), var("a")),
        rule(or(var("a"), var("a")), var("a")),
    ]
}

#[test]
fn scenario_one_nested_disjunction_collapses_to_true() {
    let rules = or_rules();
    let exp = or(
        Operator::True,
        or(Operator::False, or(Operator::False, Operator::False)),
    );
    let normal = exp.simplify(&rules, 100).expect("budget is ample");
    assert!(normal.matches_exact(&Operator::True));
}

#[test]
fn scenario_two_idempotent_disjunction_collapses_to_variable() {
    let rules = or_rules();
    let exp = or(var("a"), or(var("a"), Operator::False));
    let normal = exp.simplify(&rules, 100).expect("budget is ample");
    assert!(normal.matches_exact(&var("a")));
}

#[test]
fn normalization_is_deterministic() {
    let rules = or_rules();
    let exp = or(or(var("a"), Operator::False), or(Operator::False, var("a")));
    let first = exp.simplify(&rules, 100).expect("budget is ample");
    let second = exp.simplify(&rules, 100).expect("budget is ample");
    assert!(first.matches_exact(&second));
}

#[test]
fn normalization_is_idempotent_on_concrete_input() {
    let rules = or_rules();
    let exp = or(Operator::True, or(var("a"), Operator::False));
    let once = exp.simplify(&rules, 100).expect("budget is ample");
    let twice = once.simplify(&rules, 100).expect("a normal form costs no steps");
    assert!(once.matches_exact(&twice));
}

#[test]
fn budget_exhaustion_is_reported() {
    // A rule that swaps its arguments fires forever on any concrete
    // disjunction of two distinct constants.
    let swap = vec![rule(or(var("a"), var("b")), or(var("b"), var("a")))];
    let exp = or(Operator::True, Operator::False);
    assert!(exp.simplify(&swap, 50).is_err());
}

#[test]
fn leaves_are_already_normal() {
    let rules = or_rules();
    let normal = Operator::True.simplify(&rules, 0).expect("no step is needed");
    assert!(normal.matches_exact(&Operator::True));
}

#[test]
fn matcher_binds_variables_and_checks_repeats() {
    let pattern = or(var("x"), var("x"));
    let hit = or(Operator::False, Operator::False);
    let miss = or(Operator::True, Operator::False);
    let mut subs = Substitution::new();
    assert!(hit.matches_rule(&pattern, &mut subs));
    let mut subs2 = Substitution::new();
    assert!(!miss.matches_rule(&pattern, &mut subs2));
}

#[test]
fn failed_match_leaves_substitution_untouched() {
    let pattern = or(var("x"), Operator::True);
    let term = or(Operator::False, Operator::False);
    let mut subs = Substitution::new();
    assert!(!term.matches_rule(&pattern, &mut subs));
    assert!(subs.get(&String::from("x")).is_none());
}

#[test]
fn substitution_instantiates_patterns() {
    let pattern = or(var("x"), var("y"));
    let term = or(Operator::True, Operator::False);
    let mut subs = Substitution::new();
    assert!(term.matches_rule(&pattern, &mut subs));
    let rebuilt = pattern.apply_rule(&subs);
    assert!(rebuilt.matches_exact(&term));
}

#[test]
fn malformed_rule_is_rejected() {
    // The right side mentions `b`, which the left side does not bind.
    assert!(RewriteRule::new(or(var("a"), Operator::True), var("b")).is_err());
}

#[test]
fn ordering_prefers_heavier_terms() {
    let lhs = or(var("a"), Operator::True);
    assert_eq!(lhs.compare(&Operator::True), TermCmp::Gt);
    assert_eq!(Operator::True.compare(&lhs), TermCmp::Lt);
}

#[test]
fn ordering_breaks_weight_ties_by_rank() {
    assert_eq!(Operator::False.compare(&Operator::True), TermCmp::Gt);
    assert_eq!(Operator::True.compare(&Operator::True), TermCmp::Eq);
}

#[test]
fn distinct_variables_are_incomparable() {
    assert_eq!(var("a").compare(&var("b")), TermCmp::Un);
    assert_eq!(var("a").compare(&var("a")), TermCmp::Eq);
}

#[test]
fn structural_equality_is_position_sensitive() {
    let ab = or(var("a"), var("b"));
    let ba = or(var("b"), var("a"));
    assert!(!ab.matches_exact(&ba));
    assert!(ab.matches_exact(&ab.deep_copy()));
}
