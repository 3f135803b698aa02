use cas::Equation;
use cas::Operator;
use cas::TermCmp;
use cas::knuth_bendix_completion;
use cas::unify;

fn var(name: &str) -> Operator {
    Operator::Variable(String::from(name))
}

fn or(l: Operator, r: Operator) -> Operator {
    Operator::Or(Box::new(l), Box::new(r))
}

fn eq(lhs: Operator, rhs: Operator) -> Equation {
    Equation { lhs, rhs }
}

#[test]
fn scenario_five_completion_orients_and_joins() {
    let axioms = vec![
        eq(or(var("a"), Operator::True), Operator::True),
        eq(or(var("a"), Operator::False), var("a")),
        eq(or(Operator::True, var("a")), Operator::True),
    ];
    let system = knuth_bendix_completion(&axioms, 200).expect("the axioms orient");
    let left = or(Operator::False, Operator::True);
    let right = or(Operator::True, Operator::False);
    let nl = left.simplify(&system, 100).expect("budget is ample");
    let nr = right.simplify(&system, 100).expect("budget is ample");
    assert!(nl.matches_exact(&Operator::True));
    assert!(nr.matches_exact(&Operator::True));
    assert!(nl.matches_exact(&nr));
}

#[test]
fn completed_rules_are_oriented() {
    let axioms = vec![
        eq(or(var("a"), Operator::True), Operator::True),
        eq(or(var("a"), Operator::False), var("a")),
        eq(or(Operator::True, var("a")), Operator::True),
    ];
    let system = knuth_bendix_completion(&axioms, 200).expect("the axioms orient");
    for rule in &system {
        assert_eq!(rule.lhs().compare(rule.rhs()), TermCmp::Gt);
    }
}

#[test]
fn converged_system_has_joinable_critical_pairs() {
    let axioms = vec![
        eq(or(var("a"), Operator::True), Operator::True),
        eq(or(var("a"), Operator::False), var("a")),
        eq(or(Operator::True, var("a")), Operator::True),
    ];
    let system = knuth_bendix_completion(&axioms, 200).expect("the axioms orient");
    assert!(cas::critical_pairs_join(&system, 100));
}

#[test]
fn diverging_critical_pair_is_detected() {
    // Two rules with the same left side send it to two different
    // variables; their root overlap yields the pair (a, b), which no
    // rule joins.
    let r1 = cas::RewriteRule::new(or(var("a"), var("b")), var("a")).expect("valid rule");
    let r2 = cas::RewriteRule::new(or(var("a"), var("b")), var("b")).expect("valid rule");
    let system = vec![r1, r2];
    assert!(!cas::critical_pairs_join(&system, 100));
}

#[test]
fn equation_of_two_distinct_variables_is_unorientable() {
    let axioms = vec![eq(var("a"), var("b"))];
    assert!(knuth_bendix_completion(&axioms, 50).is_err());
}

#[test]
fn empty_axiom_set_completes_to_the_empty_system() {
    let axioms: Vec<Equation> = vec![];
    let system = knuth_bendix_completion(&axioms, 10).expect("nothing to do");
    assert!(system.is_empty());
}

#[test]
fn trivial_axioms_are_discarded() {
    let axioms = vec![eq(Operator::True, Operator::True)];
    let system = knuth_bendix_completion(&axioms, 10).expect("nothing to orient");
    assert!(system.is_empty());
}

#[test]
fn smaller_side_becomes_the_right_side() {
    // The axiom is stated with the small side first; orientation flips it.
    let axioms = vec![eq(Operator::True, or(var("a"), Operator::True))];
    let system = knuth_bendix_completion(&axioms, 50).expect("the axiom orients");
    assert_eq!(system.len(), 1);
    assert!(system[0].lhs().matches_exact(&or(var("a"), Operator::True)));
    assert!(system[0].rhs().matches_exact(&Operator::True));
}

#[test]
fn equation_normalization_reduces_both_sides() {
    let axioms = vec![
        eq(or(var("a"), Operator::True), Operator::True),
        eq(or(var("a"), Operator::False), var("a")),
        eq(or(Operator::True, var("a")), Operator::True),
    ];
    let system = knuth_bendix_completion(&axioms, 200).expect("the axioms orient");
    let raw = eq(
        or(Operator::False, Operator::True),
        or(Operator::True, Operator::True),
    );
    let normalized = raw.normalize(&system, 100).expect("budget is ample");
    assert!(normalized.is_trivial());
    assert!(normalized.lhs.matches_exact(&Operator::True));
}

#[test]
fn equation_triviality_is_structural() {
    assert!(eq(var("a"), var("a")).is_trivial());
    assert!(!eq(var("a"), var("b")).is_trivial());
}

#[test]
fn unifier_identifies_both_patterns() {
    let p1 = or(var("x"), Operator::True);
    let p2 = or(Operator::False, var("y"));
    let subs = unify(&p1, &p2).expect("the patterns overlap");
    let i1 = p1.apply_subst(&subs);
    let i2 = p2.apply_subst(&subs);
    assert!(i1.matches_exact(&i2));
}

#[test]
fn bound_variable_propagates_to_the_other_side() {
    // After x binds to 1 on the left, the repeated x forces y to 1.
    let p1 = or(var("x"), var("x"));
    let p2 = or(Operator::True, var("y"));
    let subs = unify(&p1, &p2).expect("x and y both bind to the constant");
    let i1 = p1.apply_subst(&subs);
    let i2 = p2.apply_subst(&subs);
    assert!(i1.matches_exact(&i2));
    assert!(i1.matches_exact(&or(Operator::True, Operator::True)));
}

#[test]
fn repeated_variable_unifies_against_constant_and_variable() {
    // After x binds to y, the second x-position resolves the binding and
    // unifies it with the constant, so y also binds.
    let p1 = or(var("x"), var("x"));
    let p2 = or(var("y"), Operator::True);
    let subs = unify(&p1, &p2).expect("x and y both end bound to the constant");
    let i1 = p1.apply_subst(&subs);
    let i2 = p2.apply_subst(&subs);
    assert!(i1.matches_exact(&i2));
    assert!(i1.matches_exact(&or(Operator::True, Operator::True)));
}

#[test]
fn idempotence_overlap_is_generated_and_completion_converges() {
    // The identity rule overlaps into the idempotence rule's left side;
    // the resolving unifier finds that critical pair and completion
    // still converges.
    let axioms = vec![
        eq(or(var("a"), var("a")), var("a")),
        eq(or(var("a"), Operator::True), Operator::True),
    ];
    let system = knuth_bendix_completion(&axioms, 200).expect("the axioms orient and join");
    let input = or(or(Operator::True, Operator::True), Operator::True);
    let normal = input.simplify(&system, 100).expect("budget is ample");
    assert!(normal.matches_exact(&Operator::True));
}

#[test]
fn variable_duplicating_orientation_is_rejected() {
    // The heavier side uses `a` once, the lighter side twice: orienting
    // either way would break the variable-count condition or the
    // ordering, so completion must fail rather than accept a rule that
    // grows terms when applied.
    let heavier = or(
        Operator::Not(Box::new(var("a"))),
        Operator::True,
    );
    let lighter = Operator::And(Box::new(var("a")), Box::new(var("a")));
    let axioms = vec![eq(heavier, lighter)];
    assert!(knuth_bendix_completion(&axioms, 50).is_err());
}

#[test]
fn clashing_patterns_do_not_unify() {
    assert!(unify(&Operator::True, &Operator::False).is_none());
    let p1 = or(var("x"), Operator::True);
    assert!(unify(&p1, &Operator::True).is_none());
}
