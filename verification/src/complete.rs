//! Knuth-Bendix completion: orient a set of unoriented axioms into a
//! rewrite system, generating critical pairs by superposition and
//! processing them until no pending equation remains, an equation cannot
//! be oriented, or the round budget runs out. The executable loop
//! returns exactly what the mathematical completion function prescribes,
//! and when the axioms are true identities, every rule of the produced
//! system (partial or not) is semantically sound.

use vstd::prelude::*;
use crate::term::Operator;
use crate::term::TermModel;
use crate::term::rename_model;
use crate::subst::Substitution;
use crate::subst::term_vars;
use crate::subst::subst_model;
use crate::rule::Equation;
use crate::rule::EquationModel;
use crate::rule::RewriteRule;
use crate::rule::RewriteSystem;
use crate::rule::RuleModel;
use crate::rule::MalformedRule;
use crate::rule::sys_model;
use crate::normal::norm_term;
use crate::laws::is_nf;
use crate::laws::lemma_norm_term_nf;
use crate::order::TermCmp;
use crate::order::term_gt;
use crate::order::var_counts_ok;
use crate::sem::Val;
use crate::sem::eval;
use crate::sem::eq_sound;
use crate::sem::rule_sound;
use crate::sem::sys_sound;
use crate::sem::lemma_eval_subst;
use crate::sem::lemma_norm_preserves_eval;
use crate::sem::lemma_rename_rule_sound;
use crate::sem::bool_env;
use crate::sem::bool_term;
use crate::sem::eq_sound_bool;
use crate::sem::rule_sound_bool;
use crate::sem::sys_sound_bool;
use crate::sem::lemma_subst_bool;
use crate::sem::lemma_env_after_bool;
use crate::sem::lemma_norm_preserves_eval_bool;
use crate::sem::lemma_rename_rule_sound_bool;
use crate::unify::overlay_ok_bool;
use crate::unify::lemma_overlays_sound_bool;
use crate::unify::overlaps;
use crate::unify::overlay_sound;
use crate::unify::overlays_model;
use crate::unify::pair_models;
use crate::unify::lemma_overlays_sound;

verus! {

/// Why completion stopped without a confluent system. The partial system
/// built so far is returned for diagnosis in either case.
#[derive(Debug)]
pub enum CompletionError {
    /// Neither side of the reported equation can serve as the left side
    /// of a valid rule.
    NonOrientable { partial: RewriteSystem, equation: Equation },
    /// The round budget, or a normalization budget inside a round, ran
    /// out.
    OutOfBudget { partial: RewriteSystem },
}

/// Outcome of the mathematical completion function.
pub enum CompletionOutcome {
    Converged(Seq<RuleModel>),
    Unorientable(Seq<RuleModel>, EquationModel),
    Exhausted(Seq<RuleModel>),
}

/// The models of a list of equations, in order.
pub open spec fn eq_models(es: Seq<Equation>) -> Seq<EquationModel> {
    es.map_values(|e: Equation| e@)
}

/// `l -> r` is a valid oriented rule: the left side strictly dominates
/// the right under the term ordering, binds all of its variables, and
/// satisfies the Knuth-Bendix variable condition (no variable occurs
/// more often on the right), so applying the rule never duplicates a
/// bound subterm beyond what the left side matched.
pub open spec fn orientable(l: TermModel, r: TermModel) -> bool {
    term_gt(l, r) && term_vars(r).subset_of(term_vars(l)) && var_counts_ok(l, r)
}

/// The suffix that keeps one rule's variables apart from the other's
/// during superposition.
pub open spec fn apart_suffix() -> Seq<char> {
    "~"@
}

/// The rule with its variables renamed apart.
pub open spec fn rule_apart(r: RuleModel) -> RuleModel {
    RuleModel {
        lhs: rename_model(r.lhs, apart_suffix()),
        rhs: rename_model(r.rhs, apart_suffix()),
    }
}

/// The critical pairs of overlaying rule `inner` into `outer`'s left
/// side: for each overlay, the instantiated right side of `outer`
/// against the instantiated overlaid term. The inner rule's variables
/// are renamed apart first.
pub open spec fn pairs_of(outer: RuleModel, inner: RuleModel) -> Seq<EquationModel> {
    Seq::new(
        overlays_model(outer.lhs, inner.lhs, inner.rhs).len(),
        |i: int|
            EquationModel {
                lhs: subst_model(
                    outer.rhs,
                    overlays_model(outer.lhs, inner.lhs, inner.rhs)[i].1,
                ),
                rhs: subst_model(
                    overlays_model(outer.lhs, inner.lhs, inner.rhs)[i].0,
                    overlays_model(outer.lhs, inner.lhs, inner.rhs)[i].1,
                ),
            },
    )
}

/// The critical pairs of a new rule against every rule of the system
/// from position `j` on, in both directions.
pub open spec fn cross_pairs(system: Seq<RuleModel>, r: RuleModel, j: int) -> Seq<
    EquationModel,
>
    decreases system.len() - j,
{
    if j < 0 || j >= system.len() {
        Seq::empty()
    } else {
        pairs_of(system[j], rule_apart(r)) + pairs_of(r, rule_apart(system[j]))
            + cross_pairs(system, r, j + 1)
    }
}

/// The completion loop, as a mathematical function: process the first
/// pending equation (normalize both sides against the system, discard a
/// trivial result, orient and accept a rule plus its critical pairs, or
/// stop on an unorientable equation), spending one round of the step
/// budget per equation.
pub open spec fn complete_rec(
    pending: Seq<EquationModel>,
    system: Seq<RuleModel>,
    steps: nat,
    budget: nat,
) -> CompletionOutcome
    decreases steps,
{
    if pending.len() == 0 {
        CompletionOutcome::Converged(system)
    } else if steps == 0 {
        CompletionOutcome::Exhausted(system)
    } else {
        let e = pending[0];
        match (norm_term(e.lhs, system, budget), norm_term(e.rhs, system, budget)) {
            (Option::Some(l), Option::Some(r)) => if l.0 == r.0 {
                complete_rec(pending.drop_first(), system, (steps - 1) as nat, budget)
            } else if orientable(l.0, r.0) {
                let rule = RuleModel { lhs: l.0, rhs: r.0 };
                complete_rec(
                    pending.drop_first() + cross_pairs(system, rule, 0) + pairs_of(rule, rule_apart(rule)),
                    system.push(rule),
                    (steps - 1) as nat,
                    budget,
                )
            } else if orientable(r.0, l.0) {
                let rule = RuleModel { lhs: r.0, rhs: l.0 };
                complete_rec(
                    pending.drop_first() + cross_pairs(system, rule, 0) + pairs_of(rule, rule_apart(rule)),
                    system.push(rule),
                    (steps - 1) as nat,
                    budget,
                )
            } else {
                CompletionOutcome::Unorientable(system, EquationModel { lhs: l.0, rhs: r.0 })
            },
            _ => CompletionOutcome::Exhausted(system),
        }
    }
}

/// Whether every rule of a system is oriented: its left side strictly
/// dominates its right side under the term ordering.
pub open spec fn all_oriented(rs: Seq<RewriteRule>) -> bool {
    forall|i: int| 0 <= i < rs.len() ==> term_gt(#[trigger] rs[i]@.lhs, rs[i]@.rhs)
}

/// Whether every rule of a system is semantically sound.
pub open spec fn rules_sound(rs: Seq<RewriteRule>) -> bool {
    forall|i: int| 0 <= i < rs.len() ==> rule_sound(#[trigger] rs[i]@)
}

/// Whether every equation of a list is semantically sound.
pub open spec fn eqs_sound(es: Seq<Equation>) -> bool {
    forall|i: int| 0 <= i < es.len() ==> eq_sound(#[trigger] es[i]@)
}

/// Whether every rule of a system is a boolean identity.
pub open spec fn rules_sound_bool(rs: Seq<RewriteRule>) -> bool {
    forall|i: int| 0 <= i < rs.len() ==> rule_sound_bool(#[trigger] rs[i]@)
}

/// Whether every equation of a list is a boolean identity.
pub open spec fn eqs_sound_bool(es: Seq<Equation>) -> bool {
    forall|i: int| 0 <= i < es.len() ==> eq_sound_bool(#[trigger] es[i]@)
}

/// A total boolean environment exists.
proof fn lemma_default_bool_env()
    ensures
        bool_env(Map::new(|x: Seq<char>| true, |x: Seq<char>| Val::Bool(true))),
{
}

/// Pointwise boolean soundness of the rules gives boolean soundness of
/// the system model.
proof fn lemma_rules_sound_bool_model(rs: Seq<RewriteRule>)
    requires
        rules_sound_bool(rs),
    ensures
        sys_sound_bool(sys_model(rs)),
{
    assert forall|i: int| 0 <= i < sys_model(rs).len() implies rule_sound_bool(
        #[trigger] sys_model(rs)[i],
    ) by {
        assert(sys_model(rs)[i] == rs[i]@);
        assert(rule_sound_bool(rs[i]@));
    }
}

/// A pair of sides that cannot be oriented into a valid rule in either
/// direction.
pub open spec fn unorientable(e: EquationModel) -> bool {
    !orientable(e.lhs, e.rhs) && !orientable(e.rhs, e.lhs)
}

/// Inter-reduction: each rule's sides are in normal form with respect
/// to the rules accepted before it.
pub open spec fn inter_reduced(rs: Seq<RuleModel>) -> bool {
    forall|i: int| 0 <= i < rs.len() ==> is_nf(rs[i].lhs, #[trigger] rs.take(i)) && is_nf(
        rs[i].rhs,
        rs.take(i),
    )
}

/// Every system the completion function produces is inter-reduced: a
/// rule's two sides were normalized against exactly the rules accepted
/// before it.
pub proof fn lemma_complete_rec_inter_reduced(
    pending: Seq<EquationModel>,
    system: Seq<RuleModel>,
    steps: nat,
    budget: nat,
)
    requires
        inter_reduced(system),
    ensures
        match complete_rec(pending, system, steps, budget) {
            CompletionOutcome::Converged(s) => inter_reduced(s),
            CompletionOutcome::Unorientable(s, _) => inter_reduced(s),
            CompletionOutcome::Exhausted(s) => inter_reduced(s),
        },
    decreases steps,
{
    if pending.len() > 0 && steps > 0 {
        let e = pending[0];
        match (norm_term(e.lhs, system, budget), norm_term(e.rhs, system, budget)) {
            (Option::Some(l), Option::Some(r)) => {
                if l.0 == r.0 {
                    lemma_complete_rec_inter_reduced(
                        pending.drop_first(),
                        system,
                        (steps - 1) as nat,
                        budget,
                    );
                } else if orientable(l.0, r.0) || orientable(r.0, l.0) {
                    let rule = if orientable(l.0, r.0) {
                        RuleModel { lhs: l.0, rhs: r.0 }
                    } else {
                        RuleModel { lhs: r.0, rhs: l.0 }
                    };
                    lemma_norm_term_nf(e.lhs, system, budget);
                    lemma_norm_term_nf(e.rhs, system, budget);
                    let grown = system.push(rule);
                    assert(inter_reduced(grown)) by {
                        assert forall|i: int| 0 <= i < grown.len() implies is_nf(
                            grown[i].lhs,
                            #[trigger] grown.take(i),
                        ) && is_nf(grown[i].rhs, grown.take(i)) by {
                            if i < system.len() {
                                assert(grown.take(i) =~= system.take(i));
                                assert(grown[i] == system[i]);
                                assert(is_nf(system[i].lhs, system.take(i)));
                            } else {
                                assert(grown.take(i) =~= system);
                                assert(grown[i] == rule);
                            }
                        }
                    }
                    lemma_complete_rec_inter_reduced(
                        pending.drop_first() + cross_pairs(system, rule, 0) + pairs_of(
                            rule,
                            rule_apart(rule),
                        ),
                        grown,
                        (steps - 1) as nat,
                        budget,
                    );
                }
            },
            _ => {},
        }
    }
}

/// Inter-reduction of every completion run started from an empty system.
pub proof fn lemma_completion_inter_reduced(axioms: Seq<EquationModel>, budget: nat)
    ensures
        match complete_rec(axioms, Seq::empty(), budget, budget) {
            CompletionOutcome::Converged(s) => inter_reduced(s),
            CompletionOutcome::Unorientable(s, _) => inter_reduced(s),
            CompletionOutcome::Exhausted(s) => inter_reduced(s),
        },
{
    assert(inter_reduced(Seq::<RuleModel>::empty()));
    lemma_complete_rec_inter_reduced(axioms, Seq::empty(), budget, budget);
}

/// Pointwise soundness of the rules gives soundness of the system model.
proof fn lemma_rules_sound_model(rs: Seq<RewriteRule>)
    requires
        rules_sound(rs),
    ensures
        sys_sound(sys_model(rs)),
{
    assert forall|i: int| 0 <= i < sys_model(rs).len() implies rule_sound(
        #[trigger] sys_model(rs)[i],
    ) by {
        assert(sys_model(rs)[i] == rs[i]@);
        assert(rule_sound(rs[i]@));
    }
}

/// Orient the axioms into a rewrite system by the Knuth-Bendix
/// procedure, exactly as the mathematical completion function
/// prescribes. `budget` bounds both the number of equations processed
/// and the rewrite steps of each normalization. The checkable part of
/// confluence for a converged result is decided by
/// [`critical_pairs_join`]; a termination certificate for the resulting
/// system is not machine-checked.
pub fn knuth_bendix_completion(axioms: &Vec<Equation>, budget: u64) -> (res: Result<
    RewriteSystem,
    CompletionError,
>)
    ensures
        ({
            let outcome = complete_rec(
                eq_models(axioms@),
                Seq::empty(),
                budget as nat,
                budget as nat,
            );
            match res {
                Result::Ok(rs) => outcome == CompletionOutcome::Converged(sys_model(rs@)),
                Result::Err(e) => match e {
                    CompletionError::NonOrientable { partial, equation } => outcome
                        == CompletionOutcome::Unorientable(sys_model(partial@), equation@),
                    CompletionError::OutOfBudget { partial } => outcome
                        == CompletionOutcome::Exhausted(sys_model(partial@)),
                },
            }
        }),
        match res {
            Result::Ok(rs) => all_oriented(rs@) && (eqs_sound(axioms@) ==> rules_sound(rs@))
                && (eqs_sound_bool(axioms@) ==> rules_sound_bool(rs@)),
            Result::Err(e) => match e {
                CompletionError::NonOrientable { partial, equation } => all_oriented(partial@)
                    && unorientable(equation@) && (eqs_sound(axioms@) ==> rules_sound(
                    partial@,
                )) && (eqs_sound_bool(axioms@) ==> rules_sound_bool(partial@)),
                CompletionError::OutOfBudget { partial } => all_oriented(partial@) && (
                eqs_sound(axioms@) ==> rules_sound(partial@)) && (eqs_sound_bool(axioms@)
                    ==> rules_sound_bool(partial@)),
            },
        },
        axioms@.len() == 0 ==> (res matches Result::Ok(rs) && rs@.len() == 0),
{
    let ghost goal = complete_rec(eq_models(axioms@), Seq::empty(), budget as nat, budget as nat);
    let mut pending: Vec<Equation> = Vec::new();
    let axiom_count = axioms.len();
    for i in 0..axiom_count
        invariant
            axiom_count == axioms@.len(),
            pending@.len() == i,
            forall|j: int| 0 <= j < i ==> (#[trigger] pending@[j])@ == axioms@[j]@,
        decreases axiom_count - i,
    {
        pending.push(axioms[i].clone());
    }
    let mut system: Vec<RewriteRule> = Vec::new();
    let mut steps: u64 = budget;
    proof {
        assert(eq_models(pending@) =~= eq_models(axioms@));
        assert(sys_model(system@) =~= Seq::<RuleModel>::empty());
        if eqs_sound(axioms@) {
            assert forall|j: int| 0 <= j < pending@.len() implies eq_sound(
                (#[trigger] pending@[j])@,
            ) by {
                assert(eq_sound(axioms@[j]@));
            }
        }
        if eqs_sound_bool(axioms@) {
            assert forall|j: int| 0 <= j < pending@.len() implies eq_sound_bool(
                (#[trigger] pending@[j])@,
            ) by {
                assert(eq_sound_bool(axioms@[j]@));
            }
        }
    }
    while pending.len() > 0
        invariant
            budget as nat >= steps as nat,
            goal == complete_rec(
                eq_models(pending@),
                sys_model(system@),
                steps as nat,
                budget as nat,
            ),
            goal == complete_rec(
                eq_models(axioms@),
                Seq::empty(),
                budget as nat,
                budget as nat,
            ),
            all_oriented(system@),
            axioms@.len() == 0 ==> pending@.len() == 0 && system@.len() == 0,
            eqs_sound(axioms@) ==> rules_sound(system@) && eqs_sound(pending@),
            eqs_sound_bool(axioms@) ==> rules_sound_bool(system@) && (forall|jj: int|
                0 <= jj < pending@.len() ==> eq_sound_bool((#[trigger] pending@[jj])@)),
        decreases steps,
    {
        proof {
            assert(eq_models(pending@).len() > 0);
        }
        if steps == 0 {
            return Result::Err(CompletionError::OutOfBudget { partial: system });
        }
        steps = steps - 1;
        let ghost pending0 = pending@;
        let ghost steps0 = (steps + 1) as nat;
        let eq = pending.remove(0);
        proof {
            assert(pending@ =~= pending0.drop_first());
            assert(eq_models(pending@) =~= eq_models(pending0).drop_first());
            assert(eq@ == eq_models(pending0)[0]);
            if eqs_sound(axioms@) {
                assert(eq_sound(eq@)) by {
                    assert(eq@ == pending0[0]@);
                }
                assert forall|j: int| 0 <= j < pending@.len() implies eq_sound(
                    (#[trigger] pending@[j])@,
                ) by {
                    assert(pending@[j] == pending0[j + 1]);
                    assert(eq_sound(pending0[j + 1]@));
                }
            }
            if eqs_sound_bool(axioms@) {
                assert(eq_sound_bool(eq@)) by {
                    assert(eq@ == pending0[0]@);
                }
                assert forall|j: int| 0 <= j < pending@.len() implies eq_sound_bool(
                    (#[trigger] pending@[j])@,
                ) by {
                    assert(pending@[j] == pending0[j + 1]);
                    assert(eq_sound_bool(pending0[j + 1]@));
                }
            }
        }
        let nl = match eq.lhs.simplify(&system, budget) {
            Result::Ok(t) => t,
            Result::Err(_) => {
                return Result::Err(CompletionError::OutOfBudget { partial: system });
            },
        };
        let nr = match eq.rhs.simplify(&system, budget) {
            Result::Ok(t) => t,
            Result::Err(_) => {
                return Result::Err(CompletionError::OutOfBudget { partial: system });
            },
        };
        proof {
            if eqs_sound(axioms@) {
                lemma_rules_sound_model(system@);
                assert forall|env: Map<Seq<char>, Val>| #[trigger] eval(nl@, env) == eval(
                    nr@,
                    env,
                ) by {
                    lemma_norm_preserves_eval(eq.lhs@, sys_model(system@), budget as nat, env);
                    lemma_norm_preserves_eval(eq.rhs@, sys_model(system@), budget as nat, env);
                    assert(eval(eq@.lhs, env) == eval(eq@.rhs, env));
                }
            }
            if eqs_sound_bool(axioms@) {
                lemma_rules_sound_bool_model(system@);
                let env0 = Map::new(|x: Seq<char>| true, |x: Seq<char>| Val::Bool(true));
                lemma_default_bool_env();
                lemma_norm_preserves_eval_bool(eq.lhs@, sys_model(system@), budget as nat, env0);
                lemma_norm_preserves_eval_bool(eq.rhs@, sys_model(system@), budget as nat, env0);
                assert(bool_term(nl@) && bool_term(nr@));
                assert forall|env: Map<Seq<char>, Val>| bool_env(env) implies #[trigger] eval(
                    nl@,
                    env,
                ) == eval(nr@, env) by {
                    lemma_norm_preserves_eval_bool(
                        eq.lhs@,
                        sys_model(system@),
                        budget as nat,
                        env,
                    );
                    lemma_norm_preserves_eval_bool(
                        eq.rhs@,
                        sys_model(system@),
                        budget as nat,
                        env,
                    );
                    assert(eval(eq@.lhs, env) == eval(eq@.rhs, env));
                }
            }
        }
        if nl.matches_exact(&nr) {
            continue;
        }
        let forward: Option<RewriteRule> = match nl.compare(&nr) {
            TermCmp::Gt => {
                if nr.counts_bounded_by(&nl) {
                    match RewriteRule::new(nl.deep_copy(), nr.deep_copy()) {
                        Result::Ok(rule) => Option::Some(rule),
                        Result::Err(MalformedRule) => Option::None,
                    }
                } else {
                    Option::None
                }
            },
            _ => Option::None,
        };
        let oriented: Option<RewriteRule> = match forward {
            Option::Some(rule) => Option::Some(rule),
            Option::None => match nr.compare(&nl) {
                TermCmp::Gt => {
                    if nl.counts_bounded_by(&nr) {
                        match RewriteRule::new(nr.deep_copy(), nl.deep_copy()) {
                            Result::Ok(rule) => Option::Some(rule),
                            Result::Err(MalformedRule) => Option::None,
                        }
                    } else {
                        Option::None
                    }
                },
                _ => Option::None,
            },
        };
        let rule = match oriented {
            Option::Some(rule) => rule,
            Option::None => {
                proof {
                    assert(!orientable(nl@, nr@) && !orientable(nr@, nl@));
                }
                return Result::Err(
                    CompletionError::NonOrientable {
                        partial: system,
                        equation: Equation { lhs: nl, rhs: nr },
                    },
                );
            },
        };
        proof {
            assert(orientable(rule@.lhs, rule@.rhs));
            assert((rule@.lhs == nl@ && rule@.rhs == nr@) || (rule@.lhs == nr@ && rule@.rhs
                == nl@));
            assert(orientable(nl@, nr@) ==> rule@ == RuleModel { lhs: nl@, rhs: nr@ });
            if eqs_sound(axioms@) {
                assert(rule_sound(rule@)) by {
                    assert forall|env: Map<Seq<char>, Val>| #[trigger] eval(rule@.lhs, env)
                        == eval(rule@.rhs, env) by {
                        assert(eval(nl@, env) == eval(nr@, env));
                    }
                }
            }
            if eqs_sound_bool(axioms@) {
                assert(rule_sound_bool(rule@)) by {
                    assert forall|env: Map<Seq<char>, Val>| bool_env(env) implies #[trigger]
                        eval(rule@.lhs, env) == eval(rule@.rhs, env) by {
                        assert(eval(nl@, env) == eval(nr@, env));
                    }
                }
            }
        }
        // Superpose the new rule with every rule of the system, in both
        // directions, and with itself; each overlap yields a critical
        // pair enqueued as a pending equation.
        let ghost rest0 = eq_models(pending@);
        let ghost rulem = rule@;
        let ghost sysm = sys_model(system@);
        let existing = system.len();
        for j in 0..existing
            invariant
                existing == system@.len(),
                all_oriented(system@),
                sysm == sys_model(system@),
                sysm.len() == existing,
                rulem == rule@,
                eq_models(pending@) + cross_pairs(sysm, rulem, j as int) == rest0
                    + cross_pairs(sysm, rulem, 0),
                eqs_sound(axioms@) ==> rules_sound(system@) && eqs_sound(pending@)
                    && rule_sound(rule@),
                eqs_sound_bool(axioms@) ==> rules_sound_bool(system@) && rule_sound_bool(rule@)
                    && (forall|jj: int| 0 <= jj < pending@.len() ==> eq_sound_bool(
                    (#[trigger] pending@[jj])@,
                )),
            decreases existing - j,
        {
            proof {
                assert(sysm[j as int] == system@[j as int]@);
                if eqs_sound(axioms@) {
                    lemma_rename_rule_sound(rule@, apart_suffix());
                    lemma_rename_rule_sound(system@[j as int]@, apart_suffix());
                }
                if eqs_sound_bool(axioms@) {
                    lemma_rename_rule_sound_bool(rule@, apart_suffix());
                    lemma_rename_rule_sound_bool(system@[j as int]@, apart_suffix());
                }
            }
            let ghost before = eq_models(pending@);
            let outer_old = &system[j];
            let apart_l = rule.lhs().rename_vars("~");
            let apart_r = rule.rhs().rename_vars("~");
            let into_old = overlaps(outer_old.lhs(), &apart_l, &apart_r);
            push_pairs(&mut pending, outer_old, &into_old, Ghost(rule_apart(rule@)));
            let ghost mid = eq_models(pending@);
            let old_apart_l = outer_old.lhs().rename_vars("~");
            let old_apart_r = outer_old.rhs().rename_vars("~");
            let into_new = overlaps(rule.lhs(), &old_apart_l, &old_apart_r);
            push_pairs(&mut pending, &rule, &into_new, Ghost(rule_apart(outer_old@)));
            proof {
                assert(cross_pairs(sysm, rulem, j as int) == pairs_of(
                    sysm[j as int],
                    rule_apart(rulem),
                ) + pairs_of(rulem, rule_apart(sysm[j as int])) + cross_pairs(
                    sysm,
                    rulem,
                    j + 1,
                ));
                assert(mid == before + pairs_of(sysm[j as int], rule_apart(rulem)));
                assert(eq_models(pending@) == mid + pairs_of(rulem, rule_apart(sysm[j as int])));
                assert(eq_models(pending@) + cross_pairs(sysm, rulem, j + 1) =~= before + (
                pairs_of(sysm[j as int], rule_apart(rulem)) + pairs_of(
                    rulem,
                    rule_apart(sysm[j as int]),
                ) + cross_pairs(sysm, rulem, j + 1)));
            }
        }
        let ghost before_self = eq_models(pending@);
        proof {
            if eqs_sound(axioms@) {
                lemma_rename_rule_sound(rule@, apart_suffix());
            }
            if eqs_sound_bool(axioms@) {
                lemma_rename_rule_sound_bool(rule@, apart_suffix());
            }
        }
        let self_apart_l = rule.lhs().rename_vars("~");
        let self_apart_r = rule.rhs().rename_vars("~");
        let self_pairs = overlaps(rule.lhs(), &self_apart_l, &self_apart_r);
        push_pairs(&mut pending, &rule, &self_pairs, Ghost(rule_apart(rule@)));
        let ghost system0 = system@;
        system.push(rule);
        proof {
            assert(cross_pairs(sysm, rulem, existing as int) =~= Seq::<EquationModel>::empty());
            assert(before_self =~= rest0 + cross_pairs(sysm, rulem, 0));
            assert(eq_models(pending@) =~= rest0 + cross_pairs(sysm, rulem, 0) + pairs_of(
                rulem,
                rule_apart(rulem),
            ));
            assert(sys_model(system@) =~= sysm.push(rulem));
            assert(goal == complete_rec(
                eq_models(pending@),
                sys_model(system@),
                steps as nat,
                budget as nat,
            ));
            if eqs_sound(axioms@) {
                assert forall|i: int| 0 <= i < system@.len() implies rule_sound(
                    (#[trigger] system@[i])@,
                ) by {
                    if i < system0.len() {
                        assert(system@[i] == system0[i]);
                    }
                }
            }
            if eqs_sound_bool(axioms@) {
                assert forall|i: int| 0 <= i < system@.len() implies rule_sound_bool(
                    (#[trigger] system@[i])@,
                ) by {
                    if i < system0.len() {
                        assert(system@[i] == system0[i]);
                    }
                }
            }
        }
    }
    proof {
        assert(eq_models(pending@).len() == 0);
    }
    Result::Ok(system)
}

/// A pair of sides that normalize to one term under the system within
/// the budget.
pub open spec fn eq_joins(e: EquationModel, rs: Seq<RuleModel>, budget: nat) -> bool {
    match (norm_term(e.lhs, rs, budget), norm_term(e.rhs, rs, budget)) {
        (Option::Some(l), Option::Some(r)) => l.0 == r.0,
        _ => false,
    }
}

/// Every equation of the list joins under the system.
pub open spec fn eqs_join(es: Seq<EquationModel>, rs: Seq<RuleModel>, budget: nat) -> bool {
    forall|k: int| 0 <= k < es.len() ==> eq_joins(#[trigger] es[k], rs, budget)
}

/// Local confluence of a system, as far as the budget can check it:
/// every critical pair of every ordered pair of rules (self-overlaps
/// included) normalizes to one term under the system itself.
pub open spec fn all_critical_pairs_join(rs: Seq<RuleModel>, budget: nat) -> bool {
    forall|i: int, j: int| 0 <= i < rs.len() && 0 <= j < rs.len() ==> eqs_join(
        #[trigger] pairs_of(rs[i], rule_apart(rs[j])),
        rs,
        budget,
    )
}

/// Decide whether every critical pair of the system joins under the
/// system itself within the budget: the checkable part of confluence
/// for a converged completion result.
pub fn critical_pairs_join(rewrite_system: &RewriteSystem, budget: u64) -> (r: bool)
    ensures
        r == all_critical_pairs_join(sys_model(rewrite_system@), budget as nat),
{
    let ghost sysm = sys_model(rewrite_system@);
    let n = rewrite_system.len();
    for i in 0..n
        invariant
            n == rewrite_system@.len(),
            sysm == sys_model(rewrite_system@),
            sysm.len() == n,
            forall|m: int| 0 <= m < n ==> sysm[m] == rewrite_system@[m]@,
            forall|i2: int, j2: int| 0 <= i2 < i && 0 <= j2 < n ==> eqs_join(
                #[trigger] pairs_of(sysm[i2], rule_apart(sysm[j2])),
                sysm,
                budget as nat,
            ),
        decreases n - i,
    {
        for j in 0..n
            invariant
                n == rewrite_system@.len(),
                i < n,
                sysm == sys_model(rewrite_system@),
                sysm.len() == n,
                forall|m: int| 0 <= m < n ==> sysm[m] == rewrite_system@[m]@,
                forall|i2: int, j2: int| 0 <= i2 < i && 0 <= j2 < n ==> eqs_join(
                    #[trigger] pairs_of(sysm[i2], rule_apart(sysm[j2])),
                    sysm,
                    budget as nat,
                ),
                forall|j2: int| 0 <= j2 < j ==> eqs_join(
                    #[trigger] pairs_of(sysm[i as int], rule_apart(sysm[j2])),
                    sysm,
                    budget as nat,
                ),
            decreases n - j,
        {
            let inner_l = rewrite_system[j].lhs().rename_vars("~");
            let inner_r = rewrite_system[j].rhs().rename_vars("~");
            let found = overlaps(rewrite_system[i].lhs(), &inner_l, &inner_r);
            let ghost inner = rule_apart(sysm[j as int]);
            let ghost om = overlays_model(sysm[i as int].lhs, inner.lhs, inner.rhs);
            let ghost ps = pairs_of(sysm[i as int], inner);
            proof {
                assert(pair_models(found@) == om);
                assert(ps.len() == om.len());
            }
            let m = found.len();
            for k in 0..m
                invariant
                    m == found@.len(),
                    n == rewrite_system@.len(),
                    i < n && j < n,
                    sysm == sys_model(rewrite_system@),
                    sysm.len() == n,
                    forall|mm: int| 0 <= mm < n ==> sysm[mm] == rewrite_system@[mm]@,
                    inner == rule_apart(sysm[j as int]),
                    om == overlays_model(sysm[i as int].lhs, inner.lhs, inner.rhs),
                    pair_models(found@) == om,
                    ps == pairs_of(sysm[i as int], inner),
                    ps.len() == m,
                    forall|k2: int| 0 <= k2 < k ==> eq_joins(
                        #[trigger] ps[k2],
                        sysm,
                        budget as nat,
                    ),
                decreases m - k,
            {
                let a = rewrite_system[i].rhs().apply_subst(&found[k].1);
                let b = found[k].0.apply_subst(&found[k].1);
                proof {
                    assert(om[k as int] == (found@[k as int].0@, found@[k as int].1@));
                    assert(a@ == ps[k as int].lhs && b@ == ps[k as int].rhs);
                }
                let joined: bool = match (
                    a.simplify(rewrite_system, budget),
                    b.simplify(rewrite_system, budget),
                ) {
                    (Result::Ok(x), Result::Ok(y)) => x.matches_exact(&y),
                    _ => false,
                };
                if !joined {
                    proof {
                        assert(!eq_joins(ps[k as int], sysm, budget as nat));
                        assert(!eqs_join(ps, sysm, budget as nat));
                        assert(!all_critical_pairs_join(sysm, budget as nat)) by {
                            assert(0 <= i < sysm.len() && 0 <= j < sysm.len() && !eqs_join(
                                pairs_of(sysm[i as int], rule_apart(sysm[j as int])),
                                sysm,
                                budget as nat,
                            ));
                        }
                    }
                    return false;
                }
            }
            proof {
                assert(eqs_join(ps, sysm, budget as nat));
            }
        }
    }
    true
}

/// Turn each overlap into a critical-pair equation: the overlapped rule's
/// right side against the overlaid left side, both instantiated by the
/// unifier, exactly the pairs the model function prescribes. When both
/// rules involved are sound, so is each new equation.
fn push_pairs(
    pending: &mut Vec<Equation>,
    outer: &RewriteRule,
    found: &Vec<(Operator, Substitution)>,
    Ghost(inner): Ghost<RuleModel>,
)
    requires
        pair_models(found@) == overlays_model(outer@.lhs, inner.lhs, inner.rhs),
    ensures
        eq_models(final(pending)@) == eq_models(old(pending)@) + pairs_of(outer@, inner),
        final(pending)@.len() >= old(pending)@.len(),
        forall|j: int| 0 <= j < old(pending)@.len() ==> final(pending)@[j] == old(
            pending,
        )@[j],
        forall|j: int| old(pending)@.len() <= j < final(pending)@.len() ==> ((rule_sound(
            outer@,
        ) && rule_sound(inner)) ==> eq_sound((#[trigger] final(pending)@[j])@)),
        forall|j: int| old(pending)@.len() <= j < final(pending)@.len() ==> ((rule_sound_bool(
            outer@,
        ) && rule_sound_bool(inner)) ==> eq_sound_bool((#[trigger] final(pending)@[j])@)),
{
    let ghost pending0 = old(pending)@;
    let ghost om = overlays_model(outer@.lhs, inner.lhs, inner.rhs);
    let ghost ps = pairs_of(outer@, inner);
    proof {
        lemma_overlays_sound(outer@.lhs, inner.lhs, inner.rhs);
        assert(eq_models(pending@) + ps.take(0) =~= eq_models(pending@));
    }
    let n = found.len();
    for i in 0..n
        invariant
            n == found@.len(),
            pending0 == old(pending)@,
            om == overlays_model(outer@.lhs, inner.lhs, inner.rhs),
            pair_models(found@) == om,
            ps == pairs_of(outer@, inner),
            ps.len() == n,
            eq_models(pending@) == eq_models(pending0) + ps.take(i as int),
            pending@.len() == pending0.len() + i,
            forall|j: int| 0 <= j < pending0.len() ==> pending@[j] == pending0[j],
            forall|j: int| pending0.len() <= j < pending@.len() ==> ((rule_sound(outer@)
                && rule_sound(inner)) ==> eq_sound((#[trigger] pending@[j])@)),
            forall|j: int| pending0.len() <= j < pending@.len() ==> ((rule_sound_bool(outer@)
                && rule_sound_bool(inner)) ==> eq_sound_bool((#[trigger] pending@[j])@)),
            forall|ii: int| 0 <= ii < om.len() ==> #[trigger] overlay_sound(
                outer@.lhs,
                inner.lhs,
                inner.rhs,
                om[ii].0,
                om[ii].1,
            ),
        decreases n - i,
    {
        let a = outer.rhs().apply_subst(&found[i].1);
        let b = found[i].0.apply_subst(&found[i].1);
        let pair = Equation { lhs: a, rhs: b };
        proof {
            assert(om[i as int] == (found@[i as int].0@, found@[i as int].1@));
            assert(pair@ == ps[i as int]);
            if rule_sound(outer@) && rule_sound(inner) {
                let sigma = found@[i as int].1@;
                assert(overlay_sound(
                    outer@.lhs,
                    inner.lhs,
                    inner.rhs,
                    found@[i as int].0@,
                    sigma,
                ));
                assert forall|env: Map<Seq<char>, Val>| #[trigger] eval(pair@.lhs, env)
                    == eval(pair@.rhs, env) by {
                    lemma_eval_subst(outer@.rhs, sigma, env);
                    lemma_eval_subst(outer@.lhs, sigma, env);
                    assert(eval(outer@.lhs, crate::sem::env_after(sigma, env)) == eval(
                        outer@.rhs,
                        crate::sem::env_after(sigma, env),
                    ));
                    assert(eval(subst_model(found@[i as int].0@, sigma), env) == eval(
                        subst_model(outer@.lhs, sigma),
                        env,
                    ));
                }
                assert(eq_sound(pair@));
            }
            if rule_sound_bool(outer@) && rule_sound_bool(inner) {
                let sigma = found@[i as int].1@;
                lemma_overlays_sound_bool(outer@.lhs, inner.lhs, inner.rhs);
                assert(overlay_ok_bool(
                    outer@.lhs,
                    inner.lhs,
                    inner.rhs,
                    om[i as int].0,
                    om[i as int].1,
                ));
                lemma_subst_bool(outer@.rhs, sigma);
                lemma_subst_bool(om[i as int].0, sigma);
                assert(bool_term(pair@.lhs) && bool_term(pair@.rhs));
                assert forall|env: Map<Seq<char>, Val>| bool_env(env) implies #[trigger] eval(
                    pair@.lhs,
                    env,
                ) == eval(pair@.rhs, env) by {
                    lemma_eval_subst(outer@.rhs, sigma, env);
                    lemma_eval_subst(outer@.lhs, sigma, env);
                    lemma_env_after_bool(sigma, env);
                    assert(eval(outer@.lhs, crate::sem::env_after(sigma, env)) == eval(
                        outer@.rhs,
                        crate::sem::env_after(sigma, env),
                    ));
                    assert(eval(subst_model(found@[i as int].0@, sigma), env) == eval(
                        subst_model(outer@.lhs, sigma),
                        env,
                    ));
                }
                assert(eq_sound_bool(pair@));
            }
        }
        let ghost before = pending@;
        pending.push(pair);
        proof {
            assert(eq_models(pending@) =~= eq_models(before).push(pair@));
            assert(ps.take(i + 1) =~= ps.take(i as int).push(ps[i as int]));
            assert(eq_models(pending@) =~= eq_models(pending0) + ps.take(i + 1));
        }
    }
    proof {
        assert(ps.take(n as int) =~= ps);
    }
}

} // verus!
