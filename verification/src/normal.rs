//! The normalizer: innermost-first rewriting under an ordered rule set,
//! with deterministic first-rule selection and an explicit rewrite-step
//! budget. The executable normalizer returns exactly what the
//! mathematical normalization function prescribes.

use vstd::prelude::*;
use crate::term::OpKind;
use crate::term::Operator;
use crate::term::TermModel;
use crate::term::seq_models;
use crate::term::lemma_seq_models;
use crate::subst::Substitution;
use crate::subst::term_vars;
use crate::subst::subst_model;
use crate::matching::match_term;
use crate::matching::lemma_match_term;
use crate::rule::Equation;
use crate::rule::RewriteRule;
use crate::rule::RewriteSystem;
use crate::rule::RuleModel;
use crate::rule::sys_model;

verus! {

/// The error reported when the rewrite-step budget runs out. It carries
/// the term whose normalization exhausted the budget.
#[derive(Debug)]
pub struct BudgetExceeded {
    pub term: Operator,
}

/// The smaller of two fuel values.
pub open spec fn clip(a: nat, b: nat) -> nat {
    if a <= b {
        a
    } else {
        b
    }
}

/// The first rule at position `i` or later whose left side matches `u`
/// from the empty substitution, with the matching substitution.
pub open spec fn find_rule(u: TermModel, rs: Seq<RuleModel>, i: nat) -> Option<
    (int, Map<Seq<char>, TermModel>),
>
    decreases rs.len() - i,
{
    if i >= rs.len() {
        Option::None
    } else {
        match match_term(u, rs[i as int].lhs, Map::<Seq<char>, TermModel>::empty()) {
            Option::Some(s) => Option::Some((i as int, s)),
            Option::None => find_rule(u, rs, i + 1),
        }
    }
}

/// Normalization of a term: children first, then the first matching rule
/// at the root; a firing rule costs one unit of fuel and the rewritten
/// term is normalized from scratch. Returns the normal form and the
/// remaining fuel, or nothing when the fuel runs out.
pub open spec fn norm_term(t: TermModel, rs: Seq<RuleModel>, fuel: nat) -> Option<
    (TermModel, nat),
>
    decreases fuel, t, 1int,
{
    match t {
        TermModel::Node(k, cs) => match norm_list(cs, rs, fuel) {
            Option::Some(p) => {
                let f1 = clip(p.1, fuel);
                let u = TermModel::Node(k, p.0);
                match find_rule(u, rs, 0) {
                    Option::None => Option::Some((u, f1)),
                    Option::Some(q) => if f1 > 0 {
                        norm_term(subst_model(rs[q.0].rhs, q.1), rs, (f1 - 1) as nat)
                    } else {
                        Option::None
                    },
                }
            },
            Option::None => Option::None,
        },
        _ => Option::Some((t, fuel)),
    }
}

/// Normalization of a sequence of terms, left to right, threading the
/// fuel through.
pub open spec fn norm_list(cs: Seq<TermModel>, rs: Seq<RuleModel>, fuel: nat) -> Option<
    (Seq<TermModel>, nat),
>
    decreases fuel, cs, 0int,
{
    if cs.len() == 0 {
        Option::Some((cs, fuel))
    } else {
        match norm_term(cs[0], rs, fuel) {
            Option::Some(p) => {
                let f1 = clip(p.1, fuel);
                match norm_list(cs.drop_first(), rs, f1) {
                    Option::Some(q) => Option::Some((seq![p.0] + q.0, q.1)),
                    Option::None => Option::None,
                }
            },
            Option::None => Option::None,
        }
    }
}

/// What normalization does at the root of a term whose children are
/// already normal.
pub open spec fn root_step(u: TermModel, rs: Seq<RuleModel>, fuel: nat) -> Option<
    (TermModel, nat),
> {
    match find_rule(u, rs, 0) {
        Option::None => Option::Some((u, fuel)),
        Option::Some(q) => if fuel > 0 {
            norm_term(subst_model(rs[q.0].rhs, q.1), rs, (fuel - 1) as nat)
        } else {
            Option::None
        },
    }
}

/// Normalization never returns more fuel than it was given.
pub proof fn lemma_norm_term_fuel(t: TermModel, rs: Seq<RuleModel>, fuel: nat)
    ensures
        match norm_term(t, rs, fuel) {
            Option::Some(p) => p.1 <= fuel,
            Option::None => true,
        },
    decreases fuel, t, 1int,
{
    match t {
        TermModel::Node(k, cs) => {
            lemma_norm_list_fuel(cs, rs, fuel);
            match norm_list(cs, rs, fuel) {
                Option::Some(p) => {
                    let f1 = clip(p.1, fuel);
                    let u = TermModel::Node(k, p.0);
                    match find_rule(u, rs, 0) {
                        Option::Some(q) => {
                            if f1 > 0 {
                                lemma_norm_term_fuel(
                                    subst_model(rs[q.0].rhs, q.1),
                                    rs,
                                    (f1 - 1) as nat,
                                );
                            }
                        },
                        Option::None => {},
                    }
                },
                Option::None => {},
            }
        },
        _ => {},
    }
}

/// Sequence version of `lemma_norm_term_fuel`.
pub proof fn lemma_norm_list_fuel(cs: Seq<TermModel>, rs: Seq<RuleModel>, fuel: nat)
    ensures
        match norm_list(cs, rs, fuel) {
            Option::Some(p) => p.1 <= fuel,
            Option::None => true,
        },
    decreases fuel, cs, 0int,
{
    if cs.len() > 0 {
        lemma_norm_term_fuel(cs[0], rs, fuel);
        match norm_term(cs[0], rs, fuel) {
            Option::Some(p) => {
                lemma_norm_list_fuel(cs.drop_first(), rs, clip(p.1, fuel));
            },
            Option::None => {},
        }
    }
}

/// Normalizing a node runs the children first and then rewrites at the
/// root with the fuel the children left over.
pub proof fn lemma_norm_term_node(k: OpKind, cs: Seq<TermModel>, rs: Seq<RuleModel>, fuel: nat)
    ensures
        norm_term(TermModel::Node(k, cs), rs, fuel) == match norm_list(cs, rs, fuel) {
            Option::Some(p) => root_step(TermModel::Node(k, p.0), rs, clip(p.1, fuel)),
            Option::None => Option::<(TermModel, nat)>::None,
        },
{
    match norm_list(cs, rs, fuel) {
        Option::Some(p) => {
            let f1 = clip(p.1, fuel);
            let u = TermModel::Node(k, p.0);
            match find_rule(u, rs, 0) {
                Option::None => {},
                Option::Some(q) => {},
            }
        },
        Option::None => {},
    }
}

impl Operator {
    /// Drive this term to normal form under `rewrite_system`, spending at
    /// most `budget` rewrite steps.
    pub fn simplify(&self, rewrite_system: &RewriteSystem, budget: u64) -> (res: Result<
        Operator,
        BudgetExceeded,
    >)
        ensures
            match norm_term(self@, sys_model(rewrite_system@), budget as nat) {
                Option::Some(p) => res is Ok && res->Ok_0@ == p.0,
                Option::None => res is Err && res->Err_0.term@ == self@,
            },
    {
        match self.simplify_fuel(rewrite_system, budget) {
            Option::Some(p) => Result::Ok(p.0),
            Option::None => Result::Err(BudgetExceeded { term: self.deep_copy() }),
        }
    }

    /// Normalization worker returning the remaining fuel.
    fn simplify_fuel(&self, rs: &RewriteSystem, fuel: u64) -> (res: Option<(Operator, u64)>)
        ensures
            match norm_term(self@, sys_model(rs@), fuel as nat) {
                Option::Some(p) => res is Some && (res->0).0@ == p.0 && (res->0).1 as nat
                    == p.1,
                Option::None => res is None,
            },
        decreases fuel, self, 1int,
    {
        let ghost sysm = sys_model(rs@);
        let pair: (Operator, u64) = match self {
            Operator::True => {
                return Option::Some((Operator::True, fuel));
            },
            Operator::False => {
                return Option::Some((Operator::False, fuel));
            },
            Operator::Number(n) => {
                return Option::Some((Operator::Number(*n), fuel));
            },
            Operator::Variable(x) => {
                return Option::Some((Operator::Variable(x.clone()), fuel));
            },
            Operator::Or(a, b) => {
                match self.simplify_two(a, b, rs, fuel) {
                    Option::Some(p) => {
                        proof {
                            lemma_norm_term_node(OpKind::Or, self@->Node_1, sysm, fuel as nat);
                            lemma_norm_list_fuel(self@->Node_1, sysm, fuel as nat);
                        }
                        (Operator::Or(Box::new(p.0), Box::new(p.1)), p.2)
                    },
                    Option::None => {
                        proof {
                            lemma_norm_term_node(OpKind::Or, self@->Node_1, sysm, fuel as nat);
                        }
                        return Option::None;
                    },
                }
            },
            Operator::And(a, b) => {
                match self.simplify_two(a, b, rs, fuel) {
                    Option::Some(p) => {
                        proof {
                            lemma_norm_term_node(OpKind::And, self@->Node_1, sysm, fuel as nat);
                            lemma_norm_list_fuel(self@->Node_1, sysm, fuel as nat);
                        }
                        (Operator::And(Box::new(p.0), Box::new(p.1)), p.2)
                    },
                    Option::None => {
                        proof {
                            lemma_norm_term_node(OpKind::And, self@->Node_1, sysm, fuel as nat);
                        }
                        return Option::None;
                    },
                }
            },
            Operator::Not(a) => {
                let ghost cs = self@->Node_1;
                proof {
                    reveal_with_fuel(norm_list, 3);
                    assert(cs.drop_first() =~= Seq::<TermModel>::empty());
                    assert(cs[0] == a@);
                }
                assert(decreases_to!(self => a));
                match a.simplify_fuel(rs, fuel) {
                    Option::Some(p) => {
                        proof {
                            lemma_norm_term_fuel(a@, sysm, fuel as nat);
                            assert(norm_list(cs, sysm, fuel as nat) matches Option::Some(q)
                                && q.0 =~= seq![p.0@] && q.1 == p.1 as nat);
                            lemma_norm_term_node(OpKind::Not, cs, sysm, fuel as nat);
                        }
                        (Operator::Not(Box::new(p.0)), p.1)
                    },
                    Option::None => {
                        proof {
                            lemma_norm_term_node(OpKind::Not, cs, sysm, fuel as nat);
                        }
                        return Option::None;
                    },
                }
            },
            Operator::Sum(cs_vec) => {
                assert(decreases_to!(self => cs_vec));
                match simplify_children(cs_vec, rs, fuel) {
                    Option::Some(p) => {
                        proof {
                            lemma_norm_term_node(
                                OpKind::Sum,
                                seq_models(cs_vec@),
                                sysm,
                                fuel as nat,
                            );
                        }
                        (Operator::Sum(p.0), p.1)
                    },
                    Option::None => {
                        proof {
                            lemma_norm_term_node(
                                OpKind::Sum,
                                seq_models(cs_vec@),
                                sysm,
                                fuel as nat,
                            );
                        }
                        return Option::None;
                    },
                }
            },
            Operator::Product(cs_vec) => {
                assert(decreases_to!(self => cs_vec));
                match simplify_children(cs_vec, rs, fuel) {
                    Option::Some(p) => {
                        proof {
                            lemma_norm_term_node(
                                OpKind::Product,
                                seq_models(cs_vec@),
                                sysm,
                                fuel as nat,
                            );
                        }
                        (Operator::Product(p.0), p.1)
                    },
                    Option::None => {
                        proof {
                            lemma_norm_term_node(
                                OpKind::Product,
                                seq_models(cs_vec@),
                                sysm,
                                fuel as nat,
                            );
                        }
                        return Option::None;
                    },
                }
            },
        };
        let u = pair.0;
        let f1 = pair.1;
        proof {
            lemma_norm_list_fuel(self@->Node_1, sysm, fuel as nat);
            lemma_seq_models(u->Sum_0@);
            lemma_seq_models(u->Product_0@);
        }
        assert(f1 <= fuel);
        assert(norm_term(self@, sysm, fuel as nat) == root_step(u@, sysm, f1 as nat));
        let nrules = rs.len();
        for idx in 0..nrules
            invariant
                nrules == rs@.len(),
                sysm == sys_model(rs@),
                f1 <= fuel,
                norm_term(self@, sysm, fuel as nat) == root_step(u@, sysm, f1 as nat),
                find_rule(u@, sysm, 0) == find_rule(u@, sysm, idx as nat),
            decreases nrules - idx,
        {
            let mut sub = Substitution::new();
            let rule_ref = &rs[idx];
            proof {
                assert(sysm[idx as int] == rs@[idx as int]@);
            }
            if u.matches_rule(rule_ref.lhs(), &mut sub) {
                proof {
                    assert(find_rule(u@, sysm, idx as nat) matches Option::Some(q) && q.0
                        == idx as int && q.1 == sub@);
                    lemma_match_term(
                        u@,
                        sysm[idx as int].lhs,
                        Map::<Seq<char>, TermModel>::empty(),
                    );
                    use_type_invariant(rule_ref);
                    assert(term_vars(sysm[idx as int].rhs).subset_of(sub@.dom()));
                }
                let rewritten = rule_ref.rhs().apply_rule(&sub);
                if f1 == 0 {
                    return Option::None;
                }
                return rewritten.simplify_fuel(rs, f1 - 1);
            }
        }
        proof {
            assert(find_rule(u@, sysm, nrules as nat) is None);
        }
        Option::Some((u, f1))
    }

    /// Normalize the two children of a binary node, threading the fuel.
    fn simplify_two(
        &self,
        a: &Operator,
        b: &Operator,
        rs: &RewriteSystem,
        fuel: u64,
    ) -> (res: Option<(Operator, Operator, u64)>)
        requires
            self@ is Node,
            self@->Node_1 == seq![a@, b@],
            decreases_to!(self => a),
            decreases_to!(self => b),
        ensures
            match norm_list(self@->Node_1, sys_model(rs@), fuel as nat) {
                Option::Some(p) => res is Some && p.0 == seq![(res->0).0@, (res->0).1@]
                    && (res->0).2 as nat == p.1,
                Option::None => res is None,
            },
        decreases fuel, self, 0int,
    {
        let ghost sysm = sys_model(rs@);
        let ghost cs = self@->Node_1;
        proof {
            reveal_with_fuel(norm_list, 4);
            assert(cs.drop_first() =~= seq![b@]);
            assert(seq![b@].drop_first() =~= Seq::<TermModel>::empty());
            assert(cs[0] == a@ && cs.drop_first()[0] == b@);
        }
        match a.simplify_fuel(rs, fuel) {
            Option::Some(p1) => {
                proof {
                    lemma_norm_term_fuel(a@, sysm, fuel as nat);
                }
                match b.simplify_fuel(rs, p1.1) {
                    Option::Some(p2) => {
                        proof {
                            lemma_norm_term_fuel(b@, sysm, p1.1 as nat);
                            assert(norm_list(cs, sysm, fuel as nat) matches Option::Some(q)
                                && q.0 =~= seq![p1.0@, p2.0@] && q.1 == p2.1 as nat);
                        }
                        Option::Some((p1.0, p2.0, p2.1))
                    },
                    Option::None => Option::None,
                }
            },
            Option::None => Option::None,
        }
    }
}

/// Normalize every child of an n-ary node, left to right, threading the
/// fuel.
fn simplify_children(cs: &Vec<Operator>, rs: &RewriteSystem, fuel: u64) -> (res: Option<
    (Vec<Operator>, u64),
>)
    ensures
        match norm_list(seq_models(cs@), sys_model(rs@), fuel as nat) {
            Option::Some(p) => res is Some && seq_models((res->0).0@) == p.0 && (res->0).1
                as nat == p.1,
            Option::None => res is None,
        },
    decreases fuel, cs, 0int,
{
    let ghost sysm = sys_model(rs@);
    let ghost tsm = seq_models(cs@);
    proof {
        lemma_seq_models(cs@);
        assert(tsm.skip(0) =~= tsm);
    }
    let n = cs.len();
    let mut out: Vec<Operator> = Vec::new();
    let mut f: u64 = fuel;
    for i in 0..n
        invariant
            n == cs@.len(),
            sysm == sys_model(rs@),
            tsm == seq_models(cs@),
            tsm.len() == n,
            forall|j: int| 0 <= j < n ==> tsm[j] == cs@[j]@,
            out@.len() == i,
            f <= fuel,
            norm_list(tsm, sysm, fuel as nat) == match norm_list(
                tsm.skip(i as int),
                sysm,
                f as nat,
            ) {
                Option::Some(q) => Option::Some((seq_models(out@) + q.0, q.1)),
                Option::None => Option::<(Seq<TermModel>, nat)>::None,
            },
        decreases n - i,
    {
        proof {
            assert(tsm.skip(i as int).drop_first() =~= tsm.skip(i + 1));
            assert(tsm.skip(i as int)[0] == tsm[i as int]);
        }
        assert(decreases_to!(cs => cs@[i as int]));
        let ghost f_pre = f;
        let ghost out_pre = out@;
        match cs[i].simplify_fuel(rs, f) {
            Option::Some(p) => {
                proof {
                    lemma_norm_term_fuel(cs@[i as int]@, sysm, f as nat);
                }
                out.push(p.0);
                f = p.1;
                proof {
                    lemma_seq_models(out@);
                    lemma_seq_models(out_pre);
                    assert(seq_models(out@) =~= seq_models(out_pre) + seq![out@[i as int]@]);
                    assert(out@[i as int]@ == p.0@);
                    assert(norm_list(tsm.skip(i as int), sysm, f_pre as nat) == match norm_list(
                        tsm.skip(i + 1),
                        sysm,
                        f as nat,
                    ) {
                        Option::Some(q) => Option::Some((seq![p.0@] + q.0, q.1)),
                        Option::None => Option::<(Seq<TermModel>, nat)>::None,
                    });
                    match norm_list(tsm.skip(i + 1), sysm, f as nat) {
                        Option::Some(q) => {
                            assert(seq_models(out_pre) + (seq![p.0@] + q.0)
                                =~= seq_models(out@) + q.0);
                        },
                        Option::None => {},
                    }
                }
            },
            Option::None => {
                return Option::None;
            },
        }
    }
    proof {
        assert(tsm.skip(n as int).len() == 0);
        assert(norm_list(tsm.skip(n as int), sysm, f as nat) matches Option::Some(q) && q.0
            =~= Seq::<TermModel>::empty() && q.1 == f as nat);
        assert(seq_models(out@) + Seq::<TermModel>::empty() =~= seq_models(out@));
    }
    Option::Some((out, f))
}

impl Equation {
    /// Normalize both sides against a rewrite system, spending at most
    /// `budget` rewrite steps per side.
    pub fn normalize(&self, rewrite_system: &RewriteSystem, budget: u64) -> (res: Result<
        Equation,
        BudgetExceeded,
    >)
        ensures
            match (
                norm_term(self@.lhs, sys_model(rewrite_system@), budget as nat),
                norm_term(self@.rhs, sys_model(rewrite_system@), budget as nat),
            ) {
                (Option::Some(l), Option::Some(r)) => res is Ok && res->Ok_0@.lhs == l.0
                    && res->Ok_0@.rhs == r.0,
                (Option::None, _) => res is Err && res->Err_0.term@ == self@.lhs,
                (Option::Some(_), Option::None) => res is Err && res->Err_0.term@
                    == self@.rhs,
            },
    {
        let nl = self.lhs.simplify(rewrite_system, budget)?;
        let nr = self.rhs.simplify(rewrite_system, budget)?;
        Result::Ok(Equation { lhs: nl, rhs: nr })
    }

    /// Whether the two sides are structurally identical, so that the
    /// equation carries no information.
    pub fn is_trivial(&self) -> (r: bool)
        ensures
            r == (self@.lhs == self@.rhs),
    {
        self.lhs.matches_exact(&self.rhs)
    }
}

} // verus!
