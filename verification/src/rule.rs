//! Rewrite rules and unoriented equations. A rule is an ordered pattern
//! pair whose right-hand side introduces no variable absent from the
//! left-hand side; the constructor rejects anything else.

use vstd::prelude::*;
use crate::term::Operator;
use crate::term::TermModel;
use crate::term::seq_models;
use crate::term::lemma_seq_models;
use crate::subst::term_vars;
use crate::subst::seq_vars;

verus! {

/// Mathematical model of a rule: an oriented pattern pair.
pub struct RuleModel {
    pub lhs: TermModel,
    pub rhs: TermModel,
}

/// A rule `lhs -> rhs` may not introduce unbound output.
pub open spec fn rule_wf(r: RuleModel) -> bool {
    term_vars(r.rhs).subset_of(term_vars(r.lhs))
}

/// The error reported when a rule's right side uses a variable that its
/// left side does not bind.
#[derive(Debug, PartialEq, Eq, Structural)]
pub struct MalformedRule;

/// An oriented rewrite rule.
#[derive(Debug)]
pub struct RewriteRule {
    lhs: Operator,
    rhs: Operator,
}

impl View for RewriteRule {
    type V = RuleModel;

    closed spec fn view(&self) -> RuleModel {
        RuleModel { lhs: self.lhs@, rhs: self.rhs@ }
    }
}

impl RewriteRule {
    /// Every value of this type is a well-formed rule.
    #[verifier::type_invariant]
    pub open spec fn type_inv(self) -> bool {
        rule_wf(self@)
    }

    /// Build a rule, validating that every variable of `rhs` occurs in
    /// `lhs`.
    pub fn new(lhs: Operator, rhs: Operator) -> (r: Result<RewriteRule, MalformedRule>)
        ensures
            match r {
                Result::Ok(rule) => rule@.lhs == lhs@ && rule@.rhs == rhs@ && rule_wf(rule@),
                Result::Err(_) => !term_vars(rhs@).subset_of(term_vars(lhs@)),
            },
    {
        if rhs.vars_subset(&lhs) {
            Result::Ok(RewriteRule { lhs, rhs })
        } else {
            Result::Err(MalformedRule)
        }
    }

    /// The left-hand pattern.
    pub fn lhs(&self) -> (r: &Operator)
        ensures
            r@ == self@.lhs,
    {
        &self.lhs
    }

    /// The right-hand pattern.
    pub fn rhs(&self) -> (r: &Operator)
        ensures
            r@ == self@.rhs,
    {
        &self.rhs
    }

    /// Whether the two sides are structurally identical.
    pub fn is_trivial(&self) -> (r: bool)
        ensures
            r == (self@.lhs == self@.rhs),
    {
        self.lhs.matches_exact(&self.rhs)
    }
}

impl Clone for RewriteRule {
    /// The clone represents the same rule.
    fn clone(&self) -> (r: RewriteRule)
        ensures
            r@ == self@,
    {
        proof {
            use_type_invariant(self);
        }
        RewriteRule { lhs: self.lhs.deep_copy(), rhs: self.rhs.deep_copy() }
    }
}

/// An ordered sequence of rules; the first matching rule in sequence
/// order wins during normalization.
pub type RewriteSystem = Vec<RewriteRule>;

/// The models of the rules of a system, in order.
pub open spec fn sys_model(rs: Seq<RewriteRule>) -> Seq<RuleModel> {
    rs.map_values(|r: RewriteRule| r@)
}

/// An unoriented equation between two patterns.
#[derive(Debug)]
pub struct Equation {
    pub lhs: Operator,
    pub rhs: Operator,
}

/// Mathematical model of an unoriented equation.
pub struct EquationModel {
    pub lhs: TermModel,
    pub rhs: TermModel,
}

impl View for Equation {
    type V = EquationModel;

    open spec fn view(&self) -> EquationModel {
        EquationModel { lhs: self.lhs@, rhs: self.rhs@ }
    }
}

impl Clone for Equation {
    /// The clone represents the same equation.
    fn clone(&self) -> (r: Equation)
        ensures
            r@ == self@,
    {
        Equation { lhs: self.lhs.deep_copy(), rhs: self.rhs.deep_copy() }
    }
}

/// A name occurs in the variables of a sequence exactly when it occurs in
/// one of its members.
pub proof fn lemma_seq_vars_index(cs: Seq<TermModel>, x: Seq<char>)
    ensures
        seq_vars(cs).contains(x) <==> exists|i: int| 0 <= i < cs.len() && #[trigger] term_vars(
            cs[i],
        ).contains(x),
    decreases cs,
{
    if cs.len() > 0 {
        lemma_seq_vars_index(cs.drop_first(), x);
        if seq_vars(cs).contains(x) {
            if term_vars(cs[0]).contains(x) {
                assert(0 <= 0 < cs.len() && term_vars(cs[0]).contains(x));
            } else {
                let i = choose|i: int| 0 <= i < cs.drop_first().len() && #[trigger] term_vars(
                    cs.drop_first()[i],
                ).contains(x);
                assert(cs.drop_first()[i] == cs[i + 1]);
            }
        }
        if exists|i: int| 0 <= i < cs.len() && #[trigger] term_vars(cs[i]).contains(x) {
            let i = choose|i: int| 0 <= i < cs.len() && #[trigger] term_vars(cs[i]).contains(x);
            if i > 0 {
                assert(cs.drop_first()[i - 1] == cs[i]);
                assert(seq_vars(cs.drop_first()).contains(x));
            }
        }
    }
}

impl Operator {
    /// Whether the variable named `x` occurs in this pattern.
    pub fn contains_var(&self, x: &String) -> (r: bool)
        ensures
            r == term_vars(self@).contains(x@),
        decreases self,
    {
        match self {
            Operator::True => false,
            Operator::False => false,
            Operator::Number(_) => false,
            Operator::Variable(y) => *y == *x,
            Operator::Or(a, b) => {
                let r = a.contains_var(x) || b.contains_var(x);
                proof {
                    lemma_seq_vars_index(self@->Node_1, x@);
                    assert(self@->Node_1[0] == a@ && self@->Node_1[1] == b@);
                }
                r
            },
            Operator::And(a, b) => {
                let r = a.contains_var(x) || b.contains_var(x);
                proof {
                    lemma_seq_vars_index(self@->Node_1, x@);
                    assert(self@->Node_1[0] == a@ && self@->Node_1[1] == b@);
                }
                r
            },
            Operator::Not(a) => {
                let r = a.contains_var(x);
                proof {
                    lemma_seq_vars_index(self@->Node_1, x@);
                    assert(self@->Node_1[0] == a@);
                }
                r
            },
            Operator::Sum(cs) => vec_contains_var(cs, x),
            Operator::Product(cs) => vec_contains_var(cs, x),
        }
    }

    /// Whether every variable of this pattern occurs in `other`.
    pub fn vars_subset(&self, other: &Operator) -> (r: bool)
        ensures
            r == term_vars(self@).subset_of(term_vars(other@)),
        decreases self, 1int,
    {
        match self {
            Operator::True => true,
            Operator::False => true,
            Operator::Number(_) => true,
            Operator::Variable(y) => {
                let r = other.contains_var(y);
                proof {
                    assert(term_vars(self@).contains(y@));
                    if r {
                        assert forall|z: Seq<char>| term_vars(self@).contains(z) implies
                            term_vars(other@).contains(z) by {
                            assert(z == y@);
                        }
                    }
                }
                r
            },
            Operator::Or(a, b) => {
                let r = a.vars_subset(other) && b.vars_subset(other);
                proof {
                    lemma_seq_vars_index(self@->Node_1, seq![' ']);
                    vars_subset_node_bridge(self@, a@, b@, other@);
                }
                r
            },
            Operator::And(a, b) => {
                let r = a.vars_subset(other) && b.vars_subset(other);
                proof {
                    vars_subset_node_bridge(self@, a@, b@, other@);
                }
                r
            },
            Operator::Not(a) => {
                let r = a.vars_subset(other);
                proof {
                    vars_subset_node_one(self@, a@, other@);
                }
                r
            },
            Operator::Sum(cs) => vec_vars_subset(cs, self, other),
            Operator::Product(cs) => vec_vars_subset(cs, self, other),
        }
    }
}

/// Subset bridging for a binary node: the node's variables are those of
/// its two children.
proof fn vars_subset_node_bridge(n: TermModel, a: TermModel, b: TermModel, o: TermModel)
    requires
        n is Node,
        n->Node_1 == seq![a, b],
    ensures
        term_vars(n).subset_of(term_vars(o)) <==> (term_vars(a).subset_of(term_vars(o))
            && term_vars(b).subset_of(term_vars(o))),
{
    assert forall|x: Seq<char>| true implies (term_vars(n).contains(x) <==> term_vars(
        a,
    ).contains(x) || term_vars(b).contains(x)) by {
        lemma_seq_vars_index(n->Node_1, x);
        assert(n->Node_1[0] == a && n->Node_1[1] == b);
    }
}

/// Subset bridging for a unary node.
proof fn vars_subset_node_one(n: TermModel, a: TermModel, o: TermModel)
    requires
        n is Node,
        n->Node_1 == seq![a],
    ensures
        term_vars(n).subset_of(term_vars(o)) <==> term_vars(a).subset_of(term_vars(o)),
{
    assert forall|x: Seq<char>| true implies (term_vars(n).contains(x) <==> term_vars(
        a,
    ).contains(x)) by {
        lemma_seq_vars_index(n->Node_1, x);
        assert(n->Node_1[0] == a);
    }
}

/// Whether `x` occurs in any member of `cs`.
fn vec_contains_var(cs: &Vec<Operator>, x: &String) -> (r: bool)
    ensures
        r == seq_vars(seq_models(cs@)).contains(x@),
    decreases cs,
{
    proof {
        lemma_seq_models(cs@);
        lemma_seq_vars_index(seq_models(cs@), x@);
    }
    let n = cs.len();
    for i in 0..n
        invariant
            n == cs@.len(),
            forall|j: int| 0 <= j < i ==> !term_vars(cs@[j]@).contains(x@),
        decreases n - i,
    {
        assert(decreases_to!(cs => cs@[i as int]));
        if cs[i].contains_var(x) {
            proof {
                lemma_seq_models(cs@);
                lemma_seq_vars_index(seq_models(cs@), x@);
                assert(seq_models(cs@)[i as int] == cs@[i as int]@);
                assert(term_vars(seq_models(cs@)[i as int]).contains(x@));
            }
            return true;
        }
    }
    proof {
        lemma_seq_models(cs@);
        lemma_seq_vars_index(seq_models(cs@), x@);
    }
    false
}

/// Whether the variables of every member of `cs` occur in `other`.
fn vec_vars_subset(cs: &Vec<Operator>, whole: &Operator, other: &Operator) -> (r: bool)
    requires
        whole@ is Node,
        whole@->Node_1 == seq_models(cs@),
        decreases_to!(whole => cs),
    ensures
        r == term_vars(whole@).subset_of(term_vars(other@)),
    decreases whole, 0int,
{
    let n = cs.len();
    proof {
        lemma_seq_models(cs@);
    }
    for i in 0..n
        invariant
            n == cs@.len(),
            whole@ is Node,
            whole@->Node_1 == seq_models(cs@),
            seq_models(cs@).len() == n,
            forall|j: int| 0 <= j < n ==> seq_models(cs@)[j] == cs@[j]@,
            forall|j: int| 0 <= j < i ==> term_vars(cs@[j]@).subset_of(term_vars(other@)),
            decreases_to!(whole => cs),
        decreases n - i,
    {
        assert(decreases_to!(cs => cs@[i as int]));
        if !cs[i].vars_subset(other) {
            proof {
                assert(!term_vars(cs@[i as int]@).subset_of(term_vars(other@)));
                let x = choose|x: Seq<char>| term_vars(cs@[i as int]@).contains(x)
                    && !term_vars(other@).contains(x);
                lemma_seq_vars_index(seq_models(cs@), x);
                assert(term_vars(seq_models(cs@)[i as int]).contains(x));
                assert(seq_vars(seq_models(cs@)).contains(x));
            }
            return false;
        }
    }
    proof {
        assert forall|x: Seq<char>| term_vars(whole@).contains(x) implies term_vars(
            other@,
        ).contains(x) by {
            lemma_seq_vars_index(seq_models(cs@), x);
            let i = choose|i: int| 0 <= i < seq_models(cs@).len() && #[trigger] term_vars(
                seq_models(cs@)[i],
            ).contains(x);
            assert(term_vars(cs@[i]@).contains(x));
        }
    }
    true
}

} // verus!
