//! The term ordering used to orient equations into rules: a weight
//! (node count, saturating at the machine limit), then a rank over the
//! leaf and operator kinds, then arity, then lexicographic comparison of
//! children. Distinct variable names are incomparable.

use vstd::prelude::*;
use crate::term::Operator;
use crate::term::TermModel;
use crate::term::seq_models;
use crate::term::lemma_seq_models;
use crate::subst::term_vars;
use crate::rule::lemma_seq_vars_index;

verus! {

/// The largest weight a term is measured at.
pub open spec fn weight_max() -> nat {
    0xffff_ffff_ffff_ffff
}

/// Addition saturating at `weight_max()`.
pub open spec fn sat_add(a: nat, b: nat) -> nat {
    if a + b <= weight_max() {
        a + b
    } else {
        weight_max()
    }
}

/// The weight of a term: its node count, saturating at the machine
/// limit.
pub open spec fn weight(t: TermModel) -> nat
    decreases t,
{
    match t {
        TermModel::Node(_k, cs) => sat_add(1, weight_list(cs)),
        _ => 1,
    }
}

/// The saturating sum of the weights of a sequence of terms.
pub open spec fn weight_list(cs: Seq<TermModel>) -> nat
    decreases cs,
{
    if cs.len() == 0 {
        0
    } else {
        sat_add(weight(cs[0]), weight_list(cs.drop_first()))
    }
}

/// Outcome of a comparison under the term ordering.
#[derive(Clone, Copy, Debug, PartialEq, Eq, Structural)]
pub enum TermCmp {
    Lt,
    Eq,
    Gt,
    Un,
}

/// The rank of a term's head: constants, then numbers, then variables,
/// then the operator kinds in declaration order.
pub open spec fn head_rank(t: TermModel) -> int {
    match t {
        TermModel::BTrue => 0,
        TermModel::BFalse => 1,
        TermModel::Num(_) => 2,
        TermModel::Var(_) => 3,
        TermModel::Node(k, _) => match k {
            crate::term::OpKind::Or => 4,
            crate::term::OpKind::And => 5,
            crate::term::OpKind::Not => 6,
            crate::term::OpKind::Sum => 7,
            crate::term::OpKind::Product => 8,
        },
    }
}

/// Comparison under the term ordering: weight first, then head rank,
/// then the head's own data, then arity, then children left to right.
pub open spec fn term_cmp(a: TermModel, b: TermModel) -> TermCmp
    decreases a, 1int,
{
    if weight(a) > weight(b) {
        TermCmp::Gt
    } else if weight(a) < weight(b) {
        TermCmp::Lt
    } else if head_rank(a) > head_rank(b) {
        TermCmp::Gt
    } else if head_rank(a) < head_rank(b) {
        TermCmp::Lt
    } else {
        match a {
            TermModel::Num(x) => {
                let y = b->Num_0;
                if x > y {
                    TermCmp::Gt
                } else if x < y {
                    TermCmp::Lt
                } else {
                    TermCmp::Eq
                }
            },
            TermModel::Var(x) => if x == b->Var_0 {
                TermCmp::Eq
            } else {
                TermCmp::Un
            },
            TermModel::Node(_k, cs) => {
                let ds = b->Node_1;
                if cs.len() > ds.len() {
                    TermCmp::Gt
                } else if cs.len() < ds.len() {
                    TermCmp::Lt
                } else {
                    list_cmp(cs, ds)
                }
            },
            _ => TermCmp::Eq,
        }
    }
}

/// Lexicographic comparison of two equally long child sequences.
pub open spec fn list_cmp(cs: Seq<TermModel>, ds: Seq<TermModel>) -> TermCmp
    decreases cs, 0int,
{
    if cs.len() == 0 {
        TermCmp::Eq
    } else {
        match term_cmp(cs[0], ds[0]) {
            TermCmp::Eq => list_cmp(cs.drop_first(), ds.drop_first()),
            c => c,
        }
    }
}

/// `a` is strictly greater than `b` under the term ordering.
pub open spec fn term_gt(a: TermModel, b: TermModel) -> bool {
    term_cmp(a, b) == TermCmp::Gt
}

/// How often the variable named `x` occurs in `t`, saturating at the
/// machine limit.
pub open spec fn var_count(t: TermModel, x: Seq<char>) -> nat
    decreases t,
{
    match t {
        TermModel::Var(y) => if y == x {
            1
        } else {
            0
        },
        TermModel::Node(_k, cs) => var_count_list(cs, x),
        _ => 0,
    }
}

/// The saturating sum of the occurrences of `x` in a sequence of terms.
pub open spec fn var_count_list(cs: Seq<TermModel>, x: Seq<char>) -> nat
    decreases cs,
{
    if cs.len() == 0 {
        0
    } else {
        sat_add(var_count(cs[0], x), var_count_list(cs.drop_first(), x))
    }
}

/// The Knuth-Bendix variable condition on an oriented pair: each
/// variable occurs in `r` at most as often as in `l`, so applying the
/// rule never duplicates a subterm more often than the pattern did.
pub open spec fn var_counts_ok(l: TermModel, r: TermModel) -> bool {
    forall|x: Seq<char>| #[trigger] term_vars(r).contains(x) ==> var_count(r, x) <= var_count(
        l,
        x,
    )
}

impl Operator {
    /// The weight of this term, saturating at the machine limit.
    pub fn term_weight(&self) -> (w: u64)
        ensures
            w as nat == weight(self@),
        decreases self, 1int,
    {
        match self {
            Operator::True => {
                proof {
                    assert(weight(self@) == 1);
                }
                1
            },
            Operator::False => {
                proof {
                    assert(weight(self@) == 1);
                }
                1
            },
            Operator::Number(_) => {
                proof {
                    assert(weight(self@) == 1);
                }
                1
            },
            Operator::Variable(_) => {
                proof {
                    assert(weight(self@) == 1);
                }
                1
            },
            Operator::Or(a, b) => {
                let ghost cs = self@->Node_1;
                proof {
                    reveal_with_fuel(weight_list, 4);
                    assert(cs.drop_first() =~= seq![b@]);
                    assert(seq![b@].drop_first() =~= Seq::<TermModel>::empty());
                }
                let wa = a.term_weight();
                let wb = b.term_weight();
                let w = sat_add_exec(1, sat_add_exec(wa, sat_add_exec(wb, 0)));
                proof {
                    assert(cs[0] == a@ && cs[1] == b@);
                    assert(weight_list(cs) == sat_add(wa as nat, sat_add(wb as nat, 0)));
                    assert(w as nat == weight(self@));
                }
                w
            },
            Operator::And(a, b) => {
                let ghost cs = self@->Node_1;
                proof {
                    reveal_with_fuel(weight_list, 4);
                    assert(cs.drop_first() =~= seq![b@]);
                    assert(seq![b@].drop_first() =~= Seq::<TermModel>::empty());
                }
                let wa = a.term_weight();
                let wb = b.term_weight();
                let w = sat_add_exec(1, sat_add_exec(wa, sat_add_exec(wb, 0)));
                proof {
                    assert(cs[0] == a@ && cs[1] == b@);
                    assert(weight_list(cs) == sat_add(wa as nat, sat_add(wb as nat, 0)));
                    assert(w as nat == weight(self@));
                }
                w
            },
            Operator::Not(a) => {
                let ghost cs = self@->Node_1;
                proof {
                    reveal_with_fuel(weight_list, 3);
                    assert(cs.drop_first() =~= Seq::<TermModel>::empty());
                }
                let wa = a.term_weight();
                let w = sat_add_exec(1, sat_add_exec(wa, 0));
                proof {
                    assert(cs[0] == a@);
                    assert(weight_list(cs) == sat_add(wa as nat, 0));
                    assert(w as nat == weight(self@));
                }
                w
            },
            Operator::Sum(cs) => {
                let w = sat_add_exec(1, vec_weight(cs));
                proof {
                    assert(w as nat == weight(self@));
                }
                w
            },
            Operator::Product(cs) => {
                let w = sat_add_exec(1, vec_weight(cs));
                proof {
                    assert(w as nat == weight(self@));
                }
                w
            },
        }
    }

    /// How often the variable named `x` occurs in this term.
    pub fn count_var_occurrences(&self, x: &String) -> (w: u64)
        ensures
            w as nat == var_count(self@, x@),
        decreases self, 1int,
    {
        match self {
            Operator::True => 0,
            Operator::False => 0,
            Operator::Number(_) => 0,
            Operator::Variable(y) => {
                if *y == *x {
                    1
                } else {
                    0
                }
            },
            Operator::Or(a, b) => {
                let ghost cs = self@->Node_1;
                proof {
                    reveal_with_fuel(var_count_list, 4);
                    assert(cs.drop_first() =~= seq![b@]);
                    assert(seq![b@].drop_first() =~= Seq::<TermModel>::empty());
                }
                let wa = a.count_var_occurrences(x);
                let wb = b.count_var_occurrences(x);
                let w = sat_add_exec(wa, sat_add_exec(wb, 0));
                proof {
                    assert(cs[0] == a@ && cs[1] == b@);
                    assert(var_count_list(cs, x@) == sat_add(
                        wa as nat,
                        sat_add(wb as nat, 0),
                    ));
                }
                w
            },
            Operator::And(a, b) => {
                let ghost cs = self@->Node_1;
                proof {
                    reveal_with_fuel(var_count_list, 4);
                    assert(cs.drop_first() =~= seq![b@]);
                    assert(seq![b@].drop_first() =~= Seq::<TermModel>::empty());
                }
                let wa = a.count_var_occurrences(x);
                let wb = b.count_var_occurrences(x);
                let w = sat_add_exec(wa, sat_add_exec(wb, 0));
                proof {
                    assert(cs[0] == a@ && cs[1] == b@);
                    assert(var_count_list(cs, x@) == sat_add(
                        wa as nat,
                        sat_add(wb as nat, 0),
                    ));
                }
                w
            },
            Operator::Not(a) => {
                let ghost cs = self@->Node_1;
                proof {
                    reveal_with_fuel(var_count_list, 3);
                    assert(cs.drop_first() =~= Seq::<TermModel>::empty());
                }
                let wa = a.count_var_occurrences(x);
                let w = sat_add_exec(wa, 0);
                proof {
                    assert(cs[0] == a@);
                    assert(var_count_list(cs, x@) == sat_add(wa as nat, 0));
                }
                w
            },
            Operator::Sum(cs) => vec_var_count(cs, x),
            Operator::Product(cs) => vec_var_count(cs, x),
        }
    }

    /// Whether each variable of this pattern occurs in `other` at least
    /// as often as here: the variable condition for `other -> self`.
    pub fn counts_bounded_by(&self, other: &Operator) -> (r: bool)
        ensures
            r == var_counts_ok(other@, self@),
    {
        self.counts_within(self, other)
    }

    /// Walk this subterm of `rhs`, checking the variable condition for
    /// every variable occurrence found.
    fn counts_within(&self, rhs: &Operator, lhs: &Operator) -> (r: bool)
        ensures
            r == (forall|x: Seq<char>| #[trigger] term_vars(self@).contains(x) ==> var_count(
                rhs@,
                x,
            ) <= var_count(lhs@, x)),
        decreases self, 1int,
    {
        match self {
            Operator::True => true,
            Operator::False => true,
            Operator::Number(_) => true,
            Operator::Variable(y) => {
                let r = rhs.count_var_occurrences(y) <= lhs.count_var_occurrences(y);
                proof {
                    assert(term_vars(self@).contains(y@));
                    if r {
                        assert forall|x: Seq<char>| #[trigger] term_vars(self@).contains(
                            x,
                        ) implies var_count(rhs@, x) <= var_count(lhs@, x) by {
                            assert(x == y@);
                        }
                    }
                }
                r
            },
            Operator::Or(a, b) => {
                let r = a.counts_within(rhs, lhs) && b.counts_within(rhs, lhs);
                proof {
                    counts_node_bridge(self@, a@, b@);
                    if r {
                        assert forall|x: Seq<char>| #[trigger] term_vars(self@).contains(
                            x,
                        ) implies var_count(rhs@, x) <= var_count(lhs@, x) by {
                            assert(term_vars(a@).contains(x) || term_vars(b@).contains(x));
                        }
                    } else {
                        if !(forall|x: Seq<char>| #[trigger] term_vars(a@).contains(x)
                            ==> var_count(rhs@, x) <= var_count(lhs@, x)) {
                            let x = choose|x: Seq<char>| term_vars(a@).contains(x) && !(
                            var_count(rhs@, x) <= var_count(lhs@, x));
                            assert(term_vars(self@).contains(x));
                        } else {
                            let x = choose|x: Seq<char>| term_vars(b@).contains(x) && !(
                            var_count(rhs@, x) <= var_count(lhs@, x));
                            assert(term_vars(self@).contains(x));
                        }
                    }
                }
                r
            },
            Operator::And(a, b) => {
                let r = a.counts_within(rhs, lhs) && b.counts_within(rhs, lhs);
                proof {
                    counts_node_bridge(self@, a@, b@);
                    if r {
                        assert forall|x: Seq<char>| #[trigger] term_vars(self@).contains(
                            x,
                        ) implies var_count(rhs@, x) <= var_count(lhs@, x) by {
                            assert(term_vars(a@).contains(x) || term_vars(b@).contains(x));
                        }
                    } else {
                        if !(forall|x: Seq<char>| #[trigger] term_vars(a@).contains(x)
                            ==> var_count(rhs@, x) <= var_count(lhs@, x)) {
                            let x = choose|x: Seq<char>| term_vars(a@).contains(x) && !(
                            var_count(rhs@, x) <= var_count(lhs@, x));
                            assert(term_vars(self@).contains(x));
                        } else {
                            let x = choose|x: Seq<char>| term_vars(b@).contains(x) && !(
                            var_count(rhs@, x) <= var_count(lhs@, x));
                            assert(term_vars(self@).contains(x));
                        }
                    }
                }
                r
            },
            Operator::Not(a) => {
                let r = a.counts_within(rhs, lhs);
                proof {
                    counts_node_one(self@, a@);
                    if !r {
                        let x = choose|x: Seq<char>| term_vars(a@).contains(x) && !(var_count(
                            rhs@,
                            x,
                        ) <= var_count(lhs@, x));
                        assert(term_vars(self@).contains(x));
                    }
                }
                r
            },
            Operator::Sum(cs) => vec_counts_within(cs, self, rhs, lhs),
            Operator::Product(cs) => vec_counts_within(cs, self, rhs, lhs),
        }
    }

    /// Compare this term with `other` under the term ordering.
    pub fn compare(&self, other: &Operator) -> (r: TermCmp)
        ensures
            r == term_cmp(self@, other@),
        decreases self, 1int,
    {
        let wa = self.term_weight();
        let wb = other.term_weight();
        if wa > wb {
            proof {
                assert(term_cmp(self@, other@) == TermCmp::Gt);
            }
            return TermCmp::Gt;
        }
        if wa < wb {
            proof {
                assert(term_cmp(self@, other@) == TermCmp::Lt);
            }
            return TermCmp::Lt;
        }
        let ra = self.head_rank_exec();
        let rb = other.head_rank_exec();
        if ra > rb {
            proof {
                assert(term_cmp(self@, other@) == TermCmp::Gt);
            }
            return TermCmp::Gt;
        }
        if ra < rb {
            proof {
                assert(term_cmp(self@, other@) == TermCmp::Lt);
            }
            return TermCmp::Lt;
        }
        match self {
            Operator::True => {
                proof {
                    assert(term_cmp(self@, other@) == TermCmp::Eq);
                }
                TermCmp::Eq
            },
            Operator::False => {
                proof {
                    assert(term_cmp(self@, other@) == TermCmp::Eq);
                }
                TermCmp::Eq
            },
            Operator::Number(x) => match other {
                Operator::Number(y) => {
                    let r = if *x > *y {
                        TermCmp::Gt
                    } else if *x < *y {
                        TermCmp::Lt
                    } else {
                        TermCmp::Eq
                    };
                    proof {
                        assert(self@ == TermModel::Num(*x as int));
                        assert(other@ == TermModel::Num(*y as int));
                        assert(r == term_cmp(self@, other@));
                    }
                    r
                },
                _ => {
                    proof {
                        assert(false);
                    }
                    TermCmp::Un
                },
            },
            Operator::Variable(x) => match other {
                Operator::Variable(y) => {
                    let r = if *x == *y {
                        TermCmp::Eq
                    } else {
                        TermCmp::Un
                    };
                    proof {
                        assert(self@ == TermModel::Var(x@));
                        assert(other@ == TermModel::Var(y@));
                        assert(r == term_cmp(self@, other@));
                    }
                    r
                },
                _ => {
                    proof {
                        assert(false);
                    }
                    TermCmp::Un
                },
            },
            Operator::Or(a, b) => match other {
                Operator::Or(c, d) => self.compare_two(a, b, other, c, d),
                _ => {
                    proof {
                        assert(false);
                    }
                    TermCmp::Un
                },
            },
            Operator::And(a, b) => match other {
                Operator::And(c, d) => self.compare_two(a, b, other, c, d),
                _ => {
                    proof {
                        assert(false);
                    }
                    TermCmp::Un
                },
            },
            Operator::Not(a) => match other {
                Operator::Not(c) => {
                    let ghost cs = self@->Node_1;
                    let ghost ds = other@->Node_1;
                    proof {
                        reveal_with_fuel(list_cmp, 3);
                        assert(cs[0] == a@ && ds[0] == c@);
                        assert(cs.len() == 1 && ds.len() == 1);
                        assert(cs.drop_first() =~= Seq::<TermModel>::empty());
                        assert(ds.drop_first() =~= Seq::<TermModel>::empty());
                    }
                    assert(decreases_to!(self => a));
                    let r = a.compare(c);
                    proof {
                        assert(list_cmp(cs, ds) == term_cmp(a@, c@));
                        assert(term_cmp(self@, other@) == list_cmp(cs, ds));
                    }
                    r
                },
                _ => {
                    proof {
                        assert(false);
                    }
                    TermCmp::Un
                },
            },
            Operator::Sum(cs_vec) => match other {
                Operator::Sum(ds_vec) => self.compare_vec(cs_vec, other, ds_vec),
                _ => {
                    proof {
                        assert(false);
                    }
                    TermCmp::Un
                },
            },
            Operator::Product(cs_vec) => match other {
                Operator::Product(ds_vec) => self.compare_vec(cs_vec, other, ds_vec),
                _ => {
                    proof {
                        assert(false);
                    }
                    TermCmp::Un
                },
            },
        }
    }

    /// The rank of this term's head.
    fn head_rank_exec(&self) -> (r: u8)
        ensures
            r as int == head_rank(self@),
    {
        match self {
            Operator::True => 0,
            Operator::False => 1,
            Operator::Number(_) => 2,
            Operator::Variable(_) => 3,
            Operator::Or(_, _) => 4,
            Operator::And(_, _) => 5,
            Operator::Not(_) => 6,
            Operator::Sum(_) => 7,
            Operator::Product(_) => 8,
        }
    }

    /// Lexicographic comparison of the children of two binary nodes of
    /// the same kind and weight.
    fn compare_two(
        &self,
        a: &Operator,
        b: &Operator,
        other: &Operator,
        c: &Operator,
        d: &Operator,
    ) -> (r: TermCmp)
        requires
            self@ is Node && other@ is Node,
            self@->Node_1 == seq![a@, b@],
            other@->Node_1 == seq![c@, d@],
            weight(self@) == weight(other@),
            head_rank(self@) == head_rank(other@),
            decreases_to!(self => a),
            decreases_to!(self => b),
        ensures
            r == term_cmp(self@, other@),
        decreases self, 0int,
    {
        let ghost cs = self@->Node_1;
        let ghost ds = other@->Node_1;
        proof {
            reveal_with_fuel(list_cmp, 4);
            assert(cs[0] == a@ && cs[1] == b@);
            assert(ds[0] == c@ && ds[1] == d@);
            assert(cs.len() == 2 && ds.len() == 2);
            assert(cs.drop_first() =~= seq![b@]);
            assert(ds.drop_first() =~= seq![d@]);
            assert(seq![b@].drop_first() =~= Seq::<TermModel>::empty());
        }
        let first = a.compare(c);
        match first {
            TermCmp::Eq => {
                let second = b.compare(d);
                proof {
                    assert(list_cmp(cs, ds) == term_cmp(b@, d@));
                    assert(term_cmp(self@, other@) == list_cmp(cs, ds));
                }
                second
            },
            _ => {
                proof {
                    assert(list_cmp(cs, ds) == term_cmp(a@, c@));
                    assert(term_cmp(self@, other@) == list_cmp(cs, ds));
                }
                first
            },
        }
    }

    /// Lexicographic comparison of the children of two n-ary nodes of
    /// the same kind and weight.
    fn compare_vec(
        &self,
        cs_vec: &Vec<Operator>,
        other: &Operator,
        ds_vec: &Vec<Operator>,
    ) -> (r: TermCmp)
        requires
            self@ is Node && other@ is Node,
            self@->Node_1 == seq_models(cs_vec@),
            other@->Node_1 == seq_models(ds_vec@),
            weight(self@) == weight(other@),
            head_rank(self@) == head_rank(other@),
            decreases_to!(self => cs_vec),
        ensures
            r == term_cmp(self@, other@),
        decreases self, 0int,
    {
        let ghost cs = seq_models(cs_vec@);
        let ghost ds = seq_models(ds_vec@);
        proof {
            lemma_seq_models(cs_vec@);
            lemma_seq_models(ds_vec@);
        }
        if cs_vec.len() > ds_vec.len() {
            return TermCmp::Gt;
        }
        if cs_vec.len() < ds_vec.len() {
            return TermCmp::Lt;
        }
        proof {
            assert(cs.skip(0) =~= cs);
            assert(ds.skip(0) =~= ds);
        }
        let n = cs_vec.len();
        for i in 0..n
            invariant
                n == cs_vec@.len() && n == ds_vec@.len(),
                cs == seq_models(cs_vec@) && ds == seq_models(ds_vec@),
                cs.len() == n && ds.len() == n,
                forall|j: int| 0 <= j < n ==> cs[j] == cs_vec@[j]@ && ds[j] == ds_vec@[j]@,
                list_cmp(cs, ds) == list_cmp(cs.skip(i as int), ds.skip(i as int)),
                term_cmp(self@, other@) == list_cmp(cs, ds),
                decreases_to!(self => cs_vec),
            decreases n - i,
        {
            proof {
                assert(cs.skip(i as int).drop_first() =~= cs.skip(i + 1));
                assert(ds.skip(i as int).drop_first() =~= ds.skip(i + 1));
                assert(cs.skip(i as int)[0] == cs[i as int]);
                assert(ds.skip(i as int)[0] == ds[i as int]);
            }
            assert(decreases_to!(cs_vec => cs_vec@[i as int]));
            let c = cs_vec[i].compare(&ds_vec[i]);
            match c {
                TermCmp::Eq => {},
                _ => {
                    return c;
                },
            }
        }
        proof {
            assert(cs.skip(n as int).len() == 0);
        }
        TermCmp::Eq
    }
}

/// A binary node's variables are those of its two children.
proof fn counts_node_bridge(n: TermModel, a: TermModel, b: TermModel)
    requires
        n is Node,
        n->Node_1 == seq![a, b],
    ensures
        forall|x: Seq<char>| #[trigger] term_vars(n).contains(x) <==> (term_vars(a).contains(x)
            || term_vars(b).contains(x)),
{
    assert forall|x: Seq<char>| true implies (#[trigger] term_vars(n).contains(x) <==> (
    term_vars(a).contains(x) || term_vars(b).contains(x))) by {
        lemma_seq_vars_index(n->Node_1, x);
        assert(n->Node_1[0] == a && n->Node_1[1] == b);
    }
}

/// A unary node's variables are those of its child.
proof fn counts_node_one(n: TermModel, a: TermModel)
    requires
        n is Node,
        n->Node_1 == seq![a],
    ensures
        forall|x: Seq<char>| #[trigger] term_vars(n).contains(x) <==> term_vars(a).contains(x),
{
    assert forall|x: Seq<char>| true implies (#[trigger] term_vars(n).contains(x) <==> term_vars(
        a,
    ).contains(x)) by {
        lemma_seq_vars_index(n->Node_1, x);
        assert(n->Node_1[0] == a);
    }
}

/// Walk every child, checking the variable condition.
fn vec_counts_within(
    cs: &Vec<Operator>,
    whole: &Operator,
    rhs: &Operator,
    lhs: &Operator,
) -> (r: bool)
    requires
        whole@ is Node,
        whole@->Node_1 == seq_models(cs@),
        decreases_to!(whole => cs),
    ensures
        r == (forall|x: Seq<char>| #[trigger] term_vars(whole@).contains(x) ==> var_count(
            rhs@,
            x,
        ) <= var_count(lhs@, x)),
    decreases whole, 0int,
{
    let n = cs.len();
    proof {
        lemma_seq_models(cs@);
    }
    for i in 0..n
        invariant
            n == cs@.len(),
            whole@ is Node,
            whole@->Node_1 == seq_models(cs@),
            seq_models(cs@).len() == n,
            forall|j: int| 0 <= j < n ==> seq_models(cs@)[j] == cs@[j]@,
            forall|j: int, x: Seq<char>| 0 <= j < i && #[trigger] term_vars(
                cs@[j]@,
            ).contains(x) ==> var_count(rhs@, x) <= var_count(lhs@, x),
            decreases_to!(whole => cs),
        decreases n - i,
    {
        assert(decreases_to!(cs => cs@[i as int]));
        if !cs[i].counts_within(rhs, lhs) {
            proof {
                let x = choose|x: Seq<char>| term_vars(cs@[i as int]@).contains(x) && !(
                var_count(rhs@, x) <= var_count(lhs@, x));
                lemma_seq_vars_index(seq_models(cs@), x);
                assert(term_vars(seq_models(cs@)[i as int]).contains(x));
                assert(term_vars(whole@).contains(x));
            }
            return false;
        }
    }
    proof {
        assert forall|x: Seq<char>| #[trigger] term_vars(whole@).contains(x) implies var_count(
            rhs@,
            x,
        ) <= var_count(lhs@, x) by {
            lemma_seq_vars_index(seq_models(cs@), x);
            let j = choose|j: int| 0 <= j < seq_models(cs@).len() && #[trigger] term_vars(
                seq_models(cs@)[j],
            ).contains(x);
            assert(term_vars(cs@[j]@).contains(x));
        }
    }
    true
}

/// Saturating addition on machine words, mirroring `sat_add`.
pub(crate) fn sat_add_exec(a: u64, b: u64) -> (r: u64)
    ensures
        r as nat == sat_add(a as nat, b as nat),
{
    if a <= u64::MAX - b {
        a + b
    } else {
        u64::MAX
    }
}

/// The weight of every child, summed with saturation, right to left.
fn vec_weight(cs: &Vec<Operator>) -> (w: u64)
    ensures
        w as nat == weight_list(seq_models(cs@)),
    decreases cs,
{
    let ghost tsm = seq_models(cs@);
    proof {
        lemma_seq_models(cs@);
    }
    let n = cs.len();
    let mut acc: u64 = 0;
    let mut j = n;
    while j > 0
        invariant
            j <= n,
            n == cs@.len(),
            tsm == seq_models(cs@),
            tsm.len() == n,
            forall|i: int| 0 <= i < n ==> tsm[i] == cs@[i]@,
            acc as nat == weight_list(tsm.skip(j as int)),
        decreases j,
    {
        j = j - 1;
        proof {
            assert(tsm.skip(j as int).drop_first() =~= tsm.skip(j + 1));
            assert(tsm.skip(j as int)[0] == tsm[j as int]);
        }
        assert(decreases_to!(cs => cs@[j as int]));
        let wj = cs[j].term_weight();
        acc = sat_add_exec(wj, acc);
    }
    proof {
        assert(tsm.skip(0) =~= tsm);
    }
    acc
}

/// The occurrences of `x` in every child, summed with saturation, right
/// to left.
fn vec_var_count(cs: &Vec<Operator>, x: &String) -> (w: u64)
    ensures
        w as nat == var_count_list(seq_models(cs@), x@),
    decreases cs,
{
    let ghost tsm = seq_models(cs@);
    proof {
        lemma_seq_models(cs@);
    }
    let n = cs.len();
    let mut acc: u64 = 0;
    let mut j = n;
    while j > 0
        invariant
            j <= n,
            n == cs@.len(),
            tsm == seq_models(cs@),
            tsm.len() == n,
            forall|i: int| 0 <= i < n ==> tsm[i] == cs@[i]@,
            acc as nat == var_count_list(tsm.skip(j as int), x@),
        decreases j,
    {
        j = j - 1;
        proof {
            assert(tsm.skip(j as int).drop_first() =~= tsm.skip(j + 1));
            assert(tsm.skip(j as int)[0] == tsm[j as int]);
        }
        assert(decreases_to!(cs => cs@[j as int]));
        let wj = cs[j].count_var_occurrences(x);
        acc = sat_add_exec(wj, acc);
    }
    proof {
        assert(tsm.skip(0) =~= tsm);
    }
    acc
}

} // verus!
