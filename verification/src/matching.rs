//! One-directional pattern matching: a concrete term against a rule
//! pattern, extending a substitution. Failed attempts leave the caller's
//! substitution untouched.

use vstd::prelude::*;
use crate::term::Operator;
use crate::term::TermModel;
use crate::term::seq_models;
use crate::term::lemma_seq_models;
use crate::subst::Substitution;
use crate::subst::term_vars;
use crate::subst::seq_vars;
use crate::subst::subst_model;
use crate::subst::subst_seq;
use crate::subst::lemma_subst_agree;
use crate::subst::maps_agree_on;

verus! {

/// Deterministic matching of term `t` against pattern `p`, extending `s`:
/// the substitution after a successful match, or nothing.
pub open spec fn match_term(
    t: TermModel,
    p: TermModel,
    s: Map<Seq<char>, TermModel>,
) -> Option<Map<Seq<char>, TermModel>>
    decreases p,
{
    match p {
        TermModel::Var(x) => if s.dom().contains(x) {
            if s[x] == t {
                Option::Some(s)
            } else {
                Option::None
            }
        } else {
            Option::Some(s.insert(x, t))
        },
        TermModel::Node(k, ps) => match t {
            TermModel::Node(k2, ts) => if k2 == k {
                match_list(ts, ps, s)
            } else {
                Option::None
            },
            _ => Option::None,
        },
        _ => if t == p {
            Option::Some(s)
        } else {
            Option::None
        },
    }
}

/// Position-by-position matching of a sequence of terms against a
/// sequence of patterns, threading the substitution left to right.
pub open spec fn match_list(
    ts: Seq<TermModel>,
    ps: Seq<TermModel>,
    s: Map<Seq<char>, TermModel>,
) -> Option<Map<Seq<char>, TermModel>>
    decreases ps,
{
    if ts.len() != ps.len() {
        Option::None
    } else if ps.len() == 0 {
        Option::Some(s)
    } else {
        match match_term(ts[0], ps[0], s) {
            Option::Some(s1) => match_list(ts.drop_first(), ps.drop_first(), s1),
            Option::None => Option::None,
        }
    }
}

/// `s2` keeps every binding of `s1`.
pub open spec fn map_extends(
    s2: Map<Seq<char>, TermModel>,
    s1: Map<Seq<char>, TermModel>,
) -> bool {
    forall|x: Seq<char>| #[trigger] s1.dom().contains(x) ==> s2.dom().contains(x) && s2[x]
        == s1[x]
}

/// Soundness of matching: a successful match extends the incoming
/// substitution, binds exactly the pattern's variables beyond it, and
/// instantiates the pattern to the matched term.
pub proof fn lemma_match_term(t: TermModel, p: TermModel, s: Map<Seq<char>, TermModel>)
    ensures
        match match_term(t, p, s) {
            Option::Some(s2) => map_extends(s2, s) && term_vars(p).subset_of(s2.dom())
                && s2.dom().subset_of(s.dom().union(term_vars(p))) && subst_model(p, s2) == t,
            Option::None => true,
        },
    decreases p,
{
    match p {
        TermModel::Var(x) => {
            assert(term_vars(p).contains(x));
        },
        TermModel::Node(k, ps) => {
            match t {
                TermModel::Node(k2, ts) => {
                    if k2 == k {
                        lemma_match_list(ts, ps, s);
                        if match_list(ts, ps, s) is Some {
                            let s2 = match_list(ts, ps, s)->0;
                            assert(subst_seq(ps, s2) =~= ts);
                        }
                    }
                },
                _ => {},
            }
        },
        _ => {},
    }
}

/// Sequence version of `lemma_match_term`.
pub proof fn lemma_match_list(
    ts: Seq<TermModel>,
    ps: Seq<TermModel>,
    s: Map<Seq<char>, TermModel>,
)
    ensures
        match match_list(ts, ps, s) {
            Option::Some(s2) => map_extends(s2, s) && seq_vars(ps).subset_of(s2.dom())
                && s2.dom().subset_of(s.dom().union(seq_vars(ps))) && subst_seq(ps, s2) == ts,
            Option::None => true,
        },
    decreases ps,
{
    if ts.len() == ps.len() && ps.len() > 0 {
        lemma_match_term(ts[0], ps[0], s);
        match match_term(ts[0], ps[0], s) {
            Option::Some(s1) => {
                lemma_match_list(ts.drop_first(), ps.drop_first(), s1);
                match match_list(ts.drop_first(), ps.drop_first(), s1) {
                    Option::Some(s2) => {
                        assert(subst_model(ps[0], s1) == ts[0]);
                        assert forall|x: Seq<char>| #[trigger] term_vars(ps[0]).contains(
                            x,
                        ) implies (s1.dom().contains(x) == s2.dom().contains(x)) && (
                        s1.dom().contains(x) ==> s1[x] == s2[x]) by {
                            assert(s1.dom().contains(x));
                        }
                        assert(maps_agree_on(term_vars(ps[0]), s1, s2));
                        lemma_subst_agree(ps[0], s1, s2);
                        assert(subst_model(ps[0], s2) == ts[0]);
                        assert(subst_seq(ps, s2) =~= ts) by {
                            assert(subst_seq(ps, s2) == seq![subst_model(ps[0], s2)]
                                + subst_seq(ps.drop_first(), s2));
                        }
                        assert(seq_vars(ps).subset_of(s2.dom())) by {
                            assert forall|x: Seq<char>| seq_vars(ps).contains(x) implies s2
                                .dom().contains(x) by {
                                if term_vars(ps[0]).contains(x) {
                                    assert(s1.dom().contains(x));
                                }
                            }
                        }
                        assert(s2.dom().subset_of(s.dom().union(seq_vars(ps)))) by {
                            assert forall|x: Seq<char>| s2.dom().contains(x) implies s.dom()
                                .union(seq_vars(ps)).contains(x) by {
                                if !s.dom().contains(x) {
                                    if s1.dom().contains(x) {
                                        assert(term_vars(ps[0]).contains(x));
                                    } else {
                                        assert(seq_vars(ps.drop_first()).contains(x));
                                    }
                                }
                            }
                        }
                    },
                    Option::None => {},
                }
            },
            Option::None => {},
        }
    }
}

impl Operator {
    /// Match this concrete term against `pattern`, committing the extended
    /// substitution into `subs` only when the whole match succeeds.
    pub fn matches_rule(&self, pattern: &Operator, subs: &mut Substitution) -> (r: bool)
        ensures
            r == (match_term(self@, pattern@, old(subs)@) is Some),
            r ==> final(subs)@ == match_term(self@, pattern@, old(subs)@)->0,
            !r ==> final(subs)@ == old(subs)@,
    {
        let mut scratch = subs.clone();
        if self.match_walk(pattern, &mut scratch) {
            *subs = scratch;
            true
        } else {
            false
        }
    }

    /// Matching worker; on failure `subs` may hold partial bindings.
    fn match_walk(&self, pattern: &Operator, subs: &mut Substitution) -> (r: bool)
        ensures
            r == (match_term(self@, pattern@, old(subs)@) is Some),
            r ==> final(subs)@ == match_term(self@, pattern@, old(subs)@)->0,
        decreases pattern, 1int,
    {
        proof {
            reveal_with_fuel(match_term, 3);
            reveal_with_fuel(match_list, 3);
        }
        match pattern {
            Operator::True => match self {
                Operator::True => true,
                _ => false,
            },
            Operator::False => match self {
                Operator::False => true,
                _ => false,
            },
            Operator::Number(b) => match self {
                Operator::Number(a) => *a == *b,
                _ => false,
            },
            Operator::Variable(x) => {
                let bound = match subs.get(x) {
                    Option::Some(b) => Option::Some(self.matches_exact(b)),
                    Option::None => Option::None,
                };
                match bound {
                    Option::Some(hit) => hit,
                    Option::None => {
                        subs.insert(x.clone(), self.deep_copy());
                        true
                    },
                }
            },
            Operator::Or(pl, pr) => match self {
                Operator::Or(tl, tr) => self.match_walk_two(tl, tr, pattern, pl, pr, subs),
                _ => false,
            },
            Operator::And(pl, pr) => match self {
                Operator::And(tl, tr) => self.match_walk_two(tl, tr, pattern, pl, pr, subs),
                _ => false,
            },
            Operator::Not(pc) => match self {
                Operator::Not(tc) => {
                    let ghost s0 = subs@;
                    let ghost ts = self@->Node_1;
                    let ghost ps = pattern@->Node_1;
                    proof {
                        reveal_with_fuel(match_list, 3);
                        assert(ts.drop_first() =~= Seq::<TermModel>::empty());
                        assert(ps.drop_first() =~= Seq::<TermModel>::empty());
                    }
                    assert(decreases_to!(pattern => pc));
                    tc.match_walk(pc, subs)
                },
                _ => false,
            },
            Operator::Sum(ps_vec) => match self {
                Operator::Sum(ts_vec) => self.match_walk_vec(ts_vec, pattern, ps_vec, subs),
                _ => false,
            },
            Operator::Product(ps_vec) => match self {
                Operator::Product(ts_vec) => self.match_walk_vec(ts_vec, pattern, ps_vec, subs),
                _ => false,
            },
        }
    }

    /// Matching worker for a binary node.
    fn match_walk_two(
        &self,
        tl: &Operator,
        tr: &Operator,
        pattern: &Operator,
        pl: &Operator,
        pr: &Operator,
        subs: &mut Substitution,
    ) -> (r: bool)
        requires
            self@ is Node && pattern@ is Node,
            self@->Node_0 == pattern@->Node_0,
            self@->Node_1 == seq![tl@, tr@],
            pattern@->Node_1 == seq![pl@, pr@],
            decreases_to!(pattern => pl),
            decreases_to!(pattern => pr),
        ensures
            r == (match_term(self@, pattern@, old(subs)@) is Some),
            r ==> final(subs)@ == match_term(self@, pattern@, old(subs)@)->0,
        decreases pattern, 0int,
    {
        let ghost s0 = subs@;
        let ghost ts = self@->Node_1;
        let ghost ps = pattern@->Node_1;
        proof {
            reveal_with_fuel(match_term, 3);
            reveal_with_fuel(match_list, 4);
            assert(ts.drop_first() =~= seq![tr@]);
            assert(ps.drop_first() =~= seq![pr@]);
            assert(seq![tr@].drop_first() =~= Seq::<TermModel>::empty());
            assert(seq![pr@].drop_first() =~= Seq::<TermModel>::empty());
        }
        if tl.match_walk(pl, subs) {
            tr.match_walk(pr, subs)
        } else {
            false
        }
    }

    /// Matching worker for an n-ary node, position by position.
    fn match_walk_vec(
        &self,
        ts_vec: &Vec<Operator>,
        pattern: &Operator,
        ps_vec: &Vec<Operator>,
        subs: &mut Substitution,
    ) -> (r: bool)
        requires
            self@ is Node && pattern@ is Node,
            self@->Node_0 == pattern@->Node_0,
            self@->Node_1 == seq_models(ts_vec@),
            pattern@->Node_1 == seq_models(ps_vec@),
            decreases_to!(pattern => ps_vec),
        ensures
            r == (match_term(self@, pattern@, old(subs)@) is Some),
            r ==> final(subs)@ == match_term(self@, pattern@, old(subs)@)->0,
        decreases pattern, 0int,
    {
        let ghost s0 = subs@;
        let ghost ts = seq_models(ts_vec@);
        let ghost ps = seq_models(ps_vec@);
        proof {
            reveal_with_fuel(match_term, 2);
            reveal_with_fuel(match_list, 2);
            lemma_seq_models(ts_vec@);
            lemma_seq_models(ps_vec@);
        }
        if ts_vec.len() != ps_vec.len() {
            return false;
        }
        proof {
            assert(ts.skip(0) =~= ts);
            assert(ps.skip(0) =~= ps);
        }
        let n = ts_vec.len();
        for i in 0..n
            invariant
                n == ts_vec@.len() && n == ps_vec@.len(),
                ts == seq_models(ts_vec@) && ps == seq_models(ps_vec@),
                s0 == old(subs)@,
                self@ is Node && pattern@ is Node,
                self@->Node_0 == pattern@->Node_0,
                self@->Node_1 == ts && pattern@->Node_1 == ps,
                ts.len() == n && ps.len() == n,
                forall|j: int| 0 <= j < n ==> ts[j] == ts_vec@[j]@ && ps[j] == ps_vec@[j]@,
                match_list(ts, ps, s0) == match_list(
                    ts.skip(i as int),
                    ps.skip(i as int),
                    subs@,
                ),
                decreases_to!(pattern => ps_vec),
                pattern@->Node_1 == ps,
            decreases n - i,
        {
            proof {
                assert(ts.skip(i as int).drop_first() =~= ts.skip(i + 1));
                assert(ps.skip(i as int).drop_first() =~= ps.skip(i + 1));
                assert(ts.skip(i as int)[0] == ts[i as int]);
                assert(ps.skip(i as int)[0] == ps[i as int]);
            }
            assert(decreases_to!(ps_vec => ps_vec@[i as int]));
            let ghost s_pre = subs@;
            if !ts_vec[i].match_walk(&ps_vec[i], subs) {
                proof {
                    reveal_with_fuel(match_term, 2);
                    reveal_with_fuel(match_list, 2);
                    assert(match_term(ts[i as int], ps[i as int], s_pre) is None);
                    assert(match_list(ts.skip(i as int), ps.skip(i as int), s_pre) is None);
                }
                return false;
            }
            proof {
                assert(match_list(ts.skip(i as int), ps.skip(i as int), s_pre) == match_list(
                    ts.skip(i + 1),
                    ps.skip(i + 1),
                    subs@,
                ));
            }
        }
        proof {
            assert(ts.skip(n as int).len() == 0);
            assert(ps.skip(n as int).len() == 0);
        }
        true
    }
}

} // verus!
