//! Unification and superposition. The unifier walks two patterns,
//! binding variables on either side, and then validates the outcome: a
//! substitution is returned only if it provably identifies the two
//! patterns, so every reported unifier is sound. Superposition collects
//! the overlaps of one rule's left side inside another's.

use vstd::prelude::*;
use crate::term::OpKind;
use crate::term::Operator;
use crate::term::TermModel;
use crate::term::seq_models;
use crate::term::lemma_seq_models;
use crate::subst::Substitution;
use crate::subst::subst_model;
use crate::subst::compose_bind;
use crate::order::weight;
use crate::order::sat_add;
use crate::order::sat_add_exec;
use crate::rule::RuleModel;
use crate::sem::Val;
use crate::sem::eval;
use crate::sem::rule_sound;
use crate::sem::lemma_eval_subst;
use crate::sem::lemma_one_child_rewrite;
use crate::sem::bool_term;
use crate::sem::bool_list;
use crate::sem::bool_env;
use crate::sem::bool_bindings;
use crate::sem::lemma_bool_list_index;
use crate::sem::lemma_subst_bool;
use crate::sem::lemma_env_after_bool;
use crate::sem::rule_sound_bool;

verus! {

/// One step of the unifier search, as a mathematical function: a bound
/// variable on either side resolves to its image and unification goes
/// on with that image (each resolution spending one unit of fuel), an
/// unbound variable binds to the other side's current instantiation,
/// and composite terms must agree on kind and arity and unify childwise.
pub open spec fn unify_rec(
    a: TermModel,
    b: TermModel,
    s: Map<Seq<char>, TermModel>,
    fuel: nat,
) -> Option<Map<Seq<char>, TermModel>>
    decreases fuel, a, 1int,
{
    match a {
        TermModel::Var(x) => if s.dom().contains(x) {
            if fuel == 0 {
                Option::None
            } else {
                unify_rec(s[x], b, s, (fuel - 1) as nat)
            }
        } else {
            Option::Some(compose_bind(s, x, subst_model(b, s)))
        },
        _ => match b {
            TermModel::Var(y) => if s.dom().contains(y) {
                if fuel == 0 {
                    Option::None
                } else {
                    unify_rec(a, s[y], s, (fuel - 1) as nat)
                }
            } else {
                Option::Some(compose_bind(s, y, subst_model(a, s)))
            },
            TermModel::Node(k2, bs) => match a {
                TermModel::Node(k, cs) => if k == k2 {
                    unify_rec_list(cs, bs, s, fuel)
                } else {
                    Option::None
                },
                _ => Option::None,
            },
            _ => if a == b {
                Option::Some(s)
            } else {
                Option::None
            },
        },
    }
}

/// Childwise unifier search, threading the substitution left to right.
pub open spec fn unify_rec_list(
    cs: Seq<TermModel>,
    bs: Seq<TermModel>,
    s: Map<Seq<char>, TermModel>,
    fuel: nat,
) -> Option<Map<Seq<char>, TermModel>>
    decreases fuel, cs, 0int,
{
    if cs.len() != bs.len() {
        Option::None
    } else if cs.len() == 0 {
        Option::Some(s)
    } else {
        match unify_rec(cs[0], bs[0], s, fuel) {
            Option::Some(s1) => unify_rec_list(cs.drop_first(), bs.drop_first(), s1, fuel),
            Option::None => Option::None,
        }
    }
}

/// The resolution fuel the unifier search starts with: ample for any
/// chain of bindings the two patterns can give rise to.
pub open spec fn unify_fuel(p1: TermModel, p2: TermModel) -> nat {
    sat_add(weight(p1), weight(p2))
}

/// The unifier of two patterns: the searched substitution, kept only if
/// it provably identifies the two patterns.
pub open spec fn unify_model(p1: TermModel, p2: TermModel) -> Option<
    Map<Seq<char>, TermModel>,
> {
    match unify_rec(p1, p2, Map::empty(), unify_fuel(p1, p2)) {
        Option::Some(s) => if subst_model(p1, s) == subst_model(p2, s) {
            Option::Some(s)
        } else {
            Option::None
        },
        Option::None => Option::None,
    }
}

/// Unifier search worker, mirroring `unify_rec`.
fn unify_walk(a: &Operator, b: &Operator, subs: &mut Substitution, fuel: u64) -> (r: bool)
    ensures
        r == (unify_rec(a@, b@, old(subs)@, fuel as nat) is Some),
        r ==> final(subs)@ == unify_rec(a@, b@, old(subs)@, fuel as nat)->0,
    decreases fuel, a, 1int,
{
    proof {
        reveal_with_fuel(unify_rec_list, 3);
    }
    match a {
        Operator::Variable(x) => {
            let bound_copy = match subs.get(x) {
                Option::Some(t) => Option::Some(t.deep_copy()),
                Option::None => Option::None,
            };
            match bound_copy {
                Option::Some(bound) => {
                    if fuel == 0 {
                        false
                    } else {
                        unify_walk(&bound, b, subs, fuel - 1)
                    }
                },
                Option::None => {
                    let ghost s0 = subs@;
                    let image = b.apply_subst(subs);
                    subs.insert_composed(x.clone(), image);
                    proof {
                        assert(unify_rec(a@, b@, s0, fuel as nat) is Some);
                        assert(subs@ == unify_rec(a@, b@, s0, fuel as nat)->0);
                    }
                    true
                },
            }
        },
        _ => match b {
            Operator::Variable(y) => {
                let bound_copy = match subs.get(y) {
                    Option::Some(t) => Option::Some(t.deep_copy()),
                    Option::None => Option::None,
                };
                match bound_copy {
                    Option::Some(bound) => {
                        if fuel == 0 {
                            false
                        } else {
                            unify_walk(a, &bound, subs, fuel - 1)
                        }
                    },
                    Option::None => {
                        let ghost s0 = subs@;
                        let image = a.apply_subst(subs);
                        subs.insert_composed(y.clone(), image);
                        proof {
                            assert(unify_rec(a@, b@, s0, fuel as nat) is Some);
                            assert(subs@ == unify_rec(a@, b@, s0, fuel as nat)->0);
                        }
                        true
                    },
                }
            },
            _ => match a {
                Operator::True => match b {
                    Operator::True => {
                        proof {
                            assert(unify_rec(a@, b@, subs@, fuel as nat) is Some);
                        }
                        true
                    },
                    _ => {
                        proof {
                            assert(!(unify_rec(a@, b@, subs@, fuel as nat) is Some));
                        }
                        false
                    },
                },
                Operator::False => match b {
                    Operator::False => {
                        proof {
                            assert(unify_rec(a@, b@, subs@, fuel as nat) is Some);
                        }
                        true
                    },
                    _ => {
                        proof {
                            assert(!(unify_rec(a@, b@, subs@, fuel as nat) is Some));
                        }
                        false
                    },
                },
                Operator::Number(n) => match b {
                    Operator::Number(m) => {
                        let r = *n == *m;
                        proof {
                            assert(r == (unify_rec(a@, b@, subs@, fuel as nat) is Some));
                        }
                        r
                    },
                    _ => {
                        proof {
                            assert(!(unify_rec(a@, b@, subs@, fuel as nat) is Some));
                        }
                        false
                    },
                },
                Operator::Or(al, ar) => match b {
                    Operator::Or(bl, br) => {
                        let ghost s0 = subs@;
                        let r = a.unify_walk_two(al, ar, bl, br, subs, fuel);
                        proof {
                            assert(unify_rec(a@, b@, s0, fuel as nat) == unify_rec_list(
                                seq![al@, ar@],
                                seq![bl@, br@],
                                s0,
                                fuel as nat,
                            ));
                            assert(r == (unify_rec(a@, b@, s0, fuel as nat) is Some));
                        }
                        r
                    },
                    _ => {
                        proof {
                            assert(!(unify_rec(a@, b@, subs@, fuel as nat) is Some));
                        }
                        false
                    },
                },
                Operator::And(al, ar) => match b {
                    Operator::And(bl, br) => {
                        let ghost s0 = subs@;
                        let r = a.unify_walk_two(al, ar, bl, br, subs, fuel);
                        proof {
                            assert(unify_rec(a@, b@, s0, fuel as nat) == unify_rec_list(
                                seq![al@, ar@],
                                seq![bl@, br@],
                                s0,
                                fuel as nat,
                            ));
                            assert(r == (unify_rec(a@, b@, s0, fuel as nat) is Some));
                        }
                        r
                    },
                    _ => {
                        proof {
                            assert(!(unify_rec(a@, b@, subs@, fuel as nat) is Some));
                        }
                        false
                    },
                },
                Operator::Not(ac) => match b {
                    Operator::Not(bc) => {
                        let ghost cs = a@->Node_1;
                        let ghost bs = b@->Node_1;
                        proof {
                            assert(cs.drop_first() =~= Seq::<TermModel>::empty());
                            assert(bs.drop_first() =~= Seq::<TermModel>::empty());
                        }
                        assert(decreases_to!(a => ac));
                        let ghost s0 = subs@;
                        let r = unify_walk(ac, bc, subs, fuel);
                        proof {
                            assert(cs[0] == ac@ && bs[0] == bc@);
                            assert(unify_rec(a@, b@, s0, fuel as nat) == unify_rec_list(
                                cs,
                                bs,
                                s0,
                                fuel as nat,
                            ));
                            assert(r == (unify_rec(a@, b@, s0, fuel as nat) is Some));
                        }
                        r
                    },
                    _ => {
                        proof {
                            assert(!(unify_rec(a@, b@, subs@, fuel as nat) is Some));
                        }
                        false
                    },
                },
                Operator::Sum(acs) => match b {
                    Operator::Sum(bcs) => {
                        let ghost s0 = subs@;
                        let r = unify_walk_vec(a, acs, bcs, subs, fuel);
                        proof {
                            assert(unify_rec(a@, b@, s0, fuel as nat) == unify_rec_list(
                                seq_models(acs@),
                                seq_models(bcs@),
                                s0,
                                fuel as nat,
                            ));
                            assert(r == (unify_rec(a@, b@, s0, fuel as nat) is Some));
                        }
                        r
                    },
                    _ => {
                        proof {
                            assert(!(unify_rec(a@, b@, subs@, fuel as nat) is Some));
                        }
                        false
                    },
                },
                Operator::Product(acs) => match b {
                    Operator::Product(bcs) => {
                        let ghost s0 = subs@;
                        let r = unify_walk_vec(a, acs, bcs, subs, fuel);
                        proof {
                            assert(unify_rec(a@, b@, s0, fuel as nat) == unify_rec_list(
                                seq_models(acs@),
                                seq_models(bcs@),
                                s0,
                                fuel as nat,
                            ));
                            assert(r == (unify_rec(a@, b@, s0, fuel as nat) is Some));
                        }
                        r
                    },
                    _ => {
                        proof {
                            assert(!(unify_rec(a@, b@, subs@, fuel as nat) is Some));
                        }
                        false
                    },
                },
                Operator::Variable(_) => false,
            },
        },
    }
}

impl Operator {
    /// Unifier search worker for a binary node.
    fn unify_walk_two(
        &self,
        al: &Operator,
        ar: &Operator,
        bl: &Operator,
        br: &Operator,
        subs: &mut Substitution,
        fuel: u64,
    ) -> (r: bool)
        requires
            self@ is Node,
            self@->Node_1 == seq![al@, ar@],
            decreases_to!(self => al),
            decreases_to!(self => ar),
        ensures
            r == (unify_rec_list(seq![al@, ar@], seq![bl@, br@], old(subs)@, fuel as nat)
                is Some),
            r ==> final(subs)@ == unify_rec_list(
                seq![al@, ar@],
                seq![bl@, br@],
                old(subs)@,
                fuel as nat,
            )->0,
        decreases fuel, self, 0int,
    {
        let ghost cs = seq![al@, ar@];
        let ghost bs = seq![bl@, br@];
        proof {
            reveal_with_fuel(unify_rec_list, 4);
            assert(cs.drop_first() =~= seq![ar@]);
            assert(bs.drop_first() =~= seq![br@]);
            assert(seq![ar@].drop_first() =~= Seq::<TermModel>::empty());
            assert(seq![br@].drop_first() =~= Seq::<TermModel>::empty());
        }
        if unify_walk(al, bl, subs, fuel) {
            unify_walk(ar, br, subs, fuel)
        } else {
            false
        }
    }
}

/// Unifier search worker for an n-ary node.
fn unify_walk_vec(
    a: &Operator,
    acs: &Vec<Operator>,
    bcs: &Vec<Operator>,
    subs: &mut Substitution,
    fuel: u64,
) -> (r: bool)
    requires
        a@ is Node,
        a@->Node_1 == seq_models(acs@),
        decreases_to!(a => acs),
    ensures
        r == (unify_rec_list(seq_models(acs@), seq_models(bcs@), old(subs)@, fuel as nat)
            is Some),
        r ==> final(subs)@ == unify_rec_list(
            seq_models(acs@),
            seq_models(bcs@),
            old(subs)@,
            fuel as nat,
        )->0,
    decreases fuel, a, 0int,
{
    let ghost s0 = subs@;
    let ghost cs = seq_models(acs@);
    let ghost bs = seq_models(bcs@);
    proof {
        reveal_with_fuel(unify_rec_list, 2);
        lemma_seq_models(acs@);
        lemma_seq_models(bcs@);
    }
    if acs.len() != bcs.len() {
        return false;
    }
    proof {
        assert(cs.skip(0) =~= cs);
        assert(bs.skip(0) =~= bs);
    }
    let n = acs.len();
    for i in 0..n
        invariant
            n == acs@.len() && n == bcs@.len(),
            cs == seq_models(acs@) && bs == seq_models(bcs@),
            s0 == old(subs)@,
            cs.len() == n && bs.len() == n,
            forall|j: int| 0 <= j < n ==> cs[j] == acs@[j]@ && bs[j] == bcs@[j]@,
            unify_rec_list(cs, bs, s0, fuel as nat) == unify_rec_list(
                cs.skip(i as int),
                bs.skip(i as int),
                subs@,
                fuel as nat,
            ),
            decreases_to!(a => acs),
        decreases n - i,
    {
        proof {
            assert(cs.skip(i as int).drop_first() =~= cs.skip(i + 1));
            assert(bs.skip(i as int).drop_first() =~= bs.skip(i + 1));
            assert(cs.skip(i as int)[0] == cs[i as int]);
            assert(bs.skip(i as int)[0] == bs[i as int]);
        }
        assert(decreases_to!(acs => acs@[i as int]));
        let ghost s_pre = subs@;
        if !unify_walk(&acs[i], &bcs[i], subs, fuel) {
            proof {
                reveal_with_fuel(unify_rec_list, 2);
                assert(unify_rec(cs[i as int], bs[i as int], s_pre, fuel as nat) is None);
                assert(unify_rec_list(cs.skip(i as int), bs.skip(i as int), s_pre, fuel as nat)
                    is None);
            }
            return false;
        }
        proof {
            assert(unify_rec_list(cs.skip(i as int), bs.skip(i as int), s_pre, fuel as nat)
                == unify_rec_list(cs.skip(i + 1), bs.skip(i + 1), subs@, fuel as nat));
        }
    }
    proof {
        assert(cs.skip(n as int).len() == 0);
        assert(bs.skip(n as int).len() == 0);
    }
    true
}

/// Compute a unifier of two patterns, exactly as the search function
/// prescribes. A returned substitution provably identifies the two
/// patterns; the search is sound, and it resolves bound variables by
/// unifying their images with the other side.
pub fn unify(p1: &Operator, p2: &Operator) -> (res: Option<Substitution>)
    ensures
        match unify_model(p1@, p2@) {
            Option::Some(s) => res is Some && res->0@ == s,
            Option::None => res is None,
        },
        res matches Option::Some(s) ==> subst_model(p1@, s@) == subst_model(p2@, s@),
{
    let fuel = sat_add_exec(p1.term_weight(), p2.term_weight());
    let mut subs = Substitution::new();
    if unify_walk(p1, p2, &mut subs, fuel) {
        let i1 = p1.apply_subst(&subs);
        let i2 = p2.apply_subst(&subs);
        if i1.matches_exact(&i2) {
            Option::Some(subs)
        } else {
            Option::None
        }
    } else {
        Option::None
    }
}

/// The unifier search binds only boolean-fragment images when both
/// patterns are in the fragment.
pub proof fn lemma_unify_rec_bool(
    a: TermModel,
    b: TermModel,
    s: Map<Seq<char>, TermModel>,
    fuel: nat,
)
    requires
        bool_term(a),
        bool_term(b),
        bool_bindings(s),
    ensures
        match unify_rec(a, b, s, fuel) {
            Option::Some(s2) => bool_bindings(s2),
            Option::None => true,
        },
    decreases fuel, a, 1int,
{
    match a {
        TermModel::Var(x) => {
            if s.dom().contains(x) {
                if fuel > 0 {
                    lemma_unify_rec_bool(s[x], b, s, (fuel - 1) as nat);
                }
            } else {
                lemma_subst_bool(b, s);
                lemma_compose_bind_bool(s, x, subst_model(b, s));
            }
        },
        _ => {
            match b {
                TermModel::Var(y) => {
                    if s.dom().contains(y) {
                        if fuel > 0 {
                            lemma_unify_rec_bool(a, s[y], s, (fuel - 1) as nat);
                        }
                    } else {
                        lemma_subst_bool(a, s);
                        lemma_compose_bind_bool(s, y, subst_model(a, s));
                    }
                },
                TermModel::Node(k2, bs) => {
                    match a {
                        TermModel::Node(k, cs) => {
                            if k == k2 {
                                lemma_unify_rec_list_bool(cs, bs, s, fuel);
                            }
                        },
                        _ => {},
                    }
                },
                _ => {},
            }
        },
    }
}

/// Sequence version of `lemma_unify_rec_bool`.
pub proof fn lemma_unify_rec_list_bool(
    cs: Seq<TermModel>,
    bs: Seq<TermModel>,
    s: Map<Seq<char>, TermModel>,
    fuel: nat,
)
    requires
        bool_list(cs),
        bool_list(bs),
        bool_bindings(s),
    ensures
        match unify_rec_list(cs, bs, s, fuel) {
            Option::Some(s2) => bool_bindings(s2),
            Option::None => true,
        },
    decreases fuel, cs, 0int,
{
    if cs.len() == bs.len() && cs.len() > 0 {
        lemma_unify_rec_bool(cs[0], bs[0], s, fuel);
        match unify_rec(cs[0], bs[0], s, fuel) {
            Option::Some(s1) => {
                lemma_unify_rec_list_bool(cs.drop_first(), bs.drop_first(), s1, fuel);
            },
            Option::None => {},
        }
    }
}

/// Composing a boolean-fragment binding into boolean-fragment bindings
/// stays inside the fragment.
proof fn lemma_compose_bind_bool(s: Map<Seq<char>, TermModel>, x: Seq<char>, t: TermModel)
    requires
        bool_bindings(s),
        bool_term(t),
    ensures
        bool_bindings(compose_bind(s, x, t)),
{
    assert forall|k: Seq<char>| #[trigger] compose_bind(s, x, t).dom().contains(
        k,
    ) implies bool_term(compose_bind(s, x, t)[k]) by {
        if k != x {
            assert(s.dom().contains(k));
            assert forall|y: Seq<char>|
                #[trigger] Map::<Seq<char>, TermModel>::empty().insert(x, t).dom().contains(
                    y,
                ) implies bool_term(Map::<Seq<char>, TermModel>::empty().insert(x, t)[y]) by {}
            lemma_subst_bool(s[k], Map::<Seq<char>, TermModel>::empty().insert(x, t));
        }
    }
}

/// Rewriting `t` instantiated by `s` into `u` instantiated by `s`
/// preserves evaluation, provided the rule `l2 -> r2` is sound.
pub open spec fn overlay_sound(
    t: TermModel,
    l2: TermModel,
    r2: TermModel,
    u: TermModel,
    s: Map<Seq<char>, TermModel>,
) -> bool {
    forall|env: Map<Seq<char>, Val>| rule_sound(RuleModel { lhs: l2, rhs: r2 }) ==> #[trigger]
        eval(subst_model(u, s), env) == eval(subst_model(t, s), env)
}

/// Rewriting `t` instantiated by `s` into `u` instantiated by `s`
/// preserves evaluation under total boolean environments, provided the
/// rule `l2 -> r2` is a boolean identity.
pub open spec fn overlay_sound_bool(
    t: TermModel,
    l2: TermModel,
    r2: TermModel,
    u: TermModel,
    s: Map<Seq<char>, TermModel>,
) -> bool {
    forall|env: Map<Seq<char>, Val>| rule_sound_bool(RuleModel { lhs: l2, rhs: r2 })
        && bool_env(env) ==> #[trigger] eval(subst_model(u, s), env) == eval(
        subst_model(t, s),
        env,
    )
}

/// A boolean-fragment overlay: the overlaid term stays in the fragment,
/// the unifier binds only fragment images, and the overlay preserves
/// evaluation under total boolean environments.
pub open spec fn overlay_ok_bool(
    t: TermModel,
    l2: TermModel,
    r2: TermModel,
    u: TermModel,
    s: Map<Seq<char>, TermModel>,
) -> bool {
    bool_term(u) && bool_bindings(s) && overlay_sound_bool(t, l2, r2, u, s)
}

/// The models of a list of overlays.
pub open spec fn pair_models(os: Seq<(Operator, Substitution)>) -> Seq<
    (TermModel, Map<Seq<char>, TermModel>),
> {
    os.map_values(|p: (Operator, Substitution)| (p.0@, p.1@))
}

/// All overlays of rule `l2 -> r2` onto non-variable positions of `t`,
/// as a mathematical function: an overlay at the root where `t` unifies
/// with `l2`, then overlays inside each child in order, each wrapped
/// back into the node.
pub open spec fn overlays_model(t: TermModel, l2: TermModel, r2: TermModel) -> Seq<
    (TermModel, Map<Seq<char>, TermModel>),
>
    decreases t, 0int,
{
    let root = if !(t is Var) && unify_model(t, l2) is Some {
        seq![(r2, unify_model(t, l2)->0)]
    } else {
        Seq::empty()
    };
    match t {
        TermModel::Node(k, cs) => root + overlays_children(k, cs, 0, l2, r2),
        _ => root,
    }
}

/// Overlays inside the children of a node from position `j` on, each
/// wrapped back into the node.
pub open spec fn overlays_children(
    k: OpKind,
    cs: Seq<TermModel>,
    j: int,
    l2: TermModel,
    r2: TermModel,
) -> Seq<(TermModel, Map<Seq<char>, TermModel>)>
    decreases cs, cs.len() - j,
{
    if j < 0 || j >= cs.len() {
        Seq::empty()
    } else {
        wrap_overlays(k, cs, j, overlays_model(cs[j], l2, r2)) + overlays_children(
            k,
            cs,
            j + 1,
            l2,
            r2,
        )
    }
}

/// Wrap each overlay of child `j` back into the surrounding node.
pub open spec fn wrap_overlays(
    k: OpKind,
    cs: Seq<TermModel>,
    j: int,
    list: Seq<(TermModel, Map<Seq<char>, TermModel>)>,
) -> Seq<(TermModel, Map<Seq<char>, TermModel>)> {
    Seq::new(list.len(), |i: int| (TermModel::Node(k, cs.update(j, list[i].0)), list[i].1))
}

/// Every overlay in the model list preserves evaluation of the
/// instantiated term, provided the overlaid rule is sound.
pub proof fn lemma_overlays_sound(t: TermModel, l2: TermModel, r2: TermModel)
    ensures
        forall|i: int| 0 <= i < overlays_model(t, l2, r2).len() ==> #[trigger] overlay_sound(
            t,
            l2,
            r2,
            overlays_model(t, l2, r2)[i].0,
            overlays_model(t, l2, r2)[i].1,
        ),
    decreases t, 0int,
{
    if !(t is Var) && unify_model(t, l2) is Some {
        let s = unify_model(t, l2)->0;
        assert forall|env: Map<Seq<char>, Val>| rule_sound(
            RuleModel { lhs: l2, rhs: r2 },
        ) implies #[trigger] eval(subst_model(r2, s), env) == eval(subst_model(t, s), env) by {
            lemma_eval_subst(r2, s, env);
            lemma_eval_subst(l2, s, env);
            assert(eval(l2, crate::sem::env_after(s, env)) == eval(
                r2,
                crate::sem::env_after(s, env),
            ));
        }
        assert(overlay_sound(t, l2, r2, r2, s));
    }
    match t {
        TermModel::Node(k, cs) => {
            lemma_overlays_children_sound(k, cs, 0, l2, r2);
            assert forall|i: int| 0 <= i < overlays_model(t, l2, r2).len()
                implies #[trigger] overlay_sound(
                t,
                l2,
                r2,
                overlays_model(t, l2, r2)[i].0,
                overlays_model(t, l2, r2)[i].1,
            ) by {
                let root = if !(t is Var) && unify_model(t, l2) is Some {
                    seq![(r2, unify_model(t, l2)->0)]
                } else {
                    Seq::<(TermModel, Map<Seq<char>, TermModel>)>::empty()
                };
                if i >= root.len() {
                    assert(overlays_model(t, l2, r2)[i] == overlays_children(
                        k,
                        cs,
                        0,
                        l2,
                        r2,
                    )[i - root.len()]);
                }
            }
        },
        _ => {},
    }
}

/// Child version of `lemma_overlays_sound`.
pub proof fn lemma_overlays_children_sound(
    k: OpKind,
    cs: Seq<TermModel>,
    j: int,
    l2: TermModel,
    r2: TermModel,
)
    ensures
        forall|i: int| 0 <= i < overlays_children(k, cs, j, l2, r2).len()
            ==> #[trigger] overlay_sound(
            TermModel::Node(k, cs),
            l2,
            r2,
            overlays_children(k, cs, j, l2, r2)[i].0,
            overlays_children(k, cs, j, l2, r2)[i].1,
        ),
    decreases cs, cs.len() - j,
{
    if 0 <= j < cs.len() {
        lemma_overlays_sound(cs[j], l2, r2);
        lemma_overlays_children_sound(k, cs, j + 1, l2, r2);
        let inner = overlays_model(cs[j], l2, r2);
        let here = wrap_overlays(k, cs, j, inner);
        let rest = overlays_children(k, cs, j + 1, l2, r2);
        assert forall|i: int| 0 <= i < overlays_children(k, cs, j, l2, r2).len()
            implies #[trigger] overlay_sound(
            TermModel::Node(k, cs),
            l2,
            r2,
            overlays_children(k, cs, j, l2, r2)[i].0,
            overlays_children(k, cs, j, l2, r2)[i].1,
        ) by {
            if i < here.len() {
                let u = inner[i].0;
                let sig = inner[i].1;
                assert(overlay_sound(cs[j], l2, r2, u, sig));
                let cs2 = cs.update(j, u);
                assert forall|env: Map<Seq<char>, Val>| rule_sound(
                    RuleModel { lhs: l2, rhs: r2 },
                ) implies #[trigger] eval(subst_model(TermModel::Node(k, cs2), sig), env)
                    == eval(subst_model(TermModel::Node(k, cs), sig), env) by {
                    assert(eval(subst_model(u, sig), env) == eval(subst_model(cs[j], sig), env));
                    assert(cs2[j] == u);
                    lemma_one_child_rewrite(k, cs, cs2, j, sig, env);
                }
                assert(overlay_sound(TermModel::Node(k, cs), l2, r2, TermModel::Node(k, cs2), sig));
                assert(overlays_children(k, cs, j, l2, r2)[i] == here[i]);
            } else {
                assert(overlays_children(k, cs, j, l2, r2)[i] == rest[i - here.len()]);
            }
        }
    }
}

/// Every overlay of a boolean-fragment rule onto a boolean-fragment
/// term stays in the fragment, binds boolean-fragment images, and
/// preserves evaluation under total boolean environments.
pub proof fn lemma_overlays_sound_bool(t: TermModel, l2: TermModel, r2: TermModel)
    requires
        bool_term(t),
        bool_term(l2),
        bool_term(r2),
    ensures
        forall|i: int| 0 <= i < overlays_model(t, l2, r2).len() ==> #[trigger] overlay_ok_bool(
            t,
            l2,
            r2,
            overlays_model(t, l2, r2)[i].0,
            overlays_model(t, l2, r2)[i].1,
        ),
    decreases t, 0int,
{
    if !(t is Var) && unify_model(t, l2) is Some {
        let s = unify_model(t, l2)->0;
        lemma_unify_rec_bool(t, l2, Map::empty(), unify_fuel(t, l2));
        assert(bool_bindings(Map::<Seq<char>, TermModel>::empty()));
        assert(bool_bindings(s));
        assert forall|env: Map<Seq<char>, Val>| rule_sound_bool(
            RuleModel { lhs: l2, rhs: r2 },
        ) && bool_env(env) implies #[trigger] eval(subst_model(r2, s), env) == eval(
            subst_model(t, s),
            env,
        ) by {
            lemma_eval_subst(r2, s, env);
            lemma_eval_subst(l2, s, env);
            lemma_env_after_bool(s, env);
            assert(eval(l2, crate::sem::env_after(s, env)) == eval(
                r2,
                crate::sem::env_after(s, env),
            ));
        }
        assert(overlay_ok_bool(t, l2, r2, r2, s));
    }
    match t {
        TermModel::Node(k, cs) => {
            lemma_overlays_children_sound_bool(k, cs, 0, l2, r2);
            assert forall|i: int| 0 <= i < overlays_model(t, l2, r2).len()
                implies #[trigger] overlay_ok_bool(
                t,
                l2,
                r2,
                overlays_model(t, l2, r2)[i].0,
                overlays_model(t, l2, r2)[i].1,
            ) by {
                let root = if !(t is Var) && unify_model(t, l2) is Some {
                    seq![(r2, unify_model(t, l2)->0)]
                } else {
                    Seq::<(TermModel, Map<Seq<char>, TermModel>)>::empty()
                };
                if i >= root.len() {
                    let idx = i - root.len();
                    assert(overlays_model(t, l2, r2)[i] == overlays_children(
                        k,
                        cs,
                        0,
                        l2,
                        r2,
                    )[idx]);
                    assert(overlay_ok_bool(
                        TermModel::Node(k, cs),
                        l2,
                        r2,
                        overlays_children(k, cs, 0, l2, r2)[idx].0,
                        overlays_children(k, cs, 0, l2, r2)[idx].1,
                    ));
                }
            }
        },
        _ => {},
    }
}

/// Child version of `lemma_overlays_sound_bool`.
pub proof fn lemma_overlays_children_sound_bool(
    k: OpKind,
    cs: Seq<TermModel>,
    j: int,
    l2: TermModel,
    r2: TermModel,
)
    requires
        bool_term(TermModel::Node(k, cs)),
        bool_term(l2),
        bool_term(r2),
    ensures
        forall|i: int| 0 <= i < overlays_children(k, cs, j, l2, r2).len()
            ==> #[trigger] overlay_ok_bool(
            TermModel::Node(k, cs),
            l2,
            r2,
            overlays_children(k, cs, j, l2, r2)[i].0,
            overlays_children(k, cs, j, l2, r2)[i].1,
        ),
    decreases cs, cs.len() - j,
{
    if 0 <= j < cs.len() {
        lemma_bool_list_index(cs);
        lemma_overlays_sound_bool(cs[j], l2, r2);
        lemma_overlays_children_sound_bool(k, cs, j + 1, l2, r2);
        let inner = overlays_model(cs[j], l2, r2);
        let here = wrap_overlays(k, cs, j, inner);
        let rest = overlays_children(k, cs, j + 1, l2, r2);
        assert forall|i: int| 0 <= i < overlays_children(k, cs, j, l2, r2).len()
            implies #[trigger] overlay_ok_bool(
            TermModel::Node(k, cs),
            l2,
            r2,
            overlays_children(k, cs, j, l2, r2)[i].0,
            overlays_children(k, cs, j, l2, r2)[i].1,
        ) by {
            if i < here.len() {
                assert(overlay_ok_bool(
                    cs[j],
                    l2,
                    r2,
                    overlays_model(cs[j], l2, r2)[i].0,
                    overlays_model(cs[j], l2, r2)[i].1,
                ));
                let u = inner[i].0;
                let sig = inner[i].1;
                let cs2 = cs.update(j, u);
                assert(bool_list(cs2)) by {
                    lemma_bool_list_index(cs2);
                    assert forall|m: int| 0 <= m < cs2.len() implies bool_term(
                        #[trigger] cs2[m],
                    ) by {
                        if m != j {
                            assert(cs2[m] == cs[m]);
                        }
                    }
                }
                assert(bool_term(TermModel::Node(k, cs2)));
                assert forall|env: Map<Seq<char>, Val>| rule_sound_bool(
                    RuleModel { lhs: l2, rhs: r2 },
                ) && bool_env(env) implies #[trigger] eval(
                    subst_model(TermModel::Node(k, cs2), sig),
                    env,
                ) == eval(subst_model(TermModel::Node(k, cs), sig), env) by {
                    assert(eval(subst_model(u, sig), env) == eval(subst_model(cs[j], sig), env));
                    assert(cs2[j] == u);
                    lemma_one_child_rewrite(k, cs, cs2, j, sig, env);
                }
                assert(overlay_sound_bool(
                    TermModel::Node(k, cs),
                    l2,
                    r2,
                    TermModel::Node(k, cs2),
                    sig,
                ));
                assert(overlay_ok_bool(
                    TermModel::Node(k, cs),
                    l2,
                    r2,
                    TermModel::Node(k, cs2),
                    sig,
                ));
                assert(overlays_children(k, cs, j, l2, r2)[i] == here[i]);
            } else {
                assert(overlays_children(k, cs, j, l2, r2)[i] == rest[i - here.len()]);
                assert(overlay_ok_bool(
                    TermModel::Node(k, cs),
                    l2,
                    r2,
                    overlays_children(k, cs, j + 1, l2, r2)[i - here.len()].0,
                    overlays_children(k, cs, j + 1, l2, r2)[i - here.len()].1,
                ));
            }
        }
    }
}

impl Operator {
    /// A copy of this node with child `j` replaced by `c`.
    fn with_child(&self, j: usize, c: Operator) -> (r: Operator)
        requires
            self@ is Node,
            (j as int) < self@->Node_1.len(),
        ensures
            r@ == TermModel::Node(self@->Node_0, self@->Node_1.update(j as int, c@)),
        decreases self,
    {
        match self {
            Operator::Or(a, b) => {
                let r = if j == 0 {
                    Operator::Or(Box::new(c), Box::new(b.deep_copy()))
                } else {
                    Operator::Or(Box::new(a.deep_copy()), Box::new(c))
                };
                proof {
                    assert(r@->Node_1 =~= self@->Node_1.update(j as int, r@->Node_1[j as int]));
                }
                r
            },
            Operator::And(a, b) => {
                let r = if j == 0 {
                    Operator::And(Box::new(c), Box::new(b.deep_copy()))
                } else {
                    Operator::And(Box::new(a.deep_copy()), Box::new(c))
                };
                proof {
                    assert(r@->Node_1 =~= self@->Node_1.update(j as int, r@->Node_1[j as int]));
                }
                r
            },
            Operator::Not(_) => {
                let r = Operator::Not(Box::new(c));
                proof {
                    assert(r@->Node_1 =~= self@->Node_1.update(j as int, r@->Node_1[0]));
                }
                r
            },
            Operator::Sum(cs) => {
                proof {
                    lemma_seq_models(cs@);
                }
                let r = Operator::Sum(vec_with_at(cs, j, c));
                proof {
                    lemma_seq_models(cs@);
                    lemma_seq_models(r->Sum_0@);
                    assert(r@->Node_1 =~= self@->Node_1.update(j as int, r@->Node_1[j as int]));
                }
                r
            },
            Operator::Product(cs) => {
                proof {
                    lemma_seq_models(cs@);
                }
                let r = Operator::Product(vec_with_at(cs, j, c));
                proof {
                    lemma_seq_models(cs@);
                    lemma_seq_models(r->Product_0@);
                    assert(r@->Node_1 =~= self@->Node_1.update(j as int, r@->Node_1[j as int]));
                }
                r
            },
            _ => {
                proof {
                    assert(false);
                }
                Operator::True
            },
        }
    }
}

/// Deep copies of every member of `cs`, with position `j` replaced by
/// `c`.
fn vec_with_at(cs: &Vec<Operator>, j: usize, c: Operator) -> (r: Vec<Operator>)
    requires
        (j as int) < cs@.len(),
    ensures
        r@.len() == cs@.len(),
        forall|i: int| 0 <= i < cs@.len() && i != j ==> r@[i]@ == cs@[i]@,
        r@[j as int]@ == c@,
{
    let mut out: Vec<Operator> = Vec::new();
    let n = cs.len();
    let mut replacement = Option::Some(c);
    for i in 0..n
        invariant
            n == cs@.len(),
            j < n,
            out@.len() == i,
            i <= j ==> (replacement matches Option::Some(x) && x@ == c@),
            forall|m: int| 0 <= m < i && m != j ==> out@[m]@ == cs@[m]@,
            i > j ==> out@[j as int]@ == c@,
        decreases n - i,
    {
        if i == j {
            let x = replacement.take().unwrap();
            out.push(x);
        } else {
            out.push(cs[i].deep_copy());
        }
    }
    out
}

/// Append the overlays of child `j`, each wrapped back into the node.
fn append_wrapped(
    t: &Operator,
    j: usize,
    found: &Vec<(Operator, Substitution)>,
    out: &mut Vec<(Operator, Substitution)>,
)
    requires
        t@ is Node,
        (j as int) < t@->Node_1.len(),
    ensures
        pair_models(final(out)@) == pair_models(old(out)@) + wrap_overlays(
            t@->Node_0,
            t@->Node_1,
            j as int,
            pair_models(found@),
        ),
{
    let ghost k = t@->Node_0;
    let ghost cs = t@->Node_1;
    let ghost fm = pair_models(found@);
    let ghost w = wrap_overlays(k, cs, j as int, fm);
    let ghost base = pair_models(old(out)@);
    proof {
        assert(w.take(0) =~= Seq::<(TermModel, Map<Seq<char>, TermModel>)>::empty());
        assert(base + w.take(0) =~= base);
    }
    let n = found.len();
    for i in 0..n
        invariant
            n == found@.len(),
            t@ is Node && t@->Node_0 == k && t@->Node_1 == cs,
            (j as int) < cs.len(),
            fm == pair_models(found@),
            w == wrap_overlays(k, cs, j as int, fm),
            base == pair_models(old(out)@),
            pair_models(out@) == base + w.take(i as int),
        decreases n - i,
    {
        let rebuilt = t.with_child(j, found[i].0.deep_copy());
        let ghost before = out@;
        out.push((rebuilt, found[i].1.clone()));
        proof {
            assert(fm[i as int] == (found@[i as int].0@, found@[i as int].1@));
            assert(w[i as int] == (TermModel::Node(k, cs.update(j as int, fm[i as int].0)), fm[
                i as int].1));
            assert(pair_models(out@) =~= pair_models(before).push(
                (rebuilt@, found@[i as int].1@),
            ));
            assert(w.take(i + 1) =~= w.take(i as int).push(w[i as int]));
            assert(pair_models(out@) =~= base + w.take(i + 1));
        }
    }
    proof {
        assert(w.take(n as int) =~= w);
    }
}

/// All overlays of rule `l2 -> r2` onto non-variable positions of `t`:
/// each result pairs `t` with that one position replaced by `r2`, and a
/// substitution unifying the position's subterm with `l2`, exactly as
/// the model function prescribes.
pub fn overlaps(t: &Operator, l2: &Operator, r2: &Operator) -> (res: Vec<(Operator, Substitution)>)
    ensures
        pair_models(res@) == overlays_model(t@, l2@, r2@),
    decreases t,
{
    let ghost tot = overlays_model(t@, l2@, r2@);
    let mut out: Vec<(Operator, Substitution)> = Vec::new();
    match t {
        Operator::Variable(_) => {},
        _ => {
            match unify(t, l2) {
                Option::Some(s) => {
                    out.push((r2.deep_copy(), s));
                },
                Option::None => {},
            }
        },
    }
    let ghost root = pair_models(out@);
    proof {
        assert(root =~= (if !(t@ is Var) && unify_model(t@, l2@) is Some {
            seq![(r2@, unify_model(t@, l2@)->0)]
        } else {
            Seq::<(TermModel, Map<Seq<char>, TermModel>)>::empty()
        }));
    }
    match t {
        Operator::Or(a, b) => {
            let ghost k = t@->Node_0;
            let ghost cs = t@->Node_1;
            assert(decreases_to!(t => a));
            assert(decreases_to!(t => b));
            let from_left = overlaps(a, l2, r2);
            append_wrapped(t, 0, &from_left, &mut out);
            let from_right = overlaps(b, l2, r2);
            append_wrapped(t, 1, &from_right, &mut out);
            proof {
                assert(cs[0] == a@ && cs[1] == b@ && cs.len() == 2);
                assert(overlays_children(k, cs, 2, l2@, r2@) =~= Seq::<(
                    TermModel,
                    Map<Seq<char>, TermModel>,
                )>::empty());
                assert(overlays_children(k, cs, 1, l2@, r2@) =~= wrap_overlays(
                    k,
                    cs,
                    1,
                    overlays_model(b@, l2@, r2@),
                ));
                assert(pair_models(out@) =~= root + overlays_children(k, cs, 0, l2@, r2@));
            }
        },
        Operator::And(a, b) => {
            let ghost k = t@->Node_0;
            let ghost cs = t@->Node_1;
            assert(decreases_to!(t => a));
            assert(decreases_to!(t => b));
            let from_left = overlaps(a, l2, r2);
            append_wrapped(t, 0, &from_left, &mut out);
            let from_right = overlaps(b, l2, r2);
            append_wrapped(t, 1, &from_right, &mut out);
            proof {
                assert(cs[0] == a@ && cs[1] == b@ && cs.len() == 2);
                assert(overlays_children(k, cs, 2, l2@, r2@) =~= Seq::<(
                    TermModel,
                    Map<Seq<char>, TermModel>,
                )>::empty());
                assert(overlays_children(k, cs, 1, l2@, r2@) =~= wrap_overlays(
                    k,
                    cs,
                    1,
                    overlays_model(b@, l2@, r2@),
                ));
                assert(pair_models(out@) =~= root + overlays_children(k, cs, 0, l2@, r2@));
            }
        },
        Operator::Not(a) => {
            let ghost k = t@->Node_0;
            let ghost cs = t@->Node_1;
            assert(decreases_to!(t => a));
            let from_child = overlaps(a, l2, r2);
            append_wrapped(t, 0, &from_child, &mut out);
            proof {
                assert(cs[0] == a@ && cs.len() == 1);
                assert(overlays_children(k, cs, 1, l2@, r2@) =~= Seq::<(
                    TermModel,
                    Map<Seq<char>, TermModel>,
                )>::empty());
                assert(pair_models(out@) =~= root + overlays_children(k, cs, 0, l2@, r2@));
            }
        },
        Operator::Sum(cs_vec) => {
            vec_overlaps(t, cs_vec, l2, r2, Ghost(root), &mut out);
        },
        Operator::Product(cs_vec) => {
            vec_overlaps(t, cs_vec, l2, r2, Ghost(root), &mut out);
        },
        _ => {},
    }
    proof {
        assert(pair_models(out@) =~= tot);
    }
    out
}

/// Overlays inside every child of an n-ary node, in order.
fn vec_overlaps(
    t: &Operator,
    cs_vec: &Vec<Operator>,
    l2: &Operator,
    r2: &Operator,
    Ghost(root): Ghost<Seq<(TermModel, Map<Seq<char>, TermModel>)>>,
    out: &mut Vec<(Operator, Substitution)>,
)
    requires
        t@ is Node,
        t@->Node_1 == seq_models(cs_vec@),
        pair_models(old(out)@) == root,
        decreases_to!(t => cs_vec),
    ensures
        pair_models(final(out)@) == root + overlays_children(
            t@->Node_0,
            t@->Node_1,
            0,
            l2@,
            r2@,
        ),
    decreases t, 0int,
{
    let ghost k = t@->Node_0;
    let ghost tsm = t@->Node_1;
    proof {
        lemma_seq_models(cs_vec@);
    }
    let n = cs_vec.len();
    for j in 0..n
        invariant
            n == cs_vec@.len(),
            t@ is Node && t@->Node_0 == k && t@->Node_1 == tsm,
            tsm == seq_models(cs_vec@),
            tsm.len() == n,
            forall|m: int| 0 <= m < n ==> tsm[m] == cs_vec@[m]@,
            pair_models(out@) + overlays_children(k, tsm, j as int, l2@, r2@) == root
                + overlays_children(k, tsm, 0, l2@, r2@),
            decreases_to!(t => cs_vec),
        decreases n - j,
    {
        assert(decreases_to!(cs_vec => cs_vec@[j as int]));
        let from_child = overlaps(&cs_vec[j], l2, r2);
        let ghost before = pair_models(out@);
        append_wrapped(t, j, &from_child, out);
        proof {
            assert(overlays_children(k, tsm, j as int, l2@, r2@) == wrap_overlays(
                k,
                tsm,
                j as int,
                overlays_model(tsm[j as int], l2@, r2@),
            ) + overlays_children(k, tsm, j + 1, l2@, r2@));
            assert(before + (wrap_overlays(k, tsm, j as int, pair_models(from_child@))
                + overlays_children(k, tsm, j + 1, l2@, r2@)) =~= (before + wrap_overlays(
                k,
                tsm,
                j as int,
                pair_models(from_child@),
            )) + overlays_children(k, tsm, j + 1, l2@, r2@));
        }
    }
    proof {
        assert(overlays_children(k, tsm, n as int, l2@, r2@) =~= Seq::<(
            TermModel,
            Map<Seq<char>, TermModel>,
        )>::empty());
        assert(pair_models(out@) + overlays_children(k, tsm, n as int, l2@, r2@)
            =~= pair_models(out@));
    }
}

} // verus!
