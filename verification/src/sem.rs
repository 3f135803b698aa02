//! Semantics: evaluation of terms under an environment giving each
//! variable a value, and two notions of a sound rule — both sides
//! evaluate alike under every environment, or, for the boolean
//! fragment, under every total boolean environment (the well-typed
//! setting that the boolean identity table satisfies) — with proofs
//! that normalization under sound rules preserves evaluation in either
//! sense.

use vstd::prelude::*;
use crate::term::OpKind;
use crate::term::TermModel;
use crate::term::rename_model;
use crate::term::rename_list;
use crate::term::lemma_rename_list;
use crate::subst::subst_model;
use crate::subst::subst_seq;
use crate::subst::lemma_subst_seq;
use crate::matching::match_term;
use crate::matching::lemma_match_term;
use crate::rule::RuleModel;
use crate::normal::clip;
use crate::normal::find_rule;
use crate::normal::norm_term;
use crate::normal::norm_list;

verus! {

/// A value a term can evaluate to.
pub enum Val {
    Bool(bool),
    Int(int),
}

/// Combine the evaluated children of a node. Nothing on a kind/arity or
/// type mismatch.
pub open spec fn apply_op(k: OpKind, vs: Seq<Val>) -> Option<Val> {
    match k {
        OpKind::Or => if vs.len() == 2 && vs[0] is Bool && vs[1] is Bool {
            Option::Some(Val::Bool(vs[0]->Bool_0 || vs[1]->Bool_0))
        } else {
            Option::None
        },
        OpKind::And => if vs.len() == 2 && vs[0] is Bool && vs[1] is Bool {
            Option::Some(Val::Bool(vs[0]->Bool_0 && vs[1]->Bool_0))
        } else {
            Option::None
        },
        OpKind::Not => if vs.len() == 1 && vs[0] is Bool {
            Option::Some(Val::Bool(!vs[0]->Bool_0))
        } else {
            Option::None
        },
        OpKind::Sum => match int_fold(vs, 0, true) {
            Option::Some(n) => Option::Some(Val::Int(n)),
            Option::None => Option::None,
        },
        OpKind::Product => match int_fold(vs, 1, false) {
            Option::Some(n) => Option::Some(Val::Int(n)),
            Option::None => Option::None,
        },
    }
}

/// Fold a sequence of integer values; nothing if one is not an integer.
pub open spec fn int_fold(vs: Seq<Val>, acc: int, is_sum: bool) -> Option<int>
    decreases vs,
{
    if vs.len() == 0 {
        Option::Some(acc)
    } else {
        match vs[0] {
            Val::Int(n) => int_fold(
                vs.drop_first(),
                if is_sum {
                    acc + n
                } else {
                    acc * n
                },
                is_sum,
            ),
            _ => Option::None,
        }
    }
}

/// Evaluation of a term under an environment: constants are themselves,
/// variables look their value up, nodes combine their evaluated
/// children. Nothing on an unbound variable or an ill-typed node.
pub open spec fn eval(t: TermModel, env: Map<Seq<char>, Val>) -> Option<Val>
    decreases t, 1int,
{
    match t {
        TermModel::BTrue => Option::Some(Val::Bool(true)),
        TermModel::BFalse => Option::Some(Val::Bool(false)),
        TermModel::Num(n) => Option::Some(Val::Int(n)),
        TermModel::Var(x) => if env.dom().contains(x) {
            Option::Some(env[x])
        } else {
            Option::None
        },
        TermModel::Node(k, cs) => match eval_list(cs, env) {
            Option::Some(vs) => apply_op(k, vs),
            Option::None => Option::None,
        },
    }
}

/// Evaluation of every term of a sequence; nothing if one fails.
pub open spec fn eval_list(cs: Seq<TermModel>, env: Map<Seq<char>, Val>) -> Option<Seq<Val>>
    decreases cs, 0int,
{
    if cs.len() == 0 {
        Option::Some(Seq::empty())
    } else {
        match eval(cs[0], env) {
            Option::Some(v) => match eval_list(cs.drop_first(), env) {
                Option::Some(vs) => Option::Some(seq![v] + vs),
                Option::None => Option::None,
            },
            Option::None => Option::None,
        }
    }
}

/// A rule is sound when both sides evaluate alike under every
/// environment.
pub open spec fn rule_sound(r: RuleModel) -> bool {
    forall|env: Map<Seq<char>, Val>| #[trigger] eval(r.lhs, env) == eval(r.rhs, env)
}

/// Every rule of the system is sound.
pub open spec fn sys_sound(rs: Seq<RuleModel>) -> bool {
    forall|i: int| 0 <= i < rs.len() ==> rule_sound(#[trigger] rs[i])
}

/// The environment that evaluating an instantiated pattern amounts to:
/// substituted variables take the value of their image, others keep
/// their binding.
pub open spec fn env_after(
    s: Map<Seq<char>, TermModel>,
    env: Map<Seq<char>, Val>,
) -> Map<Seq<char>, Val> {
    Map::new(
        |x: Seq<char>| if s.dom().contains(x) {
            eval(s[x], env) is Some
        } else {
            env.dom().contains(x)
        },
        |x: Seq<char>| if s.dom().contains(x) {
            eval(s[x], env)->0
        } else {
            env[x]
        },
    )
}

/// The substitution lemma: evaluating an instantiated pattern is
/// evaluating the pattern under the instantiated environment.
pub proof fn lemma_eval_subst(
    p: TermModel,
    s: Map<Seq<char>, TermModel>,
    env: Map<Seq<char>, Val>,
)
    ensures
        eval(subst_model(p, s), env) == eval(p, env_after(s, env)),
    decreases p, 1int,
{
    match p {
        TermModel::Node(_k, cs) => {
            lemma_eval_subst_list(cs, s, env);
        },
        _ => {},
    }
}

/// Sequence version of `lemma_eval_subst`.
pub proof fn lemma_eval_subst_list(
    cs: Seq<TermModel>,
    s: Map<Seq<char>, TermModel>,
    env: Map<Seq<char>, Val>,
)
    ensures
        eval_list(subst_seq(cs, s), env) == eval_list(cs, env_after(s, env)),
    decreases cs, 0int,
{
    if cs.len() > 0 {
        lemma_eval_subst(cs[0], s, env);
        lemma_eval_subst_list(cs.drop_first(), s, env);
        assert(subst_seq(cs, s)[0] == subst_model(cs[0], s)) by {
            lemma_subst_seq(cs, s);
        }
        assert(subst_seq(cs, s).drop_first() =~= subst_seq(cs.drop_first(), s)) by {
            lemma_subst_seq(cs, s);
            lemma_subst_seq(cs.drop_first(), s);
        }
    }
}

/// A firing rule preserves evaluation: if a sound rule's left side
/// matches `u`, the rewritten term evaluates as `u` does, under every
/// environment.
pub proof fn lemma_rewrite_preserves_eval(
    u: TermModel,
    r: RuleModel,
    s0: Map<Seq<char>, TermModel>,
    env: Map<Seq<char>, Val>,
)
    requires
        rule_sound(r),
        match_term(u, r.lhs, s0) is Some,
    ensures
        eval(subst_model(r.rhs, match_term(u, r.lhs, s0)->0), env) == eval(u, env),
{
    let s = match_term(u, r.lhs, s0)->0;
    lemma_match_term(u, r.lhs, s0);
    assert(subst_model(r.lhs, s) == u);
    lemma_eval_subst(r.lhs, s, env);
    lemma_eval_subst(r.rhs, s, env);
    assert(eval(r.lhs, env_after(s, env)) == eval(r.rhs, env_after(s, env)));
}

/// Soundness of normalization: under a system of sound rules, the normal
/// form evaluates exactly as the input does, under every environment. In
/// particular a ground term that evaluates to a value keeps that value.
pub proof fn lemma_norm_preserves_eval(
    t: TermModel,
    rs: Seq<RuleModel>,
    fuel: nat,
    env: Map<Seq<char>, Val>,
)
    requires
        sys_sound(rs),
    ensures
        match norm_term(t, rs, fuel) {
            Option::Some(p) => eval(p.0, env) == eval(t, env),
            Option::None => true,
        },
    decreases fuel, t, 1int,
{
    match t {
        TermModel::Node(k, cs) => {
            lemma_norm_list_preserves_eval(cs, rs, fuel, env);
            match norm_list(cs, rs, fuel) {
                Option::Some(p) => {
                    let f1 = clip(p.1, fuel);
                    let u = TermModel::Node(k, p.0);
                    assert(eval(u, env) == eval(t, env));
                    match find_rule(u, rs, 0) {
                        Option::Some(q) => {
                            lemma_find_rule_bounds(u, rs, 0);
                            lemma_rewrite_preserves_eval(u, rs[q.0], Map::empty(), env);
                            if f1 > 0 {
                                lemma_norm_preserves_eval(
                                    subst_model(rs[q.0].rhs, q.1),
                                    rs,
                                    (f1 - 1) as nat,
                                    env,
                                );
                            }
                        },
                        Option::None => {},
                    }
                },
                Option::None => {},
            }
        },
        _ => {},
    }
}

/// Sequence version of `lemma_norm_preserves_eval`.
pub proof fn lemma_norm_list_preserves_eval(
    cs: Seq<TermModel>,
    rs: Seq<RuleModel>,
    fuel: nat,
    env: Map<Seq<char>, Val>,
)
    requires
        sys_sound(rs),
    ensures
        match norm_list(cs, rs, fuel) {
            Option::Some(p) => eval_list(p.0, env) == eval_list(cs, env),
            Option::None => true,
        },
    decreases fuel, cs, 0int,
{
    if cs.len() > 0 {
        lemma_norm_preserves_eval(cs[0], rs, fuel, env);
        match norm_term(cs[0], rs, fuel) {
            Option::Some(p) => {
                let f1 = clip(p.1, fuel);
                lemma_norm_list_preserves_eval(cs.drop_first(), rs, f1, env);
                match norm_list(cs.drop_first(), rs, f1) {
                    Option::Some(q) => {
                        let out = seq![p.0] + q.0;
                        assert(out[0] == p.0);
                        assert(out.drop_first() =~= q.0);
                    },
                    Option::None => {},
                }
            },
            Option::None => {},
        }
    }
}

/// The environment a renamed term reads through: each name looks up its
/// suffixed form.
pub open spec fn pull_env(sfx: Seq<char>, env: Map<Seq<char>, Val>) -> Map<Seq<char>, Val> {
    Map::new(
        |x: Seq<char>| env.dom().contains(x + sfx),
        |x: Seq<char>| env[x + sfx],
    )
}

/// Evaluating a renamed term is evaluating the original under the
/// pulled-back environment.
pub proof fn lemma_eval_rename(t: TermModel, sfx: Seq<char>, env: Map<Seq<char>, Val>)
    ensures
        eval(rename_model(t, sfx), env) == eval(t, pull_env(sfx, env)),
    decreases t, 1int,
{
    match t {
        TermModel::Node(_k, cs) => {
            lemma_eval_rename_list(cs, sfx, env);
        },
        _ => {},
    }
}

/// Sequence version of `lemma_eval_rename`.
pub proof fn lemma_eval_rename_list(cs: Seq<TermModel>, sfx: Seq<char>, env: Map<Seq<char>, Val>)
    ensures
        eval_list(rename_list(cs, sfx), env) == eval_list(cs, pull_env(sfx, env)),
    decreases cs, 0int,
{
    if cs.len() > 0 {
        lemma_eval_rename(cs[0], sfx, env);
        lemma_eval_rename_list(cs.drop_first(), sfx, env);
        assert(rename_list(cs, sfx)[0] == rename_model(cs[0], sfx)) by {
            lemma_rename_list(cs, sfx);
        }
        assert(rename_list(cs, sfx).drop_first() =~= rename_list(cs.drop_first(), sfx)) by {
            lemma_rename_list(cs, sfx);
            lemma_rename_list(cs.drop_first(), sfx);
        }
    }
}

/// The pulled-back environment of a total boolean environment is total
/// and boolean.
pub proof fn lemma_pull_env_bool(sfx: Seq<char>, env: Map<Seq<char>, Val>)
    requires
        bool_env(env),
    ensures
        bool_env(pull_env(sfx, env)),
{
    assert forall|x: Seq<char>| (#[trigger] pull_env(sfx, env).dom().contains(x)) && pull_env(
        sfx,
        env,
    )[x] is Bool by {
        assert(env.dom().contains(x + sfx) && env[x + sfx] is Bool);
    }
}

/// Renaming a boolean identity's variables keeps it a boolean identity.
pub proof fn lemma_rename_rule_sound_bool(r: RuleModel, sfx: Seq<char>)
    requires
        rule_sound_bool(r),
    ensures
        rule_sound_bool(
            RuleModel { lhs: rename_model(r.lhs, sfx), rhs: rename_model(r.rhs, sfx) },
        ),
{
    lemma_rename_bool(r.lhs, sfx);
    lemma_rename_bool(r.rhs, sfx);
    assert forall|env: Map<Seq<char>, Val>| bool_env(env) implies #[trigger] eval(
        rename_model(r.lhs, sfx),
        env,
    ) == eval(rename_model(r.rhs, sfx), env) by {
        lemma_eval_rename(r.lhs, sfx, env);
        lemma_eval_rename(r.rhs, sfx, env);
        lemma_pull_env_bool(sfx, env);
        assert(eval(r.lhs, pull_env(sfx, env)) == eval(r.rhs, pull_env(sfx, env)));
    }
}

/// Renaming a sound rule's variables keeps it sound.
pub proof fn lemma_rename_rule_sound(r: RuleModel, sfx: Seq<char>)
    requires
        rule_sound(r),
    ensures
        rule_sound(RuleModel { lhs: rename_model(r.lhs, sfx), rhs: rename_model(r.rhs, sfx) }),
{
    assert forall|env: Map<Seq<char>, Val>| #[trigger] eval(rename_model(r.lhs, sfx), env)
        == eval(rename_model(r.rhs, sfx), env) by {
        lemma_eval_rename(r.lhs, sfx, env);
        lemma_eval_rename(r.rhs, sfx, env);
        assert(eval(r.lhs, pull_env(sfx, env)) == eval(r.rhs, pull_env(sfx, env)));
    }
}

/// A total boolean environment: every name has a boolean value. This is
/// the well-typed setting of the boolean fragment; the fragment's
/// identities hold under exactly these environments.
pub open spec fn bool_env(env: Map<Seq<char>, Val>) -> bool {
    forall|x: Seq<char>| (#[trigger] env.dom().contains(x)) && env[x] is Bool
}

/// A term of the boolean fragment: the two constants, variables, and
/// the boolean connectives at their arities.
pub open spec fn bool_term(t: TermModel) -> bool
    decreases t, 1int,
{
    match t {
        TermModel::BTrue => true,
        TermModel::BFalse => true,
        TermModel::Var(_) => true,
        TermModel::Num(_) => false,
        TermModel::Node(k, cs) => match k {
            OpKind::Or | OpKind::And => cs.len() == 2 && bool_list(cs),
            OpKind::Not => cs.len() == 1 && bool_list(cs),
            _ => false,
        },
    }
}

/// Every term of the sequence is of the boolean fragment.
pub open spec fn bool_list(cs: Seq<TermModel>) -> bool
    decreases cs, 0int,
{
    if cs.len() == 0 {
        true
    } else {
        bool_term(cs[0]) && bool_list(cs.drop_first())
    }
}

/// Every binding's image is of the boolean fragment.
pub open spec fn bool_bindings(s: Map<Seq<char>, TermModel>) -> bool {
    forall|x: Seq<char>| #[trigger] s.dom().contains(x) ==> bool_term(s[x])
}

/// A boolean-fragment term evaluates to a boolean under a total boolean
/// environment.
pub proof fn lemma_bool_eval(t: TermModel, env: Map<Seq<char>, Val>)
    requires
        bool_term(t),
        bool_env(env),
    ensures
        eval(t, env) matches Option::Some(v) && v is Bool,
    decreases t, 1int,
{
    match t {
        TermModel::Node(_k, cs) => {
            lemma_bool_eval_list(cs, env);
        },
        _ => {},
    }
}

/// Sequence version of `lemma_bool_eval`.
pub proof fn lemma_bool_eval_list(cs: Seq<TermModel>, env: Map<Seq<char>, Val>)
    requires
        bool_list(cs),
        bool_env(env),
    ensures
        eval_list(cs, env) matches Option::Some(vs) && vs.len() == cs.len() && forall|i: int|
            0 <= i < cs.len() ==> #[trigger] vs[i] is Bool,
    decreases cs, 0int,
{
    if cs.len() > 0 {
        lemma_bool_eval(cs[0], env);
        lemma_bool_eval_list(cs.drop_first(), env);
    }
}

/// Substituting boolean-fragment images into a boolean-fragment pattern
/// stays inside the fragment.
pub proof fn lemma_subst_bool(p: TermModel, s: Map<Seq<char>, TermModel>)
    requires
        bool_term(p),
        bool_bindings(s),
    ensures
        bool_term(subst_model(p, s)),
    decreases p, 1int,
{
    match p {
        TermModel::Node(_k, cs) => {
            lemma_subst_seq_bool(cs, s);
            lemma_subst_seq(cs, s);
        },
        _ => {},
    }
}

/// Sequence version of `lemma_subst_bool`.
pub proof fn lemma_subst_seq_bool(cs: Seq<TermModel>, s: Map<Seq<char>, TermModel>)
    requires
        bool_list(cs),
        bool_bindings(s),
    ensures
        bool_list(subst_seq(cs, s)),
    decreases cs, 0int,
{
    if cs.len() > 0 {
        lemma_subst_bool(cs[0], s);
        lemma_subst_seq_bool(cs.drop_first(), s);
        assert(subst_seq(cs, s)[0] == subst_model(cs[0], s)) by {
            lemma_subst_seq(cs, s);
        }
        assert(subst_seq(cs, s).drop_first() =~= subst_seq(cs.drop_first(), s)) by {
            lemma_subst_seq(cs, s);
            lemma_subst_seq(cs.drop_first(), s);
        }
    }
}

/// Matching a boolean-fragment term binds only boolean-fragment images.
pub proof fn lemma_match_bool(t: TermModel, p: TermModel, s: Map<Seq<char>, TermModel>)
    requires
        bool_term(t),
        bool_bindings(s),
    ensures
        match match_term(t, p, s) {
            Option::Some(s2) => bool_bindings(s2),
            Option::None => true,
        },
    decreases p,
{
    match p {
        TermModel::Var(x) => {
            if !s.dom().contains(x) {
                assert forall|y: Seq<char>| #[trigger] s.insert(x, t).dom().contains(
                    y,
                ) implies bool_term(s.insert(x, t)[y]) by {
                    if y != x {
                        assert(s.dom().contains(y));
                    }
                }
            }
        },
        TermModel::Node(k, ps) => {
            match t {
                TermModel::Node(k2, ts) => {
                    if k2 == k {
                        lemma_match_list_bool(ts, ps, s);
                    }
                },
                _ => {},
            }
        },
        _ => {},
    }
}

/// Sequence version of `lemma_match_bool`.
pub proof fn lemma_match_list_bool(
    ts: Seq<TermModel>,
    ps: Seq<TermModel>,
    s: Map<Seq<char>, TermModel>,
)
    requires
        bool_list(ts),
        bool_bindings(s),
    ensures
        match crate::matching::match_list(ts, ps, s) {
            Option::Some(s2) => bool_bindings(s2),
            Option::None => true,
        },
    decreases ps,
{
    if ts.len() == ps.len() && ps.len() > 0 {
        lemma_match_bool(ts[0], ps[0], s);
        match match_term(ts[0], ps[0], s) {
            Option::Some(s1) => {
                lemma_match_list_bool(ts.drop_first(), ps.drop_first(), s1);
            },
            Option::None => {},
        }
    }
}

/// Instantiating a boolean-fragment substitution under a total boolean
/// environment gives a total boolean environment.
pub proof fn lemma_env_after_bool(s: Map<Seq<char>, TermModel>, env: Map<Seq<char>, Val>)
    requires
        bool_bindings(s),
        bool_env(env),
    ensures
        bool_env(env_after(s, env)),
{
    assert forall|x: Seq<char>| (#[trigger] env_after(s, env).dom().contains(x)) && env_after(
        s,
        env,
    )[x] is Bool by {
        if s.dom().contains(x) {
            lemma_bool_eval(s[x], env);
        } else {
            assert(env.dom().contains(x));
        }
    }
}

/// A boolean-fragment rule that is an identity of the boolean algebra:
/// both sides are in the fragment and evaluate alike under every total
/// boolean environment. This is the premise the boolean identity table
/// satisfies.
pub open spec fn rule_sound_bool(r: RuleModel) -> bool {
    bool_term(r.lhs) && bool_term(r.rhs) && forall|env: Map<Seq<char>, Val>| bool_env(env)
        ==> #[trigger] eval(r.lhs, env) == eval(r.rhs, env)
}

/// Every rule of the system is a boolean identity.
pub open spec fn sys_sound_bool(rs: Seq<RuleModel>) -> bool {
    forall|i: int| 0 <= i < rs.len() ==> rule_sound_bool(#[trigger] rs[i])
}

/// The premise is satisfiable: the identity `a or true = true`, a rule
/// of the boolean table, is a boolean identity in this sense.
pub proof fn lemma_or_identity_is_sound_bool()
    ensures
        rule_sound_bool(
            RuleModel {
                lhs: TermModel::Node(
                    OpKind::Or,
                    seq![TermModel::Var("a"@), TermModel::BTrue],
                ),
                rhs: TermModel::BTrue,
            },
        ),
{
    let lhs = TermModel::Node(OpKind::Or, seq![TermModel::Var("a"@), TermModel::BTrue]);
    let cs = seq![TermModel::Var("a"@), TermModel::BTrue];
    assert(cs.drop_first() =~= seq![TermModel::BTrue]);
    assert(seq![TermModel::BTrue].drop_first() =~= Seq::<TermModel>::empty());
    assert(bool_list(cs)) by {
        reveal_with_fuel(bool_list, 4);
    }
    assert(bool_term(lhs));
    assert forall|env: Map<Seq<char>, Val>| bool_env(env) implies #[trigger] eval(lhs, env)
        == eval(TermModel::BTrue, env) by {
        reveal_with_fuel(eval_list, 4);
        assert(env.dom().contains("a"@) && env["a"@] is Bool);
        assert(eval(cs[0], env) == Option::Some(env["a"@]));
        assert(eval_list(cs, env) matches Option::Some(vs) && vs =~= seq![
            env["a"@],
            Val::Bool(true),
        ]);
    }
}

/// Soundness of normalization on the boolean fragment: under a system
/// of boolean identities, the normal form of a boolean-fragment term is
/// again in the fragment and evaluates exactly as the input does, under
/// every total boolean environment. A ground boolean term that
/// evaluates to a value keeps that value.
pub proof fn lemma_norm_preserves_eval_bool(
    t: TermModel,
    rs: Seq<RuleModel>,
    fuel: nat,
    env: Map<Seq<char>, Val>,
)
    requires
        sys_sound_bool(rs),
        bool_term(t),
        bool_env(env),
    ensures
        match norm_term(t, rs, fuel) {
            Option::Some(p) => bool_term(p.0) && eval(p.0, env) == eval(t, env),
            Option::None => true,
        },
    decreases fuel, t, 1int,
{
    match t {
        TermModel::Node(k, cs) => {
            lemma_norm_list_preserves_eval_bool(cs, rs, fuel, env);
            match norm_list(cs, rs, fuel) {
                Option::Some(p) => {
                    let f1 = clip(p.1, fuel);
                    let u = TermModel::Node(k, p.0);
                    assert(bool_term(u));
                    assert(eval(u, env) == eval(t, env));
                    match find_rule(u, rs, 0) {
                        Option::Some(q) => {
                            lemma_find_rule_bounds(u, rs, 0);
                            let r = rs[q.0];
                            let sg = q.1;
                            lemma_match_bool(u, r.lhs, Map::empty());
                            assert(bool_bindings(Map::<Seq<char>, TermModel>::empty()));
                            assert(bool_bindings(sg));
                            lemma_subst_bool(r.rhs, sg);
                            lemma_match_term(u, r.lhs, Map::empty());
                            assert(subst_model(r.lhs, sg) == u);
                            lemma_eval_subst(r.lhs, sg, env);
                            lemma_eval_subst(r.rhs, sg, env);
                            lemma_env_after_bool(sg, env);
                            assert(eval(r.lhs, env_after(sg, env)) == eval(
                                r.rhs,
                                env_after(sg, env),
                            ));
                            assert(eval(subst_model(r.rhs, sg), env) == eval(u, env));
                            if f1 > 0 {
                                lemma_norm_preserves_eval_bool(
                                    subst_model(r.rhs, sg),
                                    rs,
                                    (f1 - 1) as nat,
                                    env,
                                );
                            }
                        },
                        Option::None => {},
                    }
                },
                Option::None => {},
            }
        },
        _ => {},
    }
}

/// Sequence version of `lemma_norm_preserves_eval_bool`.
pub proof fn lemma_norm_list_preserves_eval_bool(
    cs: Seq<TermModel>,
    rs: Seq<RuleModel>,
    fuel: nat,
    env: Map<Seq<char>, Val>,
)
    requires
        sys_sound_bool(rs),
        bool_list(cs),
        bool_env(env),
    ensures
        match norm_list(cs, rs, fuel) {
            Option::Some(p) => p.0.len() == cs.len() && bool_list(p.0) && eval_list(p.0, env)
                == eval_list(cs, env),
            Option::None => true,
        },
    decreases fuel, cs, 0int,
{
    if cs.len() > 0 {
        lemma_norm_preserves_eval_bool(cs[0], rs, fuel, env);
        match norm_term(cs[0], rs, fuel) {
            Option::Some(p) => {
                let f1 = clip(p.1, fuel);
                lemma_norm_list_preserves_eval_bool(cs.drop_first(), rs, f1, env);
                match norm_list(cs.drop_first(), rs, f1) {
                    Option::Some(q) => {
                        let out = seq![p.0] + q.0;
                        assert(out[0] == p.0);
                        assert(out.drop_first() =~= q.0);
                    },
                    Option::None => {},
                }
            },
            Option::None => {},
        }
    }
}

/// Members of a sequence are boolean-fragment terms exactly when the
/// sequence is.
pub proof fn lemma_bool_list_index(cs: Seq<TermModel>)
    ensures
        bool_list(cs) <==> (forall|i: int| 0 <= i < cs.len() ==> bool_term(#[trigger] cs[i])),
    decreases cs,
{
    if cs.len() > 0 {
        lemma_bool_list_index(cs.drop_first());
        if bool_list(cs) {
            assert forall|i: int| 0 <= i < cs.len() implies bool_term(#[trigger] cs[i]) by {
                if i > 0 {
                    assert(cs.drop_first()[i - 1] == cs[i]);
                }
            }
        }
        if forall|i: int| 0 <= i < cs.len() ==> bool_term(#[trigger] cs[i]) {
            assert forall|i: int| 0 <= i < cs.drop_first().len() implies bool_term(
                #[trigger] cs.drop_first()[i],
            ) by {
                assert(cs.drop_first()[i] == cs[i + 1]);
            }
        }
    }
}

/// Renaming keeps a term inside the boolean fragment.
pub proof fn lemma_rename_bool(t: TermModel, sfx: Seq<char>)
    requires
        bool_term(t),
    ensures
        bool_term(rename_model(t, sfx)),
    decreases t, 1int,
{
    match t {
        TermModel::Node(_k, cs) => {
            lemma_rename_list_bool(cs, sfx);
            lemma_rename_list(cs, sfx);
        },
        _ => {},
    }
}

/// Sequence version of `lemma_rename_bool`.
pub proof fn lemma_rename_list_bool(cs: Seq<TermModel>, sfx: Seq<char>)
    requires
        bool_list(cs),
    ensures
        bool_list(rename_list(cs, sfx)),
    decreases cs, 0int,
{
    if cs.len() > 0 {
        lemma_rename_bool(cs[0], sfx);
        lemma_rename_list_bool(cs.drop_first(), sfx);
        assert(rename_list(cs, sfx)[0] == rename_model(cs[0], sfx)) by {
            lemma_rename_list(cs, sfx);
        }
        assert(rename_list(cs, sfx).drop_first() =~= rename_list(cs.drop_first(), sfx)) by {
            lemma_rename_list(cs, sfx);
            lemma_rename_list(cs.drop_first(), sfx);
        }
    }
}

/// An unoriented pair of boolean-fragment sides that evaluate alike
/// under every total boolean environment.
pub open spec fn eq_sound_bool(e: crate::rule::EquationModel) -> bool {
    bool_term(e.lhs) && bool_term(e.rhs) && forall|env: Map<Seq<char>, Val>| bool_env(env)
        ==> #[trigger] eval(e.lhs, env) == eval(e.rhs, env)
}

/// An unoriented pair of sides that evaluate alike under every
/// environment.
pub open spec fn eq_sound(e: crate::rule::EquationModel) -> bool {
    forall|env: Map<Seq<char>, Val>| #[trigger] eval(e.lhs, env) == eval(e.rhs, env)
}

/// Sequences that evaluate alike pointwise evaluate alike as lists.
pub proof fn lemma_eval_list_congruence(
    xs: Seq<TermModel>,
    ys: Seq<TermModel>,
    env: Map<Seq<char>, Val>,
)
    requires
        xs.len() == ys.len(),
        forall|i: int| 0 <= i < xs.len() ==> eval(#[trigger] xs[i], env) == eval(ys[i], env),
    ensures
        eval_list(xs, env) == eval_list(ys, env),
    decreases xs,
{
    if xs.len() > 0 {
        lemma_eval_list_congruence(xs.drop_first(), ys.drop_first(), env);
        assert(forall|i: int| 0 <= i < xs.drop_first().len() ==> #[trigger] xs.drop_first()[i]
            == xs[i + 1]);
        assert(forall|i: int| 0 <= i < ys.drop_first().len() ==> #[trigger] ys.drop_first()[i]
            == ys[i + 1]);
    }
}

/// Replacing one child of a node with an instantiation-equivalent one
/// leaves the instantiated node's value unchanged.
pub proof fn lemma_one_child_rewrite(
    k: OpKind,
    cs: Seq<TermModel>,
    cs2: Seq<TermModel>,
    j: int,
    s: Map<Seq<char>, TermModel>,
    env: Map<Seq<char>, Val>,
)
    requires
        cs2.len() == cs.len(),
        0 <= j < cs.len(),
        forall|i: int| 0 <= i < cs.len() && i != j ==> #[trigger] cs2[i] == cs[i],
        eval(subst_model(cs2[j], s), env) == eval(subst_model(cs[j], s), env),
    ensures
        eval(subst_model(TermModel::Node(k, cs2), s), env) == eval(
            subst_model(TermModel::Node(k, cs), s),
            env,
        ),
{
    lemma_subst_seq(cs, s);
    lemma_subst_seq(cs2, s);
    lemma_eval_list_congruence(subst_seq(cs2, s), subst_seq(cs, s), env);
}

/// A found rule index is in range, and the substitution is the match
/// from the empty substitution.
pub proof fn lemma_find_rule_bounds(u: TermModel, rs: Seq<RuleModel>, i: nat)
    ensures
        match find_rule(u, rs, i) {
            Option::Some(q) => i <= q.0 < rs.len() && match_term(
                u,
                rs[q.0].lhs,
                Map::<Seq<char>, TermModel>::empty(),
            ) == Option::Some(q.1),
            Option::None => true,
        },
    decreases rs.len() - i,
{
    if i < rs.len() {
        match match_term(u, rs[i as int].lhs, Map::<Seq<char>, TermModel>::empty()) {
            Option::Some(_) => {},
            Option::None => {
                lemma_find_rule_bounds(u, rs, i + 1);
            },
        }
    }
}

} // verus!
