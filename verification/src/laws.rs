//! Laws of the normalizer: the result of normalization is in normal
//! form, a normal form is its own normal form, and normalization is
//! therefore idempotent. Determinism holds by construction: the
//! executable normalizer's contract equates its result with a
//! mathematical function of the inputs.

use vstd::prelude::*;
use crate::term::TermModel;
use crate::rule::RuleModel;
use crate::normal::clip;
use crate::normal::find_rule;
use crate::normal::norm_term;
use crate::normal::norm_list;
use crate::normal::lemma_norm_list_fuel;

verus! {

/// A term is in normal form: every child is, and no rule of the system
/// matches at the root. Leaves are always normal.
pub open spec fn is_nf(t: TermModel, rs: Seq<RuleModel>) -> bool
    decreases t, 1int,
{
    match t {
        TermModel::Node(_k, cs) => list_nf(cs, rs) && find_rule(t, rs, 0) is None,
        _ => true,
    }
}

/// Every term of the sequence is in normal form.
pub open spec fn list_nf(cs: Seq<TermModel>, rs: Seq<RuleModel>) -> bool
    decreases cs, 0int,
{
    if cs.len() == 0 {
        true
    } else {
        is_nf(cs[0], rs) && list_nf(cs.drop_first(), rs)
    }
}

/// What normalization returns is in normal form.
pub proof fn lemma_norm_term_nf(t: TermModel, rs: Seq<RuleModel>, fuel: nat)
    ensures
        match norm_term(t, rs, fuel) {
            Option::Some(p) => is_nf(p.0, rs),
            Option::None => true,
        },
    decreases fuel, t, 1int,
{
    match t {
        TermModel::Node(k, cs) => {
            lemma_norm_list_nf(cs, rs, fuel);
            match norm_list(cs, rs, fuel) {
                Option::Some(p) => {
                    let f1 = clip(p.1, fuel);
                    let u = TermModel::Node(k, p.0);
                    match find_rule(u, rs, 0) {
                        Option::Some(q) => {
                            if f1 > 0 {
                                lemma_norm_term_nf(
                                    crate::subst::subst_model(rs[q.0].rhs, q.1),
                                    rs,
                                    (f1 - 1) as nat,
                                );
                            }
                        },
                        Option::None => {},
                    }
                },
                Option::None => {},
            }
        },
        _ => {},
    }
}

/// Sequence version of `lemma_norm_term_nf`.
pub proof fn lemma_norm_list_nf(cs: Seq<TermModel>, rs: Seq<RuleModel>, fuel: nat)
    ensures
        match norm_list(cs, rs, fuel) {
            Option::Some(p) => list_nf(p.0, rs),
            Option::None => true,
        },
    decreases fuel, cs, 0int,
{
    if cs.len() > 0 {
        lemma_norm_term_nf(cs[0], rs, fuel);
        lemma_norm_list_fuel(cs, rs, fuel);
        match norm_term(cs[0], rs, fuel) {
            Option::Some(p) => {
                let f1 = clip(p.1, fuel);
                lemma_norm_list_nf(cs.drop_first(), rs, f1);
                match norm_list(cs.drop_first(), rs, f1) {
                    Option::Some(q) => {
                        let out = seq![p.0] + q.0;
                        assert(out[0] == p.0);
                        assert(out.drop_first() =~= q.0);
                    },
                    Option::None => {},
                }
            },
            Option::None => {},
        }
    }
}

/// A term in normal form normalizes to itself, spending no fuel.
pub proof fn lemma_nf_fixed(t: TermModel, rs: Seq<RuleModel>, fuel: nat)
    requires
        is_nf(t, rs),
    ensures
        norm_term(t, rs, fuel) == Option::Some((t, fuel)),
    decreases t, 1int,
{
    match t {
        TermModel::Node(k, cs) => {
            lemma_list_nf_fixed(cs, rs, fuel);
        },
        _ => {},
    }
}

/// Sequence version of `lemma_nf_fixed`.
pub proof fn lemma_list_nf_fixed(cs: Seq<TermModel>, rs: Seq<RuleModel>, fuel: nat)
    requires
        list_nf(cs, rs),
    ensures
        norm_list(cs, rs, fuel) == Option::Some((cs, fuel)),
    decreases cs, 0int,
{
    if cs.len() > 0 {
        lemma_nf_fixed(cs[0], rs, fuel);
        lemma_list_nf_fixed(cs.drop_first(), rs, fuel);
        assert(seq![cs[0]] + cs.drop_first() =~= cs);
    }
}

/// Idempotence of normalization: normalizing a term that came out of the
/// normalizer returns it unchanged, under any budget, for every term and
/// every rule system.
pub proof fn lemma_normalize_idempotent(
    t: TermModel,
    rs: Seq<RuleModel>,
    fuel: nat,
    fuel2: nat,
)
    ensures
        match norm_term(t, rs, fuel) {
            Option::Some(p) => norm_term(p.0, rs, fuel2) == Option::Some((p.0, fuel2)),
            Option::None => true,
        },
{
    lemma_norm_term_nf(t, rs, fuel);
    match norm_term(t, rs, fuel) {
        Option::Some(p) => {
            lemma_nf_fixed(p.0, rs, fuel2);
        },
        Option::None => {},
    }
}

} // verus!
