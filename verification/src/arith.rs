//! The arithmetic flatten/fold simplifier: sums and products are
//! flattened one level (their children are simplified first, so this
//! flattens completely), numeric literals are folded into a single
//! constant, and an empty or fully constant node collapses to its value.
//! Folding is exact: an intermediate value outside the machine range is
//! reported, never wrapped.

use vstd::prelude::*;
use crate::term::OpKind;
use crate::term::Operator;
use crate::term::TermModel;
use crate::term::seq_models;
use crate::term::lemma_seq_models;

verus! {

/// The error reported when constant folding would leave the machine
/// integer range.
#[derive(Debug, PartialEq, Eq, Structural)]
pub struct NumericOverflow;

/// The neutral element of an arithmetic kind; other kinds have none and
/// get a harmless value.
pub open spec fn identity_of(k: OpKind) -> int {
    match k {
        OpKind::Product => 1,
        _ => 0,
    }
}

/// Fold `n` into the running constant of a `k` node, exactly or not at
/// all.
pub open spec fn checked_op(k: OpKind, acc: int, n: int) -> Option<int> {
    let v = if k is Product {
        acc * n
    } else {
        acc + n
    };
    if i64::MIN <= v <= i64::MAX {
        Option::Some(v)
    } else {
        Option::None
    }
}

/// Walk the children of a nested same-kind node: literals fold into the
/// constant, everything else is kept in order.
pub open spec fn fold_flat(
    k: OpKind,
    gs: Seq<TermModel>,
    keep: Seq<TermModel>,
    acc: int,
) -> Option<(Seq<TermModel>, int)>
    decreases gs,
{
    if gs.len() == 0 {
        Option::Some((keep, acc))
    } else {
        match gs[0] {
            TermModel::Num(n) => match checked_op(k, acc, n) {
                Option::Some(a) => fold_flat(k, gs.drop_first(), keep, a),
                Option::None => Option::None,
            },
            _ => fold_flat(k, gs.drop_first(), keep.push(gs[0]), acc),
        }
    }
}

/// Walk the simplified children of a `k` node: literals fold, nested
/// same-kind nodes are spliced (their own children walked), everything
/// else is kept in order.
pub open spec fn fold_children(
    k: OpKind,
    cs: Seq<TermModel>,
    keep: Seq<TermModel>,
    acc: int,
) -> Option<(Seq<TermModel>, int)>
    decreases cs,
{
    if cs.len() == 0 {
        Option::Some((keep, acc))
    } else {
        match cs[0] {
            TermModel::Num(n) => match checked_op(k, acc, n) {
                Option::Some(a) => fold_children(k, cs.drop_first(), keep, a),
                Option::None => Option::None,
            },
            TermModel::Node(k2, gs) => if k2 == k {
                match fold_flat(k, gs, keep, acc) {
                    Option::Some(p) => fold_children(k, cs.drop_first(), p.0, p.1),
                    Option::None => Option::None,
                }
            } else {
                fold_children(k, cs.drop_first(), keep.push(cs[0]), acc)
            },
            _ => fold_children(k, cs.drop_first(), keep.push(cs[0]), acc),
        }
    }
}

/// Rebuild a folded arithmetic node: all-constant collapses to the
/// constant, a neutral constant disappears, and the node keeps its own
/// kind.
pub open spec fn rebuild(k: OpKind, keep: Seq<TermModel>, acc: int) -> TermModel {
    if keep.len() == 0 {
        TermModel::Num(acc)
    } else if acc == identity_of(k) && keep.len() == 1 {
        keep[0]
    } else if acc == identity_of(k) {
        TermModel::Node(k, keep)
    } else {
        TermModel::Node(k, keep.push(TermModel::Num(acc)))
    }
}

/// Arithmetic simplification of a term: children first, then flattening
/// and constant folding at each `Sum` or `Product` node. Boolean
/// connectives are rebuilt untouched. Nothing when folding would leave
/// the machine range.
pub open spec fn arith_norm(t: TermModel) -> Option<TermModel>
    decreases t, 1int,
{
    match t {
        TermModel::Node(k, cs) => match arith_norm_list(cs) {
            Option::Some(cs2) => match k {
                OpKind::Sum | OpKind::Product => match fold_children(
                    k,
                    cs2,
                    Seq::empty(),
                    identity_of(k),
                ) {
                    Option::Some(p) => Option::Some(rebuild(k, p.0, p.1)),
                    Option::None => Option::None,
                },
                _ => Option::Some(TermModel::Node(k, cs2)),
            },
            Option::None => Option::None,
        },
        _ => Option::Some(t),
    }
}

/// Arithmetic simplification of each term of a sequence.
pub open spec fn arith_norm_list(cs: Seq<TermModel>) -> Option<Seq<TermModel>>
    decreases cs, 0int,
{
    if cs.len() == 0 {
        Option::Some(cs)
    } else {
        match arith_norm(cs[0]) {
            Option::Some(c) => match arith_norm_list(cs.drop_first()) {
                Option::Some(rest) => Option::Some(seq![c] + rest),
                Option::None => Option::None,
            },
            Option::None => Option::None,
        }
    }
}

impl Operator {
    /// Flatten nested sums and products and fold their numeric literals.
    pub fn simplify_arithmetic(&self) -> (res: Result<Operator, NumericOverflow>)
        ensures
            match arith_norm(self@) {
                Option::Some(u) => res is Ok && res->Ok_0@ == u,
                Option::None => res is Err,
            },
        decreases self, 1int,
    {
        match self {
            Operator::True => Result::Ok(Operator::True),
            Operator::False => Result::Ok(Operator::False),
            Operator::Number(n) => Result::Ok(Operator::Number(*n)),
            Operator::Variable(x) => Result::Ok(Operator::Variable(x.clone())),
            Operator::Or(a, b) => {
                let ghost cs = self@->Node_1;
                proof {
                    reveal_with_fuel(arith_norm_list, 4);
                    assert(cs.drop_first() =~= seq![b@]);
                    assert(seq![b@].drop_first() =~= Seq::<TermModel>::empty());
                }
                let na = match a.simplify_arithmetic() {
                    Result::Ok(t) => t,
                    Result::Err(e) => {
                        return Result::Err(e);
                    },
                };
                let nb = match b.simplify_arithmetic() {
                    Result::Ok(t) => t,
                    Result::Err(e) => {
                        return Result::Err(e);
                    },
                };
                proof {
                    assert(arith_norm_list(cs) matches Option::Some(q) && q =~= seq![
                        na@,
                        nb@,
                    ]);
                }
                Result::Ok(Operator::Or(Box::new(na), Box::new(nb)))
            },
            Operator::And(a, b) => {
                let ghost cs = self@->Node_1;
                proof {
                    reveal_with_fuel(arith_norm_list, 4);
                    assert(cs.drop_first() =~= seq![b@]);
                    assert(seq![b@].drop_first() =~= Seq::<TermModel>::empty());
                }
                let na = match a.simplify_arithmetic() {
                    Result::Ok(t) => t,
                    Result::Err(e) => {
                        return Result::Err(e);
                    },
                };
                let nb = match b.simplify_arithmetic() {
                    Result::Ok(t) => t,
                    Result::Err(e) => {
                        return Result::Err(e);
                    },
                };
                proof {
                    assert(arith_norm_list(cs) matches Option::Some(q) && q =~= seq![
                        na@,
                        nb@,
                    ]);
                }
                Result::Ok(Operator::And(Box::new(na), Box::new(nb)))
            },
            Operator::Not(a) => {
                let ghost cs = self@->Node_1;
                proof {
                    reveal_with_fuel(arith_norm_list, 3);
                    assert(cs.drop_first() =~= Seq::<TermModel>::empty());
                }
                let na = match a.simplify_arithmetic() {
                    Result::Ok(t) => t,
                    Result::Err(e) => {
                        return Result::Err(e);
                    },
                };
                proof {
                    assert(arith_norm_list(cs) matches Option::Some(q) && q =~= seq![na@]);
                }
                Result::Ok(Operator::Not(Box::new(na)))
            },
            Operator::Sum(cs_vec) => {
                assert(decreases_to!(self => cs_vec));
                match arith_children(cs_vec) {
                    Result::Ok(simplified) => fold_node(true, simplified),
                    Result::Err(e) => Result::Err(e),
                }
            },
            Operator::Product(cs_vec) => {
                assert(decreases_to!(self => cs_vec));
                match arith_children(cs_vec) {
                    Result::Ok(simplified) => fold_node(false, simplified),
                    Result::Err(e) => Result::Err(e),
                }
            },
        }
    }
}

/// Arithmetic simplification of every child, in order.
fn arith_children(cs: &Vec<Operator>) -> (res: Result<Vec<Operator>, NumericOverflow>)
    ensures
        match arith_norm_list(seq_models(cs@)) {
            Option::Some(q) => res is Ok && seq_models(res->Ok_0@) == q,
            Option::None => res is Err,
        },
    decreases cs, 0int,
{
    let ghost tsm = seq_models(cs@);
    proof {
        lemma_seq_models(cs@);
        assert(tsm.skip(0) =~= tsm);
    }
    let n = cs.len();
    let mut out: Vec<Operator> = Vec::new();
    for i in 0..n
        invariant
            n == cs@.len(),
            tsm == seq_models(cs@),
            tsm.len() == n,
            forall|j: int| 0 <= j < n ==> tsm[j] == cs@[j]@,
            out@.len() == i,
            arith_norm_list(tsm) == match arith_norm_list(tsm.skip(i as int)) {
                Option::Some(q) => Option::Some(seq_models(out@) + q),
                Option::None => Option::<Seq<TermModel>>::None,
            },
        decreases n - i,
    {
        proof {
            assert(tsm.skip(i as int).drop_first() =~= tsm.skip(i + 1));
            assert(tsm.skip(i as int)[0] == tsm[i as int]);
        }
        assert(decreases_to!(cs => cs@[i as int]));
        let ghost out_pre = out@;
        match cs[i].simplify_arithmetic() {
            Result::Ok(c) => {
                out.push(c);
                proof {
                    lemma_seq_models(out@);
                    lemma_seq_models(out_pre);
                    assert(seq_models(out@) =~= seq_models(out_pre) + seq![out@[i as int]@]);
                    match arith_norm_list(tsm.skip(i + 1)) {
                        Option::Some(q) => {
                            assert(seq_models(out_pre) + (seq![out@[i as int]@] + q)
                                =~= seq_models(out@) + q);
                        },
                        Option::None => {},
                    }
                }
            },
            Result::Err(e) => {
                return Result::Err(e);
            },
        }
    }
    proof {
        assert(arith_norm_list(tsm.skip(n as int)) matches Option::Some(q) && q
            =~= Seq::<TermModel>::empty());
        assert(seq_models(out@) + Seq::<TermModel>::empty() =~= seq_models(out@));
    }
    Result::Ok(out)
}

/// One step of exact folding.
fn checked_op_exec(is_sum: bool, acc: i64, n: i64) -> (res: Option<i64>)
    ensures
        match checked_op(if is_sum { OpKind::Sum } else { OpKind::Product }, acc as int, n as int) {
            Option::Some(v) => res is Some && res->0 as int == v,
            Option::None => res is None,
        },
{
    if is_sum {
        acc.checked_add(n)
    } else {
        acc.checked_mul(n)
    }
}

/// Splice a nested same-kind node: fold its literal children into the
/// running constant, keep the rest in order.
fn splice_flat(is_sum: bool, gs: &Vec<Operator>, keep: &mut Vec<Operator>, acc: i64) -> (res:
    Option<i64>)
    ensures
        ({
            let k = if is_sum {
                OpKind::Sum
            } else {
                OpKind::Product
            };
            match fold_flat(k, seq_models(gs@), seq_models(old(keep)@), acc as int) {
                Option::Some(p) => res is Some && seq_models(final(keep)@) == p.0 && res->0
                    as int == p.1,
                Option::None => res is None,
            }
        }),
{
    let ghost k = if is_sum {
        OpKind::Sum
    } else {
        OpKind::Product
    };
    let ghost gsm = seq_models(gs@);
    let ghost keep0 = seq_models(old(keep)@);
    proof {
        lemma_seq_models(gs@);
        assert(gsm.skip(0) =~= gsm);
    }
    let gn = gs.len();
    let mut a = acc;
    for g in 0..gn
        invariant
            gn == gs@.len(),
            gsm == seq_models(gs@),
            gsm.len() == gn,
            forall|j: int| 0 <= j < gn ==> gsm[j] == gs@[j]@,
            k == (if is_sum {
                OpKind::Sum
            } else {
                OpKind::Product
            }),
            keep0 == seq_models(old(keep)@),
            fold_flat(k, gsm, keep0, acc as int) == fold_flat(
                k,
                gsm.skip(g as int),
                seq_models(keep@),
                a as int,
            ),
        decreases gn - g,
    {
        proof {
            assert(gsm.skip(g as int).drop_first() =~= gsm.skip(g + 1));
            assert(gsm.skip(g as int)[0] == gsm[g as int]);
        }
        let ghost keep_pre = keep@;
        match &gs[g] {
            Operator::Number(v) => {
                match checked_op_exec(is_sum, a, *v) {
                    Option::Some(a2) => {
                        a = a2;
                    },
                    Option::None => {
                        return Option::None;
                    },
                }
            },
            _ => {
                keep.push(gs[g].deep_copy());
                proof {
                    lemma_seq_models(keep@);
                    lemma_seq_models(keep_pre);
                    assert(seq_models(keep@) =~= seq_models(keep_pre).push(gsm[g as int]));
                }
            },
        }
    }
    proof {
        assert(gsm.skip(gn as int).len() == 0);
    }
    Option::Some(a)
}

/// Fold the already-simplified children of an arithmetic node and
/// rebuild it.
fn fold_node(is_sum: bool, children: Vec<Operator>) -> (res: Result<Operator, NumericOverflow>)
    ensures
        ({
            let k = if is_sum {
                OpKind::Sum
            } else {
                OpKind::Product
            };
            match fold_children(k, seq_models(children@), Seq::empty(), identity_of(k)) {
                Option::Some(p) => res is Ok && res->Ok_0@ == rebuild(k, p.0, p.1),
                Option::None => res is Err,
            }
        }),
{
    let ghost k = if is_sum {
        OpKind::Sum
    } else {
        OpKind::Product
    };
    let ghost tsm = seq_models(children@);
    proof {
        lemma_seq_models(children@);
        assert(tsm.skip(0) =~= tsm);
    }
    let mut keep: Vec<Operator> = Vec::new();
    let mut acc: i64 = if is_sum {
        0
    } else {
        1
    };
    let n = children.len();
    for i in 0..n
        invariant
            n == children@.len(),
            tsm == seq_models(children@),
            tsm.len() == n,
            forall|j: int| 0 <= j < n ==> tsm[j] == children@[j]@,
            k == (if is_sum {
                OpKind::Sum
            } else {
                OpKind::Product
            }),
            fold_children(k, tsm, Seq::empty(), identity_of(k)) == fold_children(
                k,
                tsm.skip(i as int),
                seq_models(keep@),
                acc as int,
            ),
        decreases n - i,
    {
        proof {
            assert(tsm.skip(i as int).drop_first() =~= tsm.skip(i + 1));
            assert(tsm.skip(i as int)[0] == tsm[i as int]);
        }
        let ghost keep_pre = keep@;
        let kind_case: u8 = match &children[i] {
            Operator::Number(_) => 0,
            Operator::Sum(_) => if is_sum {
                1
            } else {
                2
            },
            Operator::Product(_) => if is_sum {
                2
            } else {
                1
            },
            _ => 2,
        };
        if kind_case == 0 {
            let m: i64 = match &children[i] {
                Operator::Number(v) => *v,
                _ => 0,
            };
            match checked_op_exec(is_sum, acc, m) {
                Option::Some(a) => {
                    acc = a;
                },
                Option::None => {
                    return Result::Err(NumericOverflow);
                },
            }
        } else if kind_case == 1 {
            let r = match &children[i] {
                Operator::Sum(gs) => splice_flat(is_sum, gs, &mut keep, acc),
                Operator::Product(gs) => splice_flat(is_sum, gs, &mut keep, acc),
                _ => {
                    proof {
                        assert(false);
                    }
                    Option::None
                },
            };
            match r {
                Option::Some(a) => {
                    acc = a;
                },
                Option::None => {
                    return Result::Err(NumericOverflow);
                },
            }
        } else {
            keep.push(children[i].deep_copy());
            proof {
                lemma_seq_models(keep@);
                lemma_seq_models(keep_pre);
                assert(seq_models(keep@) =~= seq_models(keep_pre).push(tsm[i as int]));
            }
        }
    }
    let ghost keep_m = seq_models(keep@);
    proof {
        assert(tsm.skip(n as int).len() == 0);
        lemma_seq_models(keep@);
        assert(fold_children(k, tsm, Seq::empty(), identity_of(k)) matches Option::Some(p)
            && p.0 == keep_m && p.1 == acc as int);
    }
    let identity: i64 = if is_sum {
        0
    } else {
        1
    };
    if keep.len() == 0 {
        proof {
            assert(keep_m.len() == 0);
        }
        Result::Ok(Operator::Number(acc))
    } else if acc == identity && keep.len() == 1 {
        let only = keep.remove(0);
        proof {
            assert(only@ == keep_m[0]);
        }
        Result::Ok(only)
    } else if acc == identity {
        if is_sum {
            Result::Ok(Operator::Sum(keep))
        } else {
            Result::Ok(Operator::Product(keep))
        }
    } else {
        let ghost keep_before = keep@;
        keep.push(Operator::Number(acc));
        proof {
            lemma_seq_models(keep@);
            lemma_seq_models(keep_before);
            assert(seq_models(keep@) =~= keep_m.push(TermModel::Num(acc as int)));
        }
        if is_sum {
            Result::Ok(Operator::Sum(keep))
        } else {
            Result::Ok(Operator::Product(keep))
        }
    }
}

} // verus!
