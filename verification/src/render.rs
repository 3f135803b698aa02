//! A textual rendering of terms for diagnostics: infix with full
//! parentheses, boolean constants as `1` and `0`, `+` for disjunctions
//! and sums, `*` for conjunctions and products, and a prefix `not`.
//! One-directional: there is no parser.

use vstd::prelude::*;
use crate::term::OpKind;
use crate::term::Operator;
use crate::term::TermModel;
use crate::term::seq_models;
use crate::term::lemma_seq_models;

verus! {

/// The digits of `d`, for a single decimal digit.
pub open spec fn digit_chars(d: nat) -> Seq<char> {
    if d == 0 {
        "0"@
    } else if d == 1 {
        "1"@
    } else if d == 2 {
        "2"@
    } else if d == 3 {
        "3"@
    } else if d == 4 {
        "4"@
    } else if d == 5 {
        "5"@
    } else if d == 6 {
        "6"@
    } else if d == 7 {
        "7"@
    } else if d == 8 {
        "8"@
    } else {
        "9"@
    }
}

/// The decimal digits of `n`, most significant first.
pub open spec fn dec_chars(n: nat) -> Seq<char>
    decreases n,
{
    if n < 10 {
        digit_chars(n)
    } else {
        dec_chars(n / 10) + digit_chars(n % 10)
    }
}

/// The rendering of a numeric literal, with a leading minus sign when
/// negative.
pub open spec fn num_chars(n: int) -> Seq<char> {
    if n < 0 {
        "-"@ + dec_chars((-n) as nat)
    } else {
        dec_chars(n as nat)
    }
}

/// The infix separator of an operator kind.
pub open spec fn sep_chars(k: OpKind) -> Seq<char> {
    match k {
        OpKind::And | OpKind::Product => " * "@,
        _ => " + "@,
    }
}

/// The rendering of a term.
pub open spec fn render_chars(t: TermModel) -> Seq<char>
    decreases t, 1int,
{
    match t {
        TermModel::BTrue => "1"@,
        TermModel::BFalse => "0"@,
        TermModel::Num(n) => num_chars(n),
        TermModel::Var(x) => x,
        TermModel::Node(k, cs) => match k {
            OpKind::Not => "(not "@ + render_list(cs, sep_chars(k)) + ")"@,
            _ => "("@ + render_list(cs, sep_chars(k)) + ")"@,
        },
    }
}

/// The renderings of a sequence of terms, joined by `sep`.
pub open spec fn render_list(cs: Seq<TermModel>, sep: Seq<char>) -> Seq<char>
    decreases cs, 0int,
{
    if cs.len() == 0 {
        Seq::empty()
    } else if cs.len() == 1 {
        render_chars(cs[0])
    } else {
        render_chars(cs[0]) + sep + render_list(cs.drop_first(), sep)
    }
}

/// A single decimal digit as text.
fn digit_str(d: u64) -> (r: &'static str)
    requires
        d < 10,
    ensures
        r@ == digit_chars(d as nat),
{
    match d {
        0 => "0",
        1 => "1",
        2 => "2",
        3 => "3",
        4 => "4",
        5 => "5",
        6 => "6",
        7 => "7",
        8 => "8",
        _ => "9",
    }
}

/// Append the decimal digits of `n`.
fn push_dec(out: &mut String, n: u64)
    ensures
        final(out)@ == old(out)@ + dec_chars(n as nat),
    decreases n,
{
    if n < 10 {
        out.append(digit_str(n));
    } else {
        push_dec(out, n / 10);
        out.append(digit_str(n % 10));
        proof {
            assert(old(out)@ + dec_chars((n / 10) as nat) + digit_chars((n % 10) as nat)
                =~= old(out)@ + dec_chars(n as nat));
        }
    }
}

impl Operator {
    /// Render this term as infix text for diagnostics.
    pub fn render(&self) -> (r: String)
        ensures
            r@ == render_chars(self@),
    {
        let mut out = String::new();
        self.render_into(&mut out);
        proof {
            assert(Seq::<char>::empty() + render_chars(self@) =~= render_chars(self@));
        }
        out
    }

    /// Append this term's rendering.
    fn render_into(&self, out: &mut String)
        ensures
            final(out)@ == old(out)@ + render_chars(self@),
        decreases self, 1int,
    {
        match self {
            Operator::True => {
                out.append("1");
            },
            Operator::False => {
                out.append("0");
            },
            Operator::Number(n) => {
                if *n < 0 {
                    out.append("-");
                    let mag: u64 = if *n == i64::MIN {
                        9223372036854775808u64
                    } else {
                        (-*n) as u64
                    };
                    push_dec(out, mag);
                    proof {
                        assert(old(out)@ + "-"@ + dec_chars(mag as nat) =~= old(out)@
                            + num_chars(*n as int));
                    }
                } else {
                    push_dec(out, *n as u64);
                }
            },
            Operator::Variable(x) => {
                out.append(x.as_str());
            },
            Operator::Or(a, b) => {
                self.render_two(a, b, out);
            },
            Operator::And(a, b) => {
                self.render_two(a, b, out);
            },
            Operator::Not(a) => {
                let ghost cs = self@->Node_1;
                out.append("(not ");
                assert(decreases_to!(self => a));
                a.render_into(out);
                out.append(")");
                proof {
                    assert(old(out)@ + "(not "@ + render_chars(a@) + ")"@ =~= old(out)@
                        + render_chars(self@));
                }
            },
            Operator::Sum(cs_vec) => {
                assert(decreases_to!(self => cs_vec));
                render_vec(cs_vec, true, out);
                proof {
                    assert(old(out)@ + ("("@ + render_list(
                        seq_models(cs_vec@),
                        sep_chars(OpKind::Sum),
                    ) + ")"@) =~= old(out)@ + render_chars(self@));
                }
            },
            Operator::Product(cs_vec) => {
                assert(decreases_to!(self => cs_vec));
                render_vec(cs_vec, false, out);
                proof {
                    assert(old(out)@ + ("("@ + render_list(
                        seq_models(cs_vec@),
                        sep_chars(OpKind::Product),
                    ) + ")"@) =~= old(out)@ + render_chars(self@));
                }
            },
        }
    }

    /// Append the rendering of a binary node.
    fn render_two(&self, a: &Operator, b: &Operator, out: &mut String)
        requires
            self@ is Node,
            self@->Node_0 == OpKind::Or || self@->Node_0 == OpKind::And,
            self@->Node_1 == seq![a@, b@],
            decreases_to!(self => a),
            decreases_to!(self => b),
        ensures
            final(out)@ == old(out)@ + render_chars(self@),
        decreases self, 0int,
    {
        let ghost cs = self@->Node_1;
        let ghost sep = sep_chars(self@->Node_0);
        proof {
            reveal_with_fuel(render_list, 3);
            assert(cs[0] == a@ && cs.len() == 2);
            assert(cs.drop_first() =~= seq![b@]);
            assert(cs.drop_first().len() == 1 && cs.drop_first()[0] == b@);
        }
        out.append("(");
        a.render_into(out);
        match self {
            Operator::And(_, _) => out.append(" * "),
            _ => out.append(" + "),
        }
        b.render_into(out);
        out.append(")");
        proof {
            assert(render_list(cs, sep) == render_chars(a@) + sep + render_chars(b@));
            assert(old(out)@ + "("@ + render_chars(a@) + sep + render_chars(b@) + ")"@
                =~= old(out)@ + render_chars(self@));
        }
    }
}

/// Append the rendering of an n-ary node.
fn render_vec(cs: &Vec<Operator>, is_sum: bool, out: &mut String)
    ensures
        final(out)@ == old(out)@ + ("("@ + render_list(
            seq_models(cs@),
            sep_chars(
                if is_sum {
                    OpKind::Sum
                } else {
                    OpKind::Product
                },
            ),
        ) + ")"@),
    decreases cs, 0int,
{
    let ghost k = if is_sum {
        OpKind::Sum
    } else {
        OpKind::Product
    };
    let ghost tsm = seq_models(cs@);
    proof {
        lemma_seq_models(cs@);
    }
    out.append("(");
    let ghost base = out@;
    let n = cs.len();
    proof {
        assert(tsm.skip(0) =~= tsm);
    }
    for i in 0..n
        invariant
            n == cs@.len(),
            k == (if is_sum {
                OpKind::Sum
            } else {
                OpKind::Product
            }),
            tsm == seq_models(cs@),
            tsm.len() == n,
            forall|j: int| 0 <= j < n ==> tsm[j] == cs@[j]@,
            base == old(out)@ + "("@,
            out@ + render_list(tsm.skip(i as int), sep_chars(k)) == base + render_list(
                tsm,
                sep_chars(k),
            ),
        decreases n - i,
    {
        proof {
            assert(tsm.skip(i as int).drop_first() =~= tsm.skip(i + 1));
            assert(tsm.skip(i as int)[0] == tsm[i as int]);
        }
        assert(decreases_to!(cs => cs@[i as int]));
        let ghost out_pre = out@;
        cs[i].render_into(out);
        if i + 1 < n {
            if is_sum {
                out.append(" + ");
            } else {
                out.append(" * ");
            }
            proof {
                assert(tsm.skip(i as int).len() >= 2);
                assert(render_list(tsm.skip(i as int), sep_chars(k)) == render_chars(
                    tsm[i as int],
                ) + sep_chars(k) + render_list(tsm.skip(i + 1), sep_chars(k)));
                assert(out@ + render_list(tsm.skip(i + 1), sep_chars(k)) =~= out_pre
                    + render_list(tsm.skip(i as int), sep_chars(k)));
            }
        } else {
            proof {
                assert(tsm.skip(i as int).len() == 1);
                assert(render_list(tsm.skip(i as int), sep_chars(k)) == render_chars(
                    tsm[i as int],
                ));
                assert(tsm.skip(i + 1).len() == 0);
                assert(out@ + render_list(tsm.skip(i + 1), sep_chars(k)) =~= out_pre
                    + render_list(tsm.skip(i as int), sep_chars(k)));
            }
        }
    }
    proof {
        assert(tsm.skip(n as int).len() == 0);
        assert(out@ =~= out@ + render_list(tsm.skip(n as int), sep_chars(k)));
    }
    out.append(")");
    proof {
        assert(old(out)@ + "("@ + render_list(tsm, sep_chars(k)) + ")"@ =~= old(out)@ + (
        "("@ + render_list(tsm, sep_chars(k)) + ")"@));
    }
}

} // verus!
