//! The term model: an immutable algebraic expression tree over a fixed,
//! closed operator alphabet, together with its mathematical model
//! ([`TermModel`]), structural equality, deep copy, and a deep clone.

use vstd::prelude::*;

verus! {

/// The closed alphabet of operator kinds. `Or`, `And` are binary, `Not` is
/// unary, `Sum` and `Product` take any number of children.
#[derive(Clone, Copy, Debug, PartialEq, Eq, Structural)]
pub enum OpKind {
    Or,
    And,
    Not,
    Sum,
    Product,
}

/// Mathematical model of a term: a finite tree whose leaves are the two
/// boolean constants, numeric literals, and named variables, and whose
/// inner nodes carry an [`OpKind`] and a sequence of children.
pub enum TermModel {
    BTrue,
    BFalse,
    Num(int),
    Var(Seq<char>),
    Node(OpKind, Seq<TermModel>),
}

/// An immutable expression tree. Variables are meaningful only inside rule
/// patterns; a ground term contains none.
#[derive(Debug)]
pub enum Operator {
    True,
    False,
    Number(i64),
    Variable(String),
    Or(Box<Operator>, Box<Operator>),
    And(Box<Operator>, Box<Operator>),
    Not(Box<Operator>),
    Sum(Vec<Operator>),
    Product(Vec<Operator>),
}

impl Operator {
    /// The mathematical tree this value represents.
    pub open spec fn model(self) -> TermModel
        decreases self,
    {
        match self {
            Operator::True => TermModel::BTrue,
            Operator::False => TermModel::BFalse,
            Operator::Number(n) => TermModel::Num(n as int),
            Operator::Variable(s) => TermModel::Var(s@),
            Operator::Or(a, b) => TermModel::Node(OpKind::Or, seq![a.model(), b.model()]),
            Operator::And(a, b) => TermModel::Node(OpKind::And, seq![a.model(), b.model()]),
            Operator::Not(a) => TermModel::Node(OpKind::Not, seq![a.model()]),
            Operator::Sum(cs) => TermModel::Node(OpKind::Sum, seq_models(cs@)),
            Operator::Product(cs) => TermModel::Node(OpKind::Product, seq_models(cs@)),
        }
    }
}

/// The models of a sequence of terms, in order.
pub open spec fn seq_models(cs: Seq<Operator>) -> Seq<TermModel>
    decreases cs,
{
    if cs.len() == 0 {
        Seq::empty()
    } else {
        seq![cs[0].model()] + seq_models(cs.drop_first())
    }
}

/// `seq_models` is the pointwise model map.
pub broadcast proof fn lemma_seq_models(cs: Seq<Operator>)
    ensures
        (#[trigger] seq_models(cs)).len() == cs.len(),
        forall|i: int| 0 <= i < cs.len() ==> seq_models(cs)[i] == cs[i].model(),
    decreases cs.len(),
{
    if cs.len() > 0 {
        lemma_seq_models(cs.drop_first());
        assert forall|i: int| 0 <= i < cs.len() implies seq_models(cs)[i] == cs[i].model() by {
            if i > 0 {
                assert(seq_models(cs)[i] == seq_models(cs.drop_first())[i - 1]);
                assert(cs.drop_first()[i - 1] == cs[i]);
            }
        }
    }
}

impl View for Operator {
    type V = TermModel;

    open spec fn view(&self) -> TermModel {
        self.model()
    }
}

impl Operator {
    /// Structural equality: deep, position-sensitive and kind-sensitive.
    pub fn matches_exact(&self, other: &Operator) -> (r: bool)
        ensures
            r == (self@ == other@),
        decreases self,
    {
        match self {
            Operator::True => match other {
                Operator::True => true,
                _ => false,
            },
            Operator::False => match other {
                Operator::False => true,
                _ => false,
            },
            Operator::Number(a) => match other {
                Operator::Number(b) => *a == *b,
                _ => false,
            },
            Operator::Variable(a) => match other {
                Operator::Variable(b) => *a == *b,
                _ => false,
            },
            Operator::Or(al, ar) => match other {
                Operator::Or(bl, br) => {
                    let r = al.matches_exact(bl) && ar.matches_exact(br);
                    proof {
                        if r {
                            assert(self@->Node_1 =~= other@->Node_1);
                        }
                    }
                    r
                },
                _ => {
                    proof {
                        assert(false == (self@ == other@));
                    }
                    false
                },
            },
            Operator::And(al, ar) => match other {
                Operator::And(bl, br) => {
                    let r = al.matches_exact(bl) && ar.matches_exact(br);
                    proof {
                        if r {
                            assert(self@->Node_1 =~= other@->Node_1);
                        }
                    }
                    r
                },
                _ => {
                    proof {
                        assert(false == (self@ == other@));
                    }
                    false
                },
            },
            Operator::Not(a) => match other {
                Operator::Not(b) => {
                    let r = a.matches_exact(b);
                    proof {
                        assert(self@->Node_1[0] == a@);
                        assert(other@->Node_1[0] == b@);
                        if r {
                            assert(self@->Node_1 =~= other@->Node_1);
                        }
                    }
                    r
                },
                _ => {
                    proof {
                        assert(false == (self@ == other@));
                    }
                    false
                },
            },
            Operator::Sum(a) => match other {
                Operator::Sum(b) => vec_matches_exact(a, b),
                _ => false,
            },
            Operator::Product(a) => match other {
                Operator::Product(b) => vec_matches_exact(a, b),
                _ => false,
            },
        }
    }

    /// A fresh tree structurally equal to this one.
    pub fn deep_copy(&self) -> (r: Operator)
        ensures
            r@ == self@,
        decreases self,
    {
        match self {
            Operator::True => Operator::True,
            Operator::False => Operator::False,
            Operator::Number(n) => Operator::Number(*n),
            Operator::Variable(s) => Operator::Variable(s.clone()),
            Operator::Or(a, b) => Operator::Or(
                Box::new(a.deep_copy()),
                Box::new(b.deep_copy()),
            ),
            Operator::And(a, b) => Operator::And(
                Box::new(a.deep_copy()),
                Box::new(b.deep_copy()),
            ),
            Operator::Not(a) => Operator::Not(Box::new(a.deep_copy())),
            Operator::Sum(cs) => {
                let r = Operator::Sum(vec_deep_copy(cs));
                proof {
                    lemma_seq_models(cs@);
                    lemma_seq_models(r->Sum_0@);
                    assert(r@->Node_1 =~= self@->Node_1);
                }
                r
            },
            Operator::Product(cs) => {
                let r = Operator::Product(vec_deep_copy(cs));
                proof {
                    lemma_seq_models(cs@);
                    lemma_seq_models(r->Product_0@);
                    assert(r@->Node_1 =~= self@->Node_1);
                }
                r
            },
        }
    }
}

/// The term with `sfx` appended to every variable name.
pub open spec fn rename_model(t: TermModel, sfx: Seq<char>) -> TermModel
    decreases t,
{
    match t {
        TermModel::Var(x) => TermModel::Var(x + sfx),
        TermModel::Node(k, cs) => TermModel::Node(k, rename_list(cs, sfx)),
        _ => t,
    }
}

/// `rename_model` applied to each term of a sequence.
pub open spec fn rename_list(cs: Seq<TermModel>, sfx: Seq<char>) -> Seq<TermModel>
    decreases cs,
{
    if cs.len() == 0 {
        Seq::empty()
    } else {
        seq![rename_model(cs[0], sfx)] + rename_list(cs.drop_first(), sfx)
    }
}

/// `rename_list` is the pointwise renaming map.
pub proof fn lemma_rename_list(cs: Seq<TermModel>, sfx: Seq<char>)
    ensures
        rename_list(cs, sfx).len() == cs.len(),
        forall|i: int| 0 <= i < cs.len() ==> rename_list(cs, sfx)[i] == rename_model(
            cs[i],
            sfx,
        ),
    decreases cs,
{
    if cs.len() > 0 {
        lemma_rename_list(cs.drop_first(), sfx);
        assert forall|i: int| 0 <= i < cs.len() implies rename_list(cs, sfx)[i]
            == rename_model(cs[i], sfx) by {
            if i > 0 {
                assert(rename_list(cs, sfx)[i] == rename_list(cs.drop_first(), sfx)[i - 1]);
                assert(cs.drop_first()[i - 1] == cs[i]);
            }
        }
    }
}

impl Operator {
    /// A copy of this pattern with `sfx` appended to every variable
    /// name, keeping its variables apart from any pattern that does not
    /// use the suffix.
    pub fn rename_vars(&self, sfx: &str) -> (r: Operator)
        ensures
            r@ == rename_model(self@, sfx@),
        decreases self,
    {
        match self {
            Operator::True => Operator::True,
            Operator::False => Operator::False,
            Operator::Number(n) => Operator::Number(*n),
            Operator::Variable(x) => Operator::Variable(x.clone().concat(sfx)),
            Operator::Or(a, b) => {
                let r = Operator::Or(
                    Box::new(a.rename_vars(sfx)),
                    Box::new(b.rename_vars(sfx)),
                );
                proof {
                    lemma_rename_list(self@->Node_1, sfx@);
                    assert(r@->Node_1 =~= rename_model(self@, sfx@)->Node_1);
                }
                r
            },
            Operator::And(a, b) => {
                let r = Operator::And(
                    Box::new(a.rename_vars(sfx)),
                    Box::new(b.rename_vars(sfx)),
                );
                proof {
                    lemma_rename_list(self@->Node_1, sfx@);
                    assert(r@->Node_1 =~= rename_model(self@, sfx@)->Node_1);
                }
                r
            },
            Operator::Not(a) => {
                let r = Operator::Not(Box::new(a.rename_vars(sfx)));
                proof {
                    lemma_rename_list(self@->Node_1, sfx@);
                    assert(r@->Node_1 =~= rename_model(self@, sfx@)->Node_1);
                }
                r
            },
            Operator::Sum(cs) => {
                let r = Operator::Sum(vec_rename(cs, sfx));
                proof {
                    lemma_seq_models(cs@);
                    lemma_seq_models(r->Sum_0@);
                    lemma_rename_list(seq_models(cs@), sfx@);
                    assert(r@->Node_1 =~= rename_model(self@, sfx@)->Node_1);
                }
                r
            },
            Operator::Product(cs) => {
                let r = Operator::Product(vec_rename(cs, sfx));
                proof {
                    lemma_seq_models(cs@);
                    lemma_seq_models(r->Product_0@);
                    lemma_rename_list(seq_models(cs@), sfx@);
                    assert(r@->Node_1 =~= rename_model(self@, sfx@)->Node_1);
                }
                r
            },
        }
    }
}

/// Renamed copies of every child, in order.
fn vec_rename(cs: &Vec<Operator>, sfx: &str) -> (r: Vec<Operator>)
    ensures
        r@.len() == cs@.len(),
        forall|i: int| 0 <= i < cs@.len() ==> r@[i]@ == rename_model(cs@[i]@, sfx@),
    decreases cs,
{
    let mut out: Vec<Operator> = Vec::new();
    let n = cs.len();
    for i in 0..n
        invariant
            n == cs@.len(),
            out@.len() == i,
            forall|j: int| 0 <= j < i ==> out@[j]@ == rename_model(cs@[j]@, sfx@),
        decreases n - i,
    {
        assert(decreases_to!(cs => cs@[i as int]));
        out.push(cs[i].rename_vars(sfx));
    }
    out
}

impl Clone for Operator {
    /// Cloning is a deep copy; the clone is structurally equal to the
    /// original.
    fn clone(&self) -> (r: Operator)
        ensures
            r@ == self@,
    {
        self.deep_copy()
    }
}

/// Pointwise structural equality of two child vectors.
fn vec_matches_exact(a: &Vec<Operator>, b: &Vec<Operator>) -> (r: bool)
    ensures
        r == (seq_models(a@) == seq_models(b@)),
    decreases a,
{
    proof {
        lemma_seq_models(a@);
        lemma_seq_models(b@);
    }
    if a.len() != b.len() {
        return false;
    }
    let n = a.len();
    for i in 0..n
        invariant
            n == a@.len() && n == b@.len(),
            forall|j: int| 0 <= j < i ==> a@[j]@ == b@[j]@,
        decreases n - i,
    {
        assert(decreases_to!(a => a@[i as int]));
        if !a[i].matches_exact(&b[i]) {
            proof {
                lemma_seq_models(a@);
                lemma_seq_models(b@);
                assert(seq_models(a@)[i as int] != seq_models(b@)[i as int]);
            }
            return false;
        }
    }
    proof {
        lemma_seq_models(a@);
        lemma_seq_models(b@);
        assert(seq_models(a@) =~= seq_models(b@));
    }
    true
}

/// Deep copies of every child, in order.
fn vec_deep_copy(cs: &Vec<Operator>) -> (r: Vec<Operator>)
    ensures
        r@.len() == cs@.len(),
        forall|i: int| 0 <= i < cs@.len() ==> r@[i]@ == cs@[i]@,
    decreases cs,
{
    let mut out: Vec<Operator> = Vec::new();
    let n = cs.len();
    for i in 0..n
        invariant
            n == cs@.len(),
            out@.len() == i,
            forall|j: int| 0 <= j < i ==> out@[j]@ == cs@[j]@,
        decreases n - i,
    {
        assert(decreases_to!(cs => cs@[i as int]));
        out.push(cs[i].deep_copy());
    }
    out
}

} // verus!
