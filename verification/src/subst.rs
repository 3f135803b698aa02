//! Substitutions: finite mappings from variable names to terms, built
//! incrementally during matching and unification, and the substitution
//! application that instantiates a pattern into a concrete term.

use vstd::prelude::*;
use crate::term::Operator;
use crate::term::TermModel;
use crate::term::seq_models;
use crate::term::lemma_seq_models;

verus! {

/// A mapping from variable names to terms. Keys are unique; bindings are
/// added one at a time and never overwritten.
#[derive(Debug)]
pub struct Substitution {
    entries: Vec<(String, Operator)>,
}

/// First match in the entry list wins.
pub open spec fn entries_lookup(s: Seq<(String, Operator)>, k: Seq<char>) -> Option<TermModel>
    decreases s,
{
    if s.len() == 0 {
        Option::None
    } else if s[0].0@ == k {
        Option::Some(s[0].1@)
    } else {
        entries_lookup(s.drop_first(), k)
    }
}

/// Looking a key up in a list extended at the end finds the old binding
/// first.
proof fn lemma_entries_lookup_push(s: Seq<(String, Operator)>, e: (String, Operator), k: Seq<char>)
    ensures
        entries_lookup(s.push(e), k) == if entries_lookup(s, k) is Some {
            entries_lookup(s, k)
        } else if e.0@ == k {
            Option::Some(e.1@)
        } else {
            Option::<TermModel>::None
        },
    decreases s,
{
    if s.len() == 0 {
        assert(s.push(e).drop_first() =~= s);
    } else {
        assert(s.push(e).drop_first() =~= s.drop_first().push(e));
        lemma_entries_lookup_push(s.drop_first(), e, k);
    }
}

impl Substitution {
    /// The mapping this value represents.
    pub closed spec fn model(self) -> Map<Seq<char>, TermModel> {
        Map::new(
            |k: Seq<char>| entries_lookup(self.entries@, k) is Some,
            |k: Seq<char>| entries_lookup(self.entries@, k)->0,
        )
    }

}

impl View for Substitution {
    type V = Map<Seq<char>, TermModel>;

    open spec fn view(&self) -> Map<Seq<char>, TermModel> {
        self.model()
    }
}

impl Substitution {
    /// The empty substitution.
    pub fn new() -> (s: Substitution)
        ensures
            s@ == Map::<Seq<char>, TermModel>::empty(),
    {
        let s = Substitution { entries: Vec::new() };
        proof {
            assert(s@ =~= Map::<Seq<char>, TermModel>::empty());
        }
        s
    }

    /// The binding of `name`, if any.
    pub fn get(&self, name: &String) -> (r: Option<&Operator>)
        ensures
            match r {
                Option::Some(t) => self@.contains_key(name@) && t@ == self@[name@],
                Option::None => !self@.contains_key(name@),
            },
    {
        proof {
            assert(self.entries@.skip(0) =~= self.entries@);
        }
        let n = self.entries.len();
        for i in 0..n
            invariant
                n == self.entries@.len(),
                entries_lookup(self.entries@, name@) == entries_lookup(
                    self.entries@.skip(i as int),
                    name@,
                ),
        {
            proof {
                assert(self.entries@.skip(i as int).drop_first() =~= self.entries@.skip(
                    i + 1,
                ));
                assert(self.entries@.skip(i as int)[0] == self.entries@[i as int]);
            }
            if *name == self.entries[i].0 {
                return Option::Some(&self.entries[i].1);
            }
        }
        proof {
            assert(self.entries@.skip(n as int).len() == 0);
        }
        Option::None
    }

    /// Whether `name` is bound.
    pub fn contains(&self, name: &String) -> (r: bool)
        ensures
            r == self@.contains_key(name@),
    {
        match self.get(name) {
            Option::Some(_) => true,
            Option::None => false,
        }
    }

    /// Bind a fresh variable.
    pub fn insert(&mut self, name: String, term: Operator)
        requires
            !old(self)@.contains_key(name@),
        ensures
            final(self)@ == old(self)@.insert(name@, term@),
    {
        proof {
            lemma_entries_lookup_push(
                self.entries@,
                (name, term),
                name@,
            );
        }
        let ghost olds = self.entries@;
        self.entries.push((name, term));
        proof {
            assert forall|k: Seq<char>| true implies entries_lookup(self.entries@, k)
                == entries_lookup(olds.push(self.entries@[olds.len() as int]), k) by {}
            assert forall|k: Seq<char>|
                #[trigger] entries_lookup(self.entries@, k) == if entries_lookup(olds, k) is Some {
                    entries_lookup(olds, k)
                } else if self.entries@[olds.len() as int].0@ == k {
                    Option::Some(self.entries@[olds.len() as int].1@)
                } else {
                    Option::<TermModel>::None
                } by {
                lemma_entries_lookup_push(olds, self.entries@[olds.len() as int], k);
            }
            assert(self@ =~= old(self)@.insert(name@, term@));
        }
    }
}

impl Clone for Substitution {
    /// The clone represents the same mapping.
    fn clone(&self) -> (r: Substitution)
        ensures
            r@ == self@,
    {
        let n = self.entries.len();
        let mut out: Vec<(String, Operator)> = Vec::new();
        for i in 0..n
            invariant
                n == self.entries@.len(),
                out@.len() == i,
                forall|j: int| 0 <= j < i ==> out@[j].0@ == self.entries@[j].0@
                    && out@[j].1@ == self.entries@[j].1@,
        {
            let name = self.entries[i].0.clone();
            let term = self.entries[i].1.clone();
            out.push((name, term));
        }
        let r = Substitution { entries: out };
        proof {
            lemma_entries_lookup_equiv(r.entries@, self.entries@);
            assert(r@ =~= self@);
        }
        r
    }
}

/// Lists whose entries agree pointwise on name and term model define the
/// same lookup.
proof fn lemma_entries_lookup_equiv(a: Seq<(String, Operator)>, b: Seq<(String, Operator)>)
    requires
        a.len() == b.len(),
        forall|j: int| 0 <= j < a.len() ==> a[j].0@ == b[j].0@ && a[j].1@ == b[j].1@,
    ensures
        forall|k: Seq<char>| #[trigger] entries_lookup(a, k) == entries_lookup(b, k),
    decreases a,
{
    if a.len() > 0 {
        lemma_entries_lookup_equiv(a.drop_first(), b.drop_first());
        assert forall|k: Seq<char>| #[trigger] entries_lookup(a, k) == entries_lookup(b, k) by {
            assert(a[0].0@ == b[0].0@);
            assert(entries_lookup(a.drop_first(), k) == entries_lookup(b.drop_first(), k));
        }
    }
}

/// The mapping extended with `x` bound to `t`, with `t` substituted
/// into every existing image first, so a fully resolved mapping stays
/// fully resolved.
pub open spec fn compose_bind(
    s: Map<Seq<char>, TermModel>,
    x: Seq<char>,
    t: TermModel,
) -> Map<Seq<char>, TermModel> {
    Map::new(
        |k: Seq<char>| s.dom().contains(k) || k == x,
        |k: Seq<char>|
            if k == x {
                t
            } else {
                subst_model(s[k], Map::<Seq<char>, TermModel>::empty().insert(x, t))
            },
    )
}

/// Mapping every entry's image by one substitution maps the lookup.
proof fn lemma_entries_lookup_mapped(
    a: Seq<(String, Operator)>,
    b: Seq<(String, Operator)>,
    m: Map<Seq<char>, TermModel>,
)
    requires
        a.len() == b.len(),
        forall|j: int| 0 <= j < a.len() ==> b[j].0@ == a[j].0@ && b[j].1@ == subst_model(
            a[j].1@,
            m,
        ),
    ensures
        forall|k: Seq<char>| #[trigger] entries_lookup(b, k) == (match entries_lookup(a, k) {
            Option::Some(v) => Option::Some(subst_model(v, m)),
            Option::None => Option::<TermModel>::None,
        }),
    decreases a,
{
    if a.len() > 0 {
        lemma_entries_lookup_mapped(a.drop_first(), b.drop_first(), m);
        assert forall|k: Seq<char>| #[trigger] entries_lookup(b, k) == (match entries_lookup(
            a,
            k,
        ) {
            Option::Some(v) => Option::Some(subst_model(v, m)),
            Option::None => Option::<TermModel>::None,
        }) by {
            assert(a[0].0@ == b[0].0@);
            assert(entries_lookup(b.drop_first(), k) == (match entries_lookup(
                a.drop_first(),
                k,
            ) {
                Option::Some(v) => Option::Some(subst_model(v, m)),
                Option::None => Option::<TermModel>::None,
            }));
        }
    }
}

impl Substitution {
    /// Bind a fresh variable, substituting the new binding into every
    /// existing image, so that a fully resolved mapping stays fully
    /// resolved.
    pub fn insert_composed(&mut self, name: String, term: Operator)
        requires
            !old(self)@.contains_key(name@),
        ensures
            final(self)@ == compose_bind(old(self)@, name@, term@),
    {
        let ghost old_entries = self.entries@;
        let mut single = Substitution::new();
        single.insert(name.clone(), term.deep_copy());
        let ghost singlem = single@;
        proof {
            assert(singlem =~= Map::<Seq<char>, TermModel>::empty().insert(name@, term@));
        }
        let n = self.entries.len();
        for i in 0..n
            invariant
                n == old_entries.len(),
                self.entries@.len() == n,
                singlem == single@,
                singlem == Map::<Seq<char>, TermModel>::empty().insert(name@, term@),
                forall|j: int| 0 <= j < i ==> (#[trigger] self.entries@[j]).0@
                    == old_entries[j].0@ && self.entries@[j].1@ == subst_model(
                    old_entries[j].1@,
                    singlem,
                ),
                forall|j: int| i <= j < n ==> #[trigger] self.entries@[j] == old_entries[j],
            decreases n - i,
        {
            let nm = self.entries[i].0.clone();
            let nv = self.entries[i].1.apply_subst(&single);
            self.entries.set(i, (nm, nv));
        }
        let ghost mapped = self.entries@;
        self.entries.push((name, term));
        proof {
            lemma_entries_lookup_mapped(old_entries, mapped, singlem);
            assert forall|k: Seq<char>|
                #[trigger] entries_lookup(self.entries@, k) == if entries_lookup(
                    mapped,
                    k,
                ) is Some {
                    entries_lookup(mapped, k)
                } else if name@ == k {
                    Option::Some(term@)
                } else {
                    Option::<TermModel>::None
                } by {
                lemma_entries_lookup_push(mapped, self.entries@[mapped.len() as int], k);
                assert(self.entries@ =~= mapped.push(self.entries@[mapped.len() as int]));
            }
            assert(self@ =~= compose_bind(old(self)@, name@, term@));
        }
    }
}

/// The set of variable names occurring in a term.
pub open spec fn term_vars(t: TermModel) -> Set<Seq<char>>
    decreases t,
{
    match t {
        TermModel::Var(x) => Set::empty().insert(x),
        TermModel::Node(_k, cs) => seq_vars(cs),
        _ => Set::empty(),
    }
}

/// The variables of a sequence of terms.
pub open spec fn seq_vars(cs: Seq<TermModel>) -> Set<Seq<char>>
    decreases cs,
{
    if cs.len() == 0 {
        Set::empty()
    } else {
        term_vars(cs[0]).union(seq_vars(cs.drop_first()))
    }
}

/// Substitution application: variables bound in `s` are replaced by their
/// bindings, unbound variables are left in place, everything else is
/// rebuilt structurally.
pub open spec fn subst_model(p: TermModel, s: Map<Seq<char>, TermModel>) -> TermModel
    decreases p,
{
    match p {
        TermModel::Var(x) => if s.dom().contains(x) {
            s[x]
        } else {
            p
        },
        TermModel::Node(k, cs) => TermModel::Node(k, subst_seq(cs, s)),
        _ => p,
    }
}

/// Substitution applied to each term of a sequence.
pub open spec fn subst_seq(cs: Seq<TermModel>, s: Map<Seq<char>, TermModel>) -> Seq<TermModel>
    decreases cs,
{
    if cs.len() == 0 {
        Seq::empty()
    } else {
        seq![subst_model(cs[0], s)] + subst_seq(cs.drop_first(), s)
    }
}

/// `subst_seq` is the pointwise substitution map.
pub broadcast proof fn lemma_subst_seq(cs: Seq<TermModel>, s: Map<Seq<char>, TermModel>)
    ensures
        (#[trigger] subst_seq(cs, s)).len() == cs.len(),
        forall|i: int| 0 <= i < cs.len() ==> subst_seq(cs, s)[i] == subst_model(cs[i], s),
    decreases cs,
{
    if cs.len() > 0 {
        lemma_subst_seq(cs.drop_first(), s);
        assert forall|i: int| 0 <= i < cs.len() implies subst_seq(cs, s)[i] == subst_model(
            cs[i],
            s,
        ) by {
            if i > 0 {
                assert(subst_seq(cs, s)[i] == subst_seq(cs.drop_first(), s)[i - 1]);
                assert(cs.drop_first()[i - 1] == cs[i]);
            }
        }
    }
}

/// Whether `m1` and `m2` agree (same domain membership, same binding) on
/// every name in `vs`.
pub open spec fn maps_agree_on(
    vs: Set<Seq<char>>,
    m1: Map<Seq<char>, TermModel>,
    m2: Map<Seq<char>, TermModel>,
) -> bool {
    forall|x: Seq<char>| #[trigger] vs.contains(x) ==> (m1.dom().contains(x)
        == m2.dom().contains(x)) && (m1.dom().contains(x) ==> m1[x] == m2[x])
}

/// Two substitutions that agree on the variables of `p` produce the same
/// instance of `p`.
pub proof fn lemma_subst_agree(
    p: TermModel,
    m1: Map<Seq<char>, TermModel>,
    m2: Map<Seq<char>, TermModel>,
)
    requires
        maps_agree_on(term_vars(p), m1, m2),
    ensures
        subst_model(p, m1) == subst_model(p, m2),
    decreases p,
{
    match p {
        TermModel::Node(_k, cs) => {
            assert forall|x: Seq<char>| #[trigger] seq_vars(cs).contains(x) implies (m1.dom()
                .contains(x) == m2.dom().contains(x)) && (m1.dom().contains(x) ==> m1[x]
                == m2[x]) by {
                assert(term_vars(p).contains(x));
            }
            lemma_subst_seq_agree(cs, m1, m2);
        },
        TermModel::Var(x) => {
            assert(term_vars(p).contains(x));
        },
        _ => {},
    }
}

/// Sequence version of `lemma_subst_agree`.
pub proof fn lemma_subst_seq_agree(
    cs: Seq<TermModel>,
    m1: Map<Seq<char>, TermModel>,
    m2: Map<Seq<char>, TermModel>,
)
    requires
        maps_agree_on(seq_vars(cs), m1, m2),
    ensures
        subst_seq(cs, m1) == subst_seq(cs, m2),
    decreases cs,
{
    if cs.len() > 0 {
        assert forall|x: Seq<char>| #[trigger] term_vars(cs[0]).contains(x) implies (m1.dom()
            .contains(x) == m2.dom().contains(x)) && (m1.dom().contains(x) ==> m1[x]
            == m2[x]) by {
            assert(seq_vars(cs).contains(x));
        }
        lemma_subst_agree(cs[0], m1, m2);
        assert forall|x: Seq<char>| #[trigger] seq_vars(cs.drop_first()).contains(x) implies (
        m1.dom().contains(x) == m2.dom().contains(x)) && (m1.dom().contains(x) ==> m1[x]
            == m2[x]) by {
            assert(seq_vars(cs).contains(x));
        }
        lemma_subst_seq_agree(cs.drop_first(), m1, m2);
    }
}

impl Operator {
    /// Instantiate this pattern under `subs`. Reaching an unbound pattern
    /// variable would mean a malformed rule slipped past validation, so
    /// full coverage of the pattern's variables is demanded up front.
    pub fn apply_rule(&self, subs: &Substitution) -> (r: Operator)
        requires
            term_vars(self@).subset_of(subs@.dom()),
        ensures
            r@ == subst_model(self@, subs@),
    {
        self.apply_subst(subs)
    }

    /// Total substitution application: unbound variables stay in place.
    pub fn apply_subst(&self, subs: &Substitution) -> (r: Operator)
        ensures
            r@ == subst_model(self@, subs@),
        decreases self,
    {
        match self {
            Operator::True => Operator::True,
            Operator::False => Operator::False,
            Operator::Number(n) => Operator::Number(*n),
            Operator::Variable(x) => match subs.get(x) {
                Option::Some(t) => t.deep_copy(),
                Option::None => Operator::Variable(x.clone()),
            },
            Operator::Or(a, b) => {
                let r = Operator::Or(
                    Box::new(a.apply_subst(subs)),
                    Box::new(b.apply_subst(subs)),
                );
                proof {
                    lemma_subst_seq(self@->Node_1, subs@);
                    assert(r@->Node_1 =~= subst_model(self@, subs@)->Node_1);
                }
                r
            },
            Operator::And(a, b) => {
                let r = Operator::And(
                    Box::new(a.apply_subst(subs)),
                    Box::new(b.apply_subst(subs)),
                );
                proof {
                    lemma_subst_seq(self@->Node_1, subs@);
                    assert(r@->Node_1 =~= subst_model(self@, subs@)->Node_1);
                }
                r
            },
            Operator::Not(a) => {
                let r = Operator::Not(Box::new(a.apply_subst(subs)));
                proof {
                    lemma_subst_seq(self@->Node_1, subs@);
                    assert(r@->Node_1 =~= subst_model(self@, subs@)->Node_1);
                }
                r
            },
            Operator::Sum(cs) => {
                let r = Operator::Sum(vec_apply_subst(cs, subs));
                proof {
                    lemma_seq_models(cs@);
                    lemma_seq_models(r->Sum_0@);
                    lemma_subst_seq(seq_models(cs@), subs@);
                    assert(r@->Node_1 =~= subst_model(self@, subs@)->Node_1);
                }
                r
            },
            Operator::Product(cs) => {
                let r = Operator::Product(vec_apply_subst(cs, subs));
                proof {
                    lemma_seq_models(cs@);
                    lemma_seq_models(r->Product_0@);
                    lemma_subst_seq(seq_models(cs@), subs@);
                    assert(r@->Node_1 =~= subst_model(self@, subs@)->Node_1);
                }
                r
            },
        }
    }
}

/// Substitution applied to every child, in order.
fn vec_apply_subst(cs: &Vec<Operator>, subs: &Substitution) -> (r: Vec<Operator>)
    ensures
        r@.len() == cs@.len(),
        forall|i: int| 0 <= i < cs@.len() ==> r@[i]@ == subst_model(cs@[i]@, subs@),
    decreases cs,
{
    let mut out: Vec<Operator> = Vec::new();
    let n = cs.len();
    for i in 0..n
        invariant
            n == cs@.len(),
            out@.len() == i,
            forall|j: int| 0 <= j < i ==> out@[j]@ == subst_model(cs@[j]@, subs@),
        decreases n - i,
    {
        assert(decreases_to!(cs => cs@[i as int]));
        out.push(cs[i].apply_subst(subs));
    }
    out
}

} // verus!
