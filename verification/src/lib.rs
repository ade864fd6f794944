//! Abstract binding trees: syntax with variable binding.
//!
//! A tree is a variable or an operator applied to scopes, and a scope binds
//! zero or more variables over a tree. Inside a tree bound variables are
//! references by position, so no name can be captured; a client sees a tree
//! one layer at a time through its [`view::View`], in which the variables a
//! scope binds are fresh [`var::Var`]s, and builds a tree from such a layer
//! with `to_abt`, which holds it to the signature that [`Operator`] declares.
//!
//! Operators and sorts are the client's own types. Trees copy them with
//! `clone` and compare sorts with `==`; what a function hands back is stated
//! exactly for types that clone exactly, and what `to_abt` accepts for sorts
//! on which `==` is equality.

use vstd::prelude::*;

pub mod context;
pub mod laws;
pub mod term;
pub mod var;
pub mod view;

use crate::term::{binders_before, sorts_alike, valences, Layer, Opening, Scope, Term};
use crate::var::{atoms, clones_exactly, ids, minted, sorts, Supply, Var};
use crate::view::AbsView;
use vstd::laws_eq::obeys_concrete_eq;
use vstd::std_specs::cmp::PartialEqSpec;

verus! {

/// What an operator expects of one operand: the sorts of the variables that
/// the operand's scope binds, and the sort of its body.
#[derive(Debug, PartialEq, Eq)]
pub struct Valence<'a, Sort> {
    pub inputs: &'a [Sort],
    pub output: Sort,
}

/// A valence as a mathematical value.
pub struct Shape<Sort> {
    pub inputs: Seq<Sort>,
    pub output: Sort,
}

impl<'a, Sort> View for Valence<'a, Sort> {
    type V = Shape<Sort>;

    open spec fn view(&self) -> Shape<Sort> {
        Shape { inputs: self.inputs@, output: self.output }
    }
}

impl<'a, Sort> Valence<'a, Sort> {
    /// The valence of an operand that binds variables of the sorts `inputs`
    /// over a body of the sort `output`.
    pub fn new(inputs: &'a [Sort], output: Sort) -> (v: Self)
        ensures
            v@ == (Shape { inputs: inputs@, output }),
    {
        Valence { inputs, output }
    }
}

impl<'a, Sort: Clone> Clone for Valence<'a, Sort> {
    /// A valence over the same inputs, with a clone of the output.
    fn clone(&self) -> (r: Self)
        ensures
            r@.inputs == self@.inputs,
            cloned::<Sort>(self@.output, r@.output),
    {
        let output = self.output.clone();
        assert(cloned::<Sort>(self.output, output));
        Valence { inputs: self.inputs, output }
    }
}

/// The shape of each valence, in order.
pub open spec fn shapes<Sort>(valences: Seq<Valence<'_, Sort>>) -> Seq<Shape<Sort>> {
    Seq::new(valences.len(), |i: int| valences[i]@)
}

/// The signature of a language, told operator by operator.
///
/// `spec_arity` and `spec_sort` say what an operator's signature is; `arity`
/// and `sort` hand it out at run time, and are bound to return exactly that,
/// each time they are asked. Nothing in this library checks an
/// implementation against that promise: whoever implements the trait outside
/// verified code is trusted to keep it.
pub trait Operator<Sort>: Sized {
    /// The valence that the operator expects of each operand, in order.
    /// An implementation states it; left unstated, it is some fixed value
    /// about which nothing is known.
    open spec fn spec_arity(&self) -> Seq<Shape<Sort>> {
        arbitrary()
    }

    /// The sort of an application of the operator. An implementation states
    /// it; left unstated, it is some fixed value about which nothing is known.
    open spec fn spec_sort(&self) -> Sort {
        arbitrary()
    }

    /// The valence that the operator expects of each operand, in order.
    fn arity<'a>(&self) -> (r: &'a [Valence<'a, Sort>])
        ensures
            shapes(r@) == self.spec_arity(),
    ;

    /// The sort of an application of the operator.
    fn sort(&self) -> (s: Sort)
        ensures
            s == self.spec_sort(),
    ;
}

/// A tree as it is stored. A bound variable is `BV(depth, slot)`: `depth`
/// scopes out from the reference, variable number `slot` of that scope.
#[derive(Debug)]
enum Node<Op, Sort> {
    BV(usize, usize),
    FV(Var<Sort>),
    Op(Op, Vec<Abs<Op, Sort>>),
}

/// A scope as it is stored: the sorts of the variables it binds, and its body.
#[derive(Debug)]
struct Abs<Op, Sort>(Vec<Sort>, Node<Op, Sort>);

/// An abstract binding tree.
///
/// A tree always stands on its own: every reference to a bound variable in
/// it points to a scope inside the tree and to a variable which that scope
/// binds. Only `to_abt` makes an application, so a tree never holds one that
/// was not held to the signature.
#[derive(Debug)]
pub struct Abt<Op, Sort>(Node<Op, Sort>);

impl<Op, Sort> Node<Op, Sort> {
    spec fn term(&self) -> Term<Op, Sort>
        decreases self,
    {
        match self {
            Node::BV(i, j) => Term::Bound { depth: *i as nat, slot: *j as nat },
            Node::FV(v) => Term::Free(v@),
            Node::Op(rator, rands) => Term::Apply(
                *rator,
                Seq::new(
                    rands@.len(),
                    |i: int|
                        if 0 <= i < rands@.len() {
                            Scope { sorts: rands@[i].0@, body: rands@[i].1.term() }
                        } else {
                            arbitrary()
                        },
                ),
            ),
        }
    }
}

impl<Op, Sort> Abs<Op, Sort> {
    spec fn scope(&self) -> Scope<Op, Sort> {
        Scope { sorts: self.0@, body: self.1.term() }
    }
}

impl<Op, Sort> Abt<Op, Sort> {
    #[verifier::type_invariant]
    spec fn stands_alone(&self) -> bool {
        self.0.term().closed()
    }

    /// The tree as a mathematical value.
    pub closed spec fn term(&self) -> Term<Op, Sort> {
        self.0.term()
    }
}

/// Whether operators and sorts are both copied exactly.
spec fn exact<Op: Clone, Sort: Clone>() -> bool {
    clones_exactly::<Op>() && clones_exactly::<Sort>()
}

/// Whether `b` has the frame of `a`: the same shape throughout, the same
/// references, and scopes that bind as many variables. What the operators,
/// the sorts and the free variables are is left open.
spec fn framed_like<Op, Sort>(a: Term<Op, Sort>, b: Term<Op, Sort>) -> bool
    decreases a,
{
    match (a, b) {
        (Term::Bound { depth, slot }, Term::Bound { depth: d, slot: s }) => depth == d && slot == s,
        (Term::Free(_), Term::Free(_)) => true,
        (Term::Apply(_, scopes), Term::Apply(_, scopes2)) => {
            &&& scopes.len() == scopes2.len()
            &&& forall|i: int|
                0 <= i < scopes.len() ==> {
                    &&& (#[trigger] scopes[i]).sorts.len() == scopes2[i].sorts.len()
                    &&& framed_like(scopes[i].body, scopes2[i].body)
                }
        },
        _ => false,
    }
}

/// Whether references find their binders depends on the frame alone.
proof fn lemma_framed_scoped<Op, Sort>(a: Term<Op, Sort>, b: Term<Op, Sort>, widths: Seq<nat>)
    requires
        framed_like(a, b),
        a.scoped(widths),
    ensures
        b.scoped(widths),
    decreases a,
{
    match (a, b) {
        (Term::Apply(_, scopes), Term::Apply(_, scopes2)) => {
            assert forall|i: int| 0 <= i < scopes2.len() implies (#[trigger] scopes2[i]).body.scoped(
                widths.push(scopes2[i].sorts.len()),
            ) by {
                assert(scopes[i].body.scoped(widths.push(scopes[i].sorts.len())));
                lemma_framed_scoped(
                    scopes[i].body,
                    scopes2[i].body,
                    widths.push(scopes[i].sorts.len()),
                );
            }
        },
        _ => {},
    }
}

/// A count of scopes as a `usize`, where it fits one.
spec fn steps(n: nat) -> Option<usize> {
    if n <= usize::MAX {
        Some(n as usize)
    } else {
        None
    }
}

/// Where `fv` stands first among `vars`, if it is one of them.
fn position<Sort>(vars: &Vec<Var<Sort>>, fv: &Var<Sort>) -> (r: Option<usize>)
    ensures
        match r {
            Some(i) => ids(atoms(vars@)).index_of_first(fv@.id) == Some(i as int),
            None => ids(atoms(vars@)).index_of_first(fv@.id) is None,
        },
{
    let ghost names = ids(atoms(vars@));
    let mut i: usize = 0;
    while i < vars.len()
        invariant
            i <= vars@.len(),
            names == ids(atoms(vars@)),
            forall|j: int| 0 <= j < i ==> names[j] != fv@.id,
        decreases vars@.len() - i,
    {
        if vars[i] == *fv {
            proof {
                assert(names[i as int] == fv@.id);
                names.index_of_first_ensures(fv@.id);
            }
            return Some(i);
        }
        i += 1;
    }
    proof {
        names.index_of_first_ensures(fv@.id);
    }
    None
}

/// A clone of `x`, which is `x` itself where `T` clones exactly.
fn copy_of<T: Clone>(x: &T) -> (r: T)
    ensures
        cloned::<T>(*x, r),
        clones_exactly::<T>() ==> r == *x,
{
    let r = x.clone();
    assert(cloned::<T>(*x, r));
    r
}

/// Clones of the sorts, one for one and in order.
fn copy_sorts<Sort: Clone>(sorts: &Vec<Sort>) -> (r: Vec<Sort>)
    ensures
        r@.len() == sorts@.len(),
        clones_exactly::<Sort>() ==> r@ == sorts@,
{
    let r = sorts.clone();
    proof {
        if clones_exactly::<Sort>() {
            assert(r@ =~= sorts@);
        }
    }
    r
}

/// Whether the two runs hold equal sorts, one for one.
fn same_sorts<Sort: PartialEq>(a: &[Sort], b: &[Sort]) -> (r: bool)
    ensures
        Sort::obeys_eq_spec() ==> r == sorts_alike(a@, b@),
        obeys_concrete_eq::<Sort>() ==> r == (a@ == b@),
{
    proof {
        if obeys_concrete_eq::<Sort>() {
            reveal(obeys_concrete_eq);
            if sorts_alike(a@, b@) {
                assert(a@ =~= b@);
            }
        }
    }
    if a.len() != b.len() {
        return false;
    }
    let mut i: usize = 0;
    while i < a.len()
        invariant
            i <= a@.len(),
            a@.len() == b@.len(),
            Sort::obeys_eq_spec() ==> forall|j: int|
                0 <= j < i ==> (#[trigger] a@[j]).eq_spec(&b@[j]),
        decreases a@.len() - i,
    {
        if !(a[i] == b[i]) {
            proof {
                reveal(obeys_concrete_eq);
            }
            return false;
        }
        i += 1;
    }
    true
}

impl<Op, Sort> Node<Op, Sort> {
    /// A copy of the tree.
    fn duplicate(&self) -> (r: Self) where Op: Clone, Sort: Clone
        ensures
            framed_like(self.term(), r.term()),
            exact::<Op, Sort>() ==> r.term() == self.term(),
        decreases self,
    {
        match self {
            Node::BV(i, j) => Node::BV(*i, *j),
            Node::FV(v) => Node::FV(v.clone()),
            Node::Op(rator, rands) => {
                let mut out: Vec<Abs<Op, Sort>> = Vec::new();
                let mut i: usize = 0;
                while i < rands.len()
                    invariant
                        i <= rands@.len(),
                        out@.len() == i,
                        *self == Node::<Op, Sort>::Op(*rator, *rands),
                        forall|j: int|
                            0 <= j < i ==> {
                                &&& (#[trigger] out@[j]).0@.len() == rands@[j].0@.len()
                                &&& framed_like(rands@[j].1.term(), out@[j].1.term())
                            },
                        exact::<Op, Sort>() ==> forall|j: int|
                            0 <= j < i ==> (#[trigger] out@[j]).scope() == rands@[j].scope(),
                    decreases rands@.len() - i,
                {
                    assert(self->Op_1 == *rands);
                    out.push(Abs(copy_sorts(&rands[i].0), rands[i].1.duplicate()));
                    i += 1;
                }
                let r = Node::Op(copy_of(rator), out);
                proof {
                    let before = self.term()->Apply_1;
                    let after = r.term()->Apply_1;
                    assert forall|j: int| 0 <= j < before.len() implies {
                        &&& (#[trigger] before[j]).sorts.len() == after[j].sorts.len()
                        &&& framed_like(before[j].body, after[j].body)
                    } by {
                        assert(out@[j].0@.len() == rands@[j].0@.len());
                    }
                    if exact::<Op, Sort>() {
                        assert(after =~= before);
                    }
                }
                r
            },
        }
    }

    /// Whether the two trees are equal: the same shape throughout, equal
    /// operators and sorts, and at each variable the same identity.
    fn same(&self, other: &Self) -> (r: bool) where Op: PartialEq, Sort: PartialEq
        ensures
            Op::obeys_eq_spec() && Sort::obeys_eq_spec() ==> r == self.term().alike(other.term()),
        decreases self,
    {
        match (self, other) {
            (Node::BV(i, j), Node::BV(k, l)) => *i == *k && *j == *l,
            (Node::FV(v), Node::FV(w)) => *v == *w,
            (Node::Op(rator, rands), Node::Op(rator2, rands2)) => {
                if !(*rator == *rator2) || rands.len() != rands2.len() {
                    return false;
                }
                let mut i: usize = 0;
                while i < rands.len()
                    invariant
                        i <= rands@.len(),
                        rands@.len() == rands2@.len(),
                        *self == Node::<Op, Sort>::Op(*rator, *rands),
                        *other == Node::<Op, Sort>::Op(*rator2, *rands2),
                        Op::obeys_eq_spec() && Sort::obeys_eq_spec() ==> forall|j: int|
                            0 <= j < i ==> {
                                &&& sorts_alike((#[trigger] rands@[j]).0@, rands2@[j].0@)
                                &&& rands@[j].1.term().alike(rands2@[j].1.term())
                            },
                    decreases rands@.len() - i,
                {
                    assert(self->Op_1 == *rands);
                    if !(same_sorts(rands[i].0.as_slice(), rands2[i].0.as_slice())
                        && rands[i].1.same(&rands2[i].1)) {
                        proof {
                            let a = self.term()->Apply_1[i as int];
                            let b = other.term()->Apply_1[i as int];
                            assert(a.sorts == rands@[i as int].0@);
                            assert(b.sorts == rands2@[i as int].0@);
                        }
                        return false;
                    }
                    i += 1;
                }
                proof {
                    if Op::obeys_eq_spec() && Sort::obeys_eq_spec() {
                        let a = self.term()->Apply_1;
                        let b = other.term()->Apply_1;
                        assert forall|j: int| 0 <= j < a.len() implies {
                            &&& sorts_alike((#[trigger] a[j]).sorts, b[j].sorts)
                            &&& a[j].body.alike(b[j].body)
                        } by {
                            assert(sorts_alike(rands@[j].0@, rands2@[j].0@));
                        }
                    }
                }
                true
            },
            _ => false,
        }
    }

    /// The sort of the tree as the body of a scope that binds variables of
    /// the sorts `sorts`: a copy of the sort at the reference's slot or of
    /// the variable's own sort, or the sort that the operator declares.
    fn sort(&self, sorts: &[Sort]) -> (s: Sort) where Op: Operator<Sort>, Sort: Clone
        requires
            self.term() matches Term::Bound { depth, slot } ==> depth == 0 && slot < sorts@.len(),
        ensures
            cloned::<Sort>(self.term().sort_under(sorts@), s),
            clones_exactly::<Sort>() ==> s == self.term().sort_under(sorts@),
    {
        match self {
            Node::BV(_, j) => copy_of(&sorts[*j]),
            Node::FV(v) => copy_of(v.sort()),
            Node::Op(rator, _) => rator.sort(),
        }
    }

    /// Abstracts `vars` out of a tree that stands `k` scopes below the scope
    /// that is to bind them. `inner` holds how many variables each of those
    /// `k` scopes binds. No reference in the tree points out past them, so
    /// none crosses the new scope and none has to be shifted.
    fn bind(&self, vars: &Vec<Var<Sort>>, k: usize, Ghost(inner): Ghost<Seq<nat>>) -> (r: Self) where
        Op: Clone,
        Sort: Clone,

        requires
            inner.len() == k,
            self.term().scoped(inner),
            self.term().nests_within((usize::MAX - k) as nat),
        ensures
            framed_like(self.term().bind(ids(atoms(vars@)), k as nat), r.term()),
            exact::<Op, Sort>() ==> r.term() == self.term().bind(ids(atoms(vars@)), k as nat),
        decreases self,
    {
        match self {
            Node::BV(i, j) => Node::BV(*i, *j),
            Node::FV(fv) => match position(vars, fv) {
                Some(idx) => Node::BV(k, idx),
                None => Node::FV(fv.clone()),
            },
            Node::Op(rator, rands) => {
                let ghost names = ids(atoms(vars@));
                let mut out: Vec<Abs<Op, Sort>> = Vec::new();
                let mut i: usize = 0;
                while i < rands.len()
                    invariant
                        i <= rands@.len(),
                        out@.len() == i,
                        *self == Node::<Op, Sort>::Op(*rator, *rands),
                        inner.len() == k,
                        self.term().scoped(inner),
                        self.term().nests_within((usize::MAX - k) as nat),
                        names == ids(atoms(vars@)),
                        forall|j: int|
                            0 <= j < i ==> {
                                &&& (#[trigger] out@[j]).0@.len() == rands@[j].0@.len()
                                &&& framed_like(
                                    rands@[j].1.term().bind(names, (k + 1) as nat),
                                    out@[j].1.term(),
                                )
                            },
                        exact::<Op, Sort>() ==> forall|j: int|
                            0 <= j < i ==> (#[trigger] out@[j]).scope() == (Scope {
                                sorts: rands@[j].0@,
                                body: rands@[j].1.term().bind(names, (k + 1) as nat),
                            }),
                    decreases rands@.len() - i,
                {
                    let ghost below = self.term()->Apply_1[i as int];
                    assert(below.body == rands@[i as int].1.term());
                    let body = rands[i].1.bind(vars, k + 1, Ghost(inner.push(below.sorts.len())));
                    out.push(Abs(copy_sorts(&rands[i].0), body));
                    i += 1;
                }
                let r = Node::Op(copy_of(rator), out);
                proof {
                    let wanted = self.term().bind(names, k as nat)->Apply_1;
                    let made = r.term()->Apply_1;
                    assert forall|j: int| 0 <= j < wanted.len() implies {
                        &&& (#[trigger] wanted[j]).sorts.len() == made[j].sorts.len()
                        &&& framed_like(wanted[j].body, made[j].body)
                    } by {
                        assert(out@[j].0@.len() == rands@[j].0@.len());
                    }
                    if exact::<Op, Sort>() {
                        assert(made =~= wanted);
                    }
                }
                r
            },
        }
    }

    /// Opens the scope that lies `inner.len()` scopes above the tree, with
    /// `vars` for the variables that scope binds. `inner` holds how many
    /// variables each of the scopes in between binds. `k` is their number
    /// where it fits a `usize`; where it does not, the scope lies further out
    /// than any reference can name, and nothing is left to open.
    fn open(&self, vars: &Vec<Var<Sort>>, k: Option<usize>, Ghost(inner): Ghost<Seq<nat>>) -> (r:
        Self) where Op: Clone, Sort: Clone
        requires
            k == steps(inner.len()),
            self.term().scoped(seq![vars@.len() as nat] + inner),
        ensures
            framed_like(self.term().open(atoms(vars@), inner.len()), r.term()),
            exact::<Op, Sort>() ==> r.term() == self.term().open(atoms(vars@), inner.len()),
        decreases self,
    {
        let ghost widths = seq![vars@.len() as nat] + inner;
        match self {
            Node::BV(i, j) => match k {
                Some(k) => {
                    if *i < k {
                        Node::BV(*i, *j)
                    } else if *i == k {
                        assert(widths[widths.len() - 1 - k] == vars@.len());
                        Node::FV(vars[*j].clone())
                    } else {
                        vstd::pervasive::unreached()
                    }
                },
                None => Node::BV(*i, *j),
            },
            Node::FV(fv) => Node::FV(fv.clone()),
            Node::Op(rator, rands) => {
                let ghost names = atoms(vars@);
                let deeper = match k {
                    Some(k) => k.checked_add(1),
                    None => None,
                };
                let mut out: Vec<Abs<Op, Sort>> = Vec::new();
                let mut i: usize = 0;
                while i < rands.len()
                    invariant
                        i <= rands@.len(),
                        out@.len() == i,
                        *self == Node::<Op, Sort>::Op(*rator, *rands),
                        deeper == steps(inner.len() + 1),
                        widths == seq![vars@.len() as nat] + inner,
                        self.term().scoped(widths),
                        names == atoms(vars@),
                        forall|j: int|
                            0 <= j < i ==> {
                                &&& (#[trigger] out@[j]).0@.len() == rands@[j].0@.len()
                                &&& framed_like(
                                    rands@[j].1.term().open(names, inner.len() + 1),
                                    out@[j].1.term(),
                                )
                            },
                        exact::<Op, Sort>() ==> forall|j: int|
                            0 <= j < i ==> (#[trigger] out@[j]).scope() == (Scope {
                                sorts: rands@[j].0@,
                                body: rands@[j].1.term().open(names, inner.len() + 1),
                            }),
                    decreases rands@.len() - i,
                {
                    let ghost below = self.term()->Apply_1[i as int];
                    assert(below.body == rands@[i as int].1.term());
                    assert(below.body.scoped(widths.push(below.sorts.len())));
                    assert(widths.push(below.sorts.len()) =~= seq![vars@.len() as nat] + inner.push(
                        below.sorts.len(),
                    ));
                    let body = rands[i].1.open(vars, deeper, Ghost(inner.push(below.sorts.len())));
                    out.push(Abs(copy_sorts(&rands[i].0), body));
                    i += 1;
                }
                let r = Node::Op(copy_of(rator), out);
                proof {
                    let wanted = self.term().open(names, inner.len())->Apply_1;
                    let made = r.term()->Apply_1;
                    assert forall|j: int| 0 <= j < wanted.len() implies {
                        &&& (#[trigger] wanted[j]).sorts.len() == made[j].sorts.len()
                        &&& framed_like(wanted[j].body, made[j].body)
                    } by {
                        assert(out@[j].0@.len() == rands@[j].0@.len());
                    }
                    if exact::<Op, Sort>() {
                        assert(made =~= wanted);
                    }
                }
                r
            },
        }
    }

    /// Puts a copy of `replace` in place of every free occurrence of `var`.
    fn subst(&self, var: &Var<Sort>, replace: &Self) -> (r: Self) where Op: Clone, Sort: Clone
        ensures
            framed_like(self.term().subst(var@.id, replace.term()), r.term()),
            exact::<Op, Sort>() ==> r.term() == self.term().subst(var@.id, replace.term()),
        decreases self,
    {
        match self {
            Node::BV(i, j) => Node::BV(*i, *j),
            Node::FV(other) => {
                if *other == *var {
                    replace.duplicate()
                } else {
                    Node::FV(other.clone())
                }
            },
            Node::Op(rator, rands) => {
                let mut out: Vec<Abs<Op, Sort>> = Vec::new();
                let mut i: usize = 0;
                while i < rands.len()
                    invariant
                        i <= rands@.len(),
                        out@.len() == i,
                        *self == Node::<Op, Sort>::Op(*rator, *rands),
                        forall|j: int|
                            0 <= j < i ==> {
                                &&& (#[trigger] out@[j]).0@.len() == rands@[j].0@.len()
                                &&& framed_like(
                                    rands@[j].1.term().subst(var@.id, replace.term()),
                                    out@[j].1.term(),
                                )
                            },
                        exact::<Op, Sort>() ==> forall|j: int|
                            0 <= j < i ==> (#[trigger] out@[j]).scope() == (Scope {
                                sorts: rands@[j].0@,
                                body: rands@[j].1.term().subst(var@.id, replace.term()),
                            }),
                    decreases rands@.len() - i,
                {
                    assert(self->Op_1 == *rands);
                    out.push(Abs(copy_sorts(&rands[i].0), rands[i].1.subst(var, replace)));
                    i += 1;
                }
                let r = Node::Op(copy_of(rator), out);
                proof {
                    let wanted = self.term().subst(var@.id, replace.term())->Apply_1;
                    let made = r.term()->Apply_1;
                    assert forall|j: int| 0 <= j < wanted.len() implies {
                        &&& (#[trigger] wanted[j]).sorts.len() == made[j].sorts.len()
                        &&& framed_like(wanted[j].body, made[j].body)
                    } by {
                        assert(out@[j].0@.len() == rands@[j].0@.len());
                    }
                    if exact::<Op, Sort>() {
                        assert(made =~= wanted);
                    }
                }
                r
            },
        }
    }
}

/// The scope that each stored scope is, in order.
spec fn scopes_of<Op, Sort>(abs: Seq<Abs<Op, Sort>>) -> Seq<Scope<Op, Sort>> {
    Seq::new(abs.len(), |i: int| abs[i].scope())
}

impl<Op, Sort> Abs<Op, Sort> {
    /// What the scope offers an operator: the sorts it binds and the sort of
    /// its body under them.
    fn valence(&self) -> (v: Valence<'_, Sort>) where Op: Operator<Sort>, Sort: Clone
        requires
            self.scope().body.scoped(seq![self.scope().sorts.len()]),
        ensures
            v@.inputs == self.scope().sorts,
            cloned::<Sort>(self.scope().valence().output, v@.output),
            clones_exactly::<Sort>() ==> v@ == self.scope().valence(),
    {
        let inputs = self.0.as_slice();
        Valence::new(inputs, self.1.sort(inputs))
    }

    /// Opens the scope: mints one variable for each sort it binds, in order,
    /// and puts them in place of the references to the scope.
    fn unbind(&self, supply: &mut Supply) -> (r: AbsView<Sort, Abt<Op, Sort>>) where
        Op: Clone,
        Sort: Clone,

        requires
            self.scope().body.scoped(seq![self.scope().sorts.len()]),
            old(supply).remaining() >= self.scope().sorts.len(),
        ensures
            final(supply).issued() == old(supply).issued() + self.scope().sorts.len(),
            ids(r.atoms()) == ids(minted(old(supply).issued(), self.scope().sorts)),
            r.opening().body.closed(),
            exact::<Op, Sort>() ==> r.opening() == self.scope().open_with(
                minted(old(supply).issued(), self.scope().sorts),
            ),
    {
        let ghost start = supply.issued();
        let mut vars: Vec<Var<Sort>> = Vec::with_capacity(self.0.len());
        let mut j: usize = 0;
        while j < self.0.len()
            invariant
                j <= self.0@.len(),
                vars@.len() == j,
                supply.issued() == start + j,
                supply.remaining() >= self.0@.len() - j,
                forall|m: int|
                    0 <= m < j ==> (#[trigger] vars@[m])@.id == minted(start, self.0@)[m].id,
                clones_exactly::<Sort>() ==> forall|m: int|
                    0 <= m < j ==> (#[trigger] vars@[m])@ == minted(start, self.0@)[m],
            decreases self.0@.len() - j,
        {
            proof {
                crate::var::lemma_identity_at(start, j as nat);
            }
            vars.push(supply.fresh(copy_of(&self.0[j])));
            j += 1;
        }
        let body = self.1.open(&vars, Some(0), Ghost(Seq::empty()));
        proof {
            let opened = self.1.term().open(atoms(vars@), 0);
            assert(ids(atoms(vars@)) =~= ids(minted(start, self.0@)));
            assert(Seq::<nat>::empty() + seq![vars@.len() as nat] + Seq::<nat>::empty()
                =~= seq![vars@.len() as nat]);
            assert(Seq::<nat>::empty() + Seq::<nat>::empty() =~= Seq::<nat>::empty());
            crate::laws::lemma_open_scoped(
                self.1.term(),
                atoms(vars@),
                Seq::empty(),
                Seq::empty(),
            );
            lemma_framed_scoped(opened, body.term(), Seq::empty());
            if clones_exactly::<Sort>() {
                assert(atoms(vars@) =~= minted(start, self.0@));
            }
        }
        AbsView(vars, Abt(body))
    }
}

impl<Op, Sort> AbsView<Sort, Abt<Op, Sort>> {
    /// The opened scope as a mathematical value.
    pub open spec fn opening(&self) -> Opening<Op, Sort> {
        Opening { atoms: self.atoms(), body: self.1.term() }
    }

    /// Closes the scope: binds its variables in the body again, and keeps
    /// their sorts.
    fn bind(&self) -> (r: Abs<Op, Sort>) where Op: Clone, Sort: Clone
        requires
            self.opening().body.nests_within(usize::MAX as nat),
        ensures
            r.scope().body.scoped(seq![r.scope().sorts.len()]),
            exact::<Op, Sort>() ==> r.scope() == self.opening().close(),
    {
        let mut bound: Vec<Sort> = Vec::with_capacity(self.0.len());
        let mut j: usize = 0;
        while j < self.0.len()
            invariant
                j <= self.0@.len(),
                bound@.len() == j,
                clones_exactly::<Sort>() ==> forall|m: int|
                    0 <= m < j ==> #[trigger] bound@[m] == self.0@[m]@.sort,
            decreases self.0@.len() - j,
        {
            bound.push(copy_of(self.0[j].sort()));
            j += 1;
        }
        proof {
            use_type_invariant(&self.1);
        }
        let body = self.1.0.bind(&self.0, 0, Ghost(Seq::empty()));
        proof {
            let closed = self.1.term().bind(ids(self.atoms()), 0);
            assert(Seq::<nat>::empty() + Seq::<nat>::empty() =~= Seq::<nat>::empty());
            crate::laws::lemma_bind_scoped(
                self.1.term(),
                ids(self.atoms()),
                Seq::empty(),
                Seq::empty(),
            );
            assert(Seq::<nat>::empty() + seq![ids(self.atoms()).len()] + Seq::<nat>::empty()
                =~= seq![bound@.len()]);
            lemma_framed_scoped(closed, body.term(), seq![bound@.len()]);
            if clones_exactly::<Sort>() {
                assert(bound@ =~= sorts(self.atoms()));
            }
        }
        Abs(bound, body)
    }
}

/// Whether the scopes offer, one for one and in order, exactly the valences
/// of `arity`.
fn conforms<Op, Sort>(arity: &[Valence<'_, Sort>], abs: &Vec<Abs<Op, Sort>>) -> (ok: bool) where
    Op: Operator<Sort>,
    Sort: Clone + Eq,

    requires
        forall|i: int|
            0 <= i < abs@.len() ==> (#[trigger] abs@[i]).scope().body.scoped(
                seq![abs@[i].scope().sorts.len()],
            ),
    ensures
        clones_exactly::<Sort>() && obeys_concrete_eq::<Sort>() ==> ok == (shapes(arity@)
            == valences(scopes_of(abs@))),
{
    let ghost told = clones_exactly::<Sort>() && obeys_concrete_eq::<Sort>();
    if arity.len() != abs.len() {
        assert(shapes(arity@).len() != valences(scopes_of(abs@)).len());
        return false;
    }
    let mut i: usize = 0;
    while i < abs.len()
        invariant
            i <= abs@.len(),
            arity@.len() == abs@.len(),
            told == (clones_exactly::<Sort>() && obeys_concrete_eq::<Sort>()),
            forall|j: int|
                0 <= j < abs@.len() ==> (#[trigger] abs@[j]).scope().body.scoped(
                    seq![abs@[j].scope().sorts.len()],
                ),
            told ==> forall|j: int|
                0 <= j < i ==> (#[trigger] arity@[j])@ == abs@[j].scope().valence(),
        decreases abs@.len() - i,
    {
        let offered = abs[i].valence();
        proof {
            reveal(obeys_concrete_eq);
        }
        if !(same_sorts(arity[i].inputs, offered.inputs) && arity[i].output == offered.output) {
            proof {
                if told {
                    assert(shapes(arity@)[i as int] != valences(scopes_of(abs@))[i as int]);
                }
            }
            return false;
        }
        i += 1;
    }
    proof {
        if told {
            assert(shapes(arity@) =~= valences(scopes_of(abs@)));
        }
    }
    true
}

impl<Op, Sort> crate::view::View<Op, Sort, Abt<Op, Sort>> {
    /// The layer as a mathematical value.
    pub open spec fn layer(&self) -> Layer<Op, Sort> {
        match self {
            crate::view::View::Var(v) => Layer::Var(v@),
            crate::view::View::Op(rator, rands) => Layer::Op(
                *rator,
                Seq::new(rands@.len(), |i: int| rands@[i].opening()),
            ),
        }
    }

    /// Builds the tree that this layer is the top of, if the layer obeys the
    /// signature.
    ///
    /// A variable always does. An application does when it has as many
    /// operands as its operator declares valences and each operand, in its
    /// place, binds variables of exactly the declared sorts over a body of
    /// the declared sort. In the tree, each operand's variables are bound:
    /// their occurrences in its body have become references to the
    /// operand's scope. Whether a layer that is handed back with `Err` was
    /// short of operands, bound the wrong variables or held a body of the
    /// wrong sort is not told.
    ///
    /// Sorts are compared with `==`, so what is promised of acceptance is
    /// promised where `==` on `Sort` is equality. Depths are counted in
    /// `usize`: no operand's body may nest deeper than `usize::MAX` scopes.
    pub fn to_abt(&self) -> (r: Result<Abt<Op, Sort>, ()>) where
        Op: Clone + Operator<Sort>,
        Sort: Clone + Eq,

        requires
            forall|i: int|
                0 <= i < self.bodies().len() ==> (#[trigger] self.bodies()[i]).term().nests_within(
                    usize::MAX as nat,
                ),
        ensures
            self is Var ==> r is Ok,
            r matches Ok(tree) ==> tree.term().closed(),
            clones_exactly::<Op>() && clones_exactly::<Sort>() ==> {
                &&& r matches Ok(tree) ==> tree.term() == self.layer().roll()
                &&& obeys_concrete_eq::<Sort>() ==> (r is Ok <==> self.layer().accepted())
            },
    {
        match self {
            crate::view::View::Var(v) => Ok(Abt(Node::FV(copy_of(v)))),
            crate::view::View::Op(rator, rands) => {
                let mut abs: Vec<Abs<Op, Sort>> = Vec::new();
                let mut i: usize = 0;
                while i < rands.len()
                    invariant
                        i <= rands@.len(),
                        abs@.len() == i,
                        *self == crate::view::View::<Op, Sort, Abt<Op, Sort>>::Op(*rator, *rands),
                        forall|j: int|
                            0 <= j < self.bodies().len() ==> (
                            #[trigger] self.bodies()[j]).term().nests_within(usize::MAX as nat),
                        forall|j: int|
                            0 <= j < i ==> (#[trigger] abs@[j]).scope().body.scoped(
                                seq![abs@[j].scope().sorts.len()],
                            ),
                        exact::<Op, Sort>() ==> forall|j: int|
                            0 <= j < i ==> (#[trigger] abs@[j]).scope()
                                == rands@[j].opening().close(),
                    decreases rands@.len() - i,
                {
                    assert(self.bodies()[i as int] == rands@[i as int].1);
                    abs.push(rands[i].bind());
                    i += 1;
                }
                proof {
                    if exact::<Op, Sort>() {
                        assert(scopes_of(abs@) =~= self.layer().scopes());
                    }
                }
                if conforms(rator.arity(), &abs) {
                    let node = Node::Op(copy_of(rator), abs);
                    proof {
                        if exact::<Op, Sort>() {
                            assert(node.term()->Apply_1 =~= self.layer().scopes());
                        }
                        assert forall|j: int| 0 <= j < node.term()->Apply_1.len() implies (
                        #[trigger] node.term()->Apply_1[j]).body.scoped(
                            Seq::<nat>::empty().push(node.term()->Apply_1[j].sorts.len()),
                        ) by {
                            assert(abs@[j].scope().body.scoped(seq![abs@[j].scope().sorts.len()]));
                            assert(Seq::<nat>::empty().push(abs@[j].scope().sorts.len())
                                =~= seq![abs@[j].scope().sorts.len()]);
                        }
                    }
                    Ok(Abt(node))
                } else {
                    Err(())
                }
            },
        }
    }
}

impl<Op, Sort> Abt<Op, Sort> {
    /// The sort of the tree. A tree stands on its own, so `sorts` has no part
    /// in it: the sort is a copy of the variable's own, or the one that the
    /// operator declares for its applications.
    pub fn sort(&self, sorts: &[Sort]) -> (s: Sort) where Op: Operator<Sort>, Sort: Clone
        ensures
            cloned::<Sort>(self.term().sort_under(sorts@), s),
            clones_exactly::<Sort>() ==> s == self.term().sort_under(sorts@),
            self.term().closed(),
    {
        proof {
            use_type_invariant(self);
        }
        self.0.sort(sorts)
    }

    /// The top layer of the tree. A variable is handed out as it is. Under an
    /// operator, each scope is opened with variables minted for it by
    /// `supply`, one for each sort the scope binds, scope by scope from left
    /// to right; the bodies are trees again, to be viewed in their turn.
    ///
    /// The supply must have as many identities left as the scopes bind
    /// variables. A bound reference is never at the top of a tree, so there
    /// is always a layer to hand out.
    pub fn view(&self, supply: &mut Supply) -> (r: crate::view::View<Op, Sort, Abt<Op, Sort>>) where
        Op: Clone,
        Sort: Clone,

        requires
            old(supply).remaining() >= self.term().binders(),
        ensures
            final(supply).issued() == old(supply).issued() + self.term().binders(),
            self.term().closed(),
            forall|i: int| 0 <= i < r.bodies().len() ==> (#[trigger] r.bodies()[i]).term().closed(),
            clones_exactly::<Op>() && clones_exactly::<Sort>() ==> r.layer() == self.term().unroll(
                old(supply).issued(),
            ),
    {
        proof {
            use_type_invariant(self);
        }
        match &self.0 {
            Node::BV(_, _) => vstd::pervasive::unreached(),
            Node::FV(var) => crate::view::View::Var(copy_of(var)),
            Node::Op(rator, rands) => {
                let ghost start = supply.issued();
                let ghost scopes = self.term()->Apply_1;
                let mut out: Vec<AbsView<Sort, Abt<Op, Sort>>> = Vec::new();
                let mut i: usize = 0;
                while i < rands.len()
                    invariant
                        i <= rands@.len(),
                        out@.len() == i,
                        self.0 == Node::<Op, Sort>::Op(*rator, *rands),
                        scopes == self.term()->Apply_1,
                        self.term().closed(),
                        supply.issued() == start + binders_before(scopes, i as int),
                        supply.remaining() >= self.term().binders() - binders_before(
                            scopes,
                            i as int,
                        ),
                        forall|j: int| 0 <= j < i ==> (#[trigger] out@[j]).opening().body.closed(),
                        exact::<Op, Sort>() ==> forall|j: int|
                            0 <= j < i ==> (#[trigger] out@[j]).opening() == scopes[j].open_with(
                                minted(start + binders_before(scopes, j), scopes[j].sorts),
                            ),
                    decreases rands@.len() - i,
                {
                    proof {
                        assert(scopes[i as int] == rands@[i as int].scope());
                        assert(scopes[i as int].body.scoped(
                            Seq::<nat>::empty().push(scopes[i as int].sorts.len()),
                        ));
                        assert(Seq::<nat>::empty().push(scopes[i as int].sorts.len())
                            =~= seq![scopes[i as int].sorts.len()]);
                        crate::laws::lemma_binders_before_grows(
                            scopes,
                            i as int + 1,
                            scopes.len() as int,
                        );
                    }
                    out.push(rands[i].unbind(supply));
                    i += 1;
                }
                let r = crate::view::View::Op(copy_of(rator), out);
                proof {
                    if exact::<Op, Sort>() {
                        assert(r.layer()->Op_1 =~= self.term().unroll(start)->Op_1);
                    }
                    assert forall|j: int| 0 <= j < r.bodies().len() implies (
                    #[trigger] r.bodies()[j]).term().closed() by {
                        assert(r->Op_1@[j].opening().body.closed());
                    }
                }
                r
            },
        }
    }

    /// The tree with a copy of `replace` in place of every free occurrence
    /// of `var`. Variables are told apart by identity alone. References to
    /// bound variables are not touched, so nothing is captured: what is free
    /// in `replace` is free in the result.
    pub fn subst(&self, var: &Var<Sort>, replace: &Self) -> (r: Self) where Op: Clone, Sort: Clone
        ensures
            r.term().closed(),
            clones_exactly::<Op>() && clones_exactly::<Sort>() ==> r.term() == self.term().subst(
                var@.id,
                replace.term(),
            ),
    {
        let node = self.0.subst(var, &replace.0);
        proof {
            use_type_invariant(self);
            use_type_invariant(replace);
            let wanted = self.term().subst(var@.id, replace.term());
            crate::laws::lemma_subst_scoped(self.term(), var@.id, replace.term(), Seq::empty());
            lemma_framed_scoped(wanted, node.term(), Seq::empty());
        }
        Abt(node)
    }
}

impl<Op: Clone, Sort: Clone> Clone for Abt<Op, Sort> {
    /// A copy of the tree, equal to it where `Op` and `Sort` clone exactly.
    fn clone(&self) -> (r: Self)
        ensures
            r.term().closed(),
            clones_exactly::<Op>() && clones_exactly::<Sort>() ==> r.term() == self.term(),
    {
        let node = self.0.duplicate();
        proof {
            use_type_invariant(self);
            lemma_framed_scoped(self.term(), node.term(), Seq::empty());
        }
        Abt(node)
    }
}

impl<Op: PartialEq, Sort: PartialEq> PartialEq for Abt<Op, Sort> {
    fn eq(&self, other: &Self) -> (r: bool) {
        self.0.same(&other.0)
    }
}

impl<Op: Eq, Sort: Eq> Eq for Abt<Op, Sort> {

}

impl<Op: PartialEq, Sort: PartialEq> vstd::std_specs::cmp::PartialEqSpecImpl for Abt<Op, Sort> {
    /// `==` on trees is what `eq_spec` says wherever `==` on operators and
    /// on sorts is what theirs says.
    open spec fn obeys_eq_spec() -> bool {
        Op::obeys_eq_spec() && Sort::obeys_eq_spec()
    }

    /// Trees are equal when they have the same shape throughout, equal
    /// operators and sorts, and at each variable the same identity.
    open spec fn eq_spec(&self, other: &Self) -> bool {
        self.term().alike(other.term())
    }
}

impl<Op, Sort> From<Abt<Op, Sort>> for AbsView<Sort, Abt<Op, Sort>> {
    /// The tree as the body of a scope that binds nothing.
    fn from(abt: Abt<Op, Sort>) -> (r: Self)
        ensures
            r.opening() == (Opening { atoms: Seq::empty(), body: abt.term() }),
            r.1 == abt,
    {
        let r = AbsView(Vec::new(), abt);
        assert(r.atoms() =~= Seq::empty());
        r
    }
}

impl<Op, Sort> vstd::std_specs::convert::FromSpecImpl<Abt<Op, Sort>> for AbsView<Sort, Abt<Op, Sort>> {
    /// A `Vec` has no value in specifications, so there is none to name as
    /// the result; the contract of `from` says what it returns.
    open spec fn obeys_from_spec() -> bool {
        false
    }

    open spec fn from_spec(abt: Abt<Op, Sort>) -> Self {
        arbitrary()
    }
}

} // verus!
