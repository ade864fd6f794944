//! Trees as mathematical values.
//!
//! A [`Term`] is what a tree is, apart from how it is stored: the contracts
//! of the library are stated over terms, and over the [`Layer`] that a view
//! of a term is. Bound variables are references by position, free variables
//! are atoms, and an operator is applied to scopes.

use crate::var::{ids, minted, sorts, Atom};
use crate::{Operator, Shape};
use vstd::prelude::*;
use vstd::std_specs::cmp::PartialEqSpec;

verus! {

/// A tree: a reference to a bound variable, a free variable, or an operator
/// applied to scopes.
///
/// `Bound { depth, slot }` counts `depth` enclosing scopes outward from the
/// reference (0 is the nearest) and means variable number `slot` of the scope
/// it arrives at.
pub enum Term<Op, Sort> {
    Bound { depth: nat, slot: nat },
    Free(Atom<Sort>),
    Apply(Op, Seq<Scope<Op, Sort>>),
}

/// A scope: as many bound variables as `sorts` has entries, of those sorts,
/// over a body.
pub struct Scope<Op, Sort> {
    pub sorts: Seq<Sort>,
    pub body: Term<Op, Sort>,
}

/// An opened scope: the body with the scope's own variables made free, under
/// the atoms they were given.
pub struct Opening<Op, Sort> {
    pub atoms: Seq<Atom<Sort>>,
    pub body: Term<Op, Sort>,
}

/// The top of a tree with each scope below it opened.
pub enum Layer<Op, Sort> {
    Var(Atom<Sort>),
    Op(Op, Seq<Opening<Op, Sort>>),
}

impl<Op, Sort> Term<Op, Sort> {
    /// Abstracts the variables `ids` out of a term that stands `depth` scopes
    /// below the scope that is to bind them. Each free variable whose
    /// identity is in `ids` becomes a reference to that scope, with the
    /// position of its first occurrence in `ids` as slot. A reference that
    /// points out past the `depth` scopes crosses the new scope, and has its
    /// depth raised by one. A reference to one of the `depth` scopes stays as
    /// it is, and so does every other free variable. One is added to `depth`
    /// for each scope entered, however many variables that scope binds.
    pub open spec fn bind(self, ids: Seq<int>, depth: nat) -> Term<Op, Sort>
        decreases self,
    {
        match self {
            Term::Bound { depth: d, slot } => if d >= depth {
                Term::Bound { depth: d + 1, slot }
            } else {
                Term::Bound { depth: d, slot }
            },
            Term::Free(x) => match ids.index_of_first(x.id) {
                Some(slot) => Term::Bound { depth, slot: slot as nat },
                None => Term::Free(x),
            },
            Term::Apply(op, scopes) => Term::Apply(
                op,
                Seq::new(
                    scopes.len(),
                    |i: int|
                        if 0 <= i < scopes.len() {
                            Scope {
                                sorts: scopes[i].sorts,
                                body: scopes[i].body.bind(ids, depth + 1),
                            }
                        } else {
                            arbitrary()
                        },
                ),
            ),
        }
    }

    /// Opens the scope that lies `depth` scopes above this term: each
    /// reference to it becomes the free variable `atoms[slot]`. A reference
    /// that points out past that scope no longer crosses it, and has its
    /// depth lowered by one. A reference to a nearer scope stays as it is, and
    /// so does every free variable.
    pub open spec fn open(self, atoms: Seq<Atom<Sort>>, depth: nat) -> Term<Op, Sort>
        decreases self,
    {
        match self {
            Term::Bound { depth: d, slot } => if d == depth {
                Term::Free(atoms[slot as int])
            } else if d > depth {
                Term::Bound { depth: (d - 1) as nat, slot }
            } else {
                Term::Bound { depth: d, slot }
            },
            Term::Free(x) => Term::Free(x),
            Term::Apply(op, scopes) => Term::Apply(
                op,
                Seq::new(
                    scopes.len(),
                    |i: int|
                        if 0 <= i < scopes.len() {
                            Scope {
                                sorts: scopes[i].sorts,
                                body: scopes[i].body.open(atoms, depth + 1),
                            }
                        } else {
                            arbitrary()
                        },
                ),
            ),
        }
    }

    /// Puts `replacement` in place of every free occurrence of the variable
    /// with identity `id`. References to bound variables are not touched, and
    /// no depth is adjusted.
    pub open spec fn subst(self, id: int, replacement: Term<Op, Sort>) -> Term<Op, Sort>
        decreases self,
    {
        match self {
            Term::Bound { depth, slot } => Term::Bound { depth, slot },
            Term::Free(x) => if x.id == id {
                replacement
            } else {
                Term::Free(x)
            },
            Term::Apply(op, scopes) => Term::Apply(
                op,
                Seq::new(
                    scopes.len(),
                    |i: int|
                        if 0 <= i < scopes.len() {
                            Scope {
                                sorts: scopes[i].sorts,
                                body: scopes[i].body.subst(id, replacement),
                            }
                        } else {
                            arbitrary()
                        },
                ),
            ),
        }
    }

    /// Whether every bound reference in the term finds its binder, given the
    /// scopes that enclose the term: `widths` holds how many variables each of
    /// them binds, the outermost first. A reference finds its binder when its
    /// depth stays within the enclosing scopes and its slot within the
    /// variables of the scope it arrives at.
    pub open spec fn scoped(self, widths: Seq<nat>) -> bool
        decreases self,
    {
        match self {
            Term::Bound { depth, slot } => depth < widths.len() && slot < widths[widths.len() - 1
                - depth],
            Term::Free(_) => true,
            Term::Apply(_, scopes) => forall|i: int|
                0 <= i < scopes.len() ==> (#[trigger] scopes[i]).body.scoped(
                    widths.push(scopes[i].sorts.len()),
                ),
        }
    }

    /// Whether the term stands on its own: no reference in it points outside.
    pub open spec fn closed(self) -> bool {
        self.scoped(Seq::empty())
    }

    /// Whether no path down the term enters more than `room` scopes.
    pub open spec fn nests_within(self, room: nat) -> bool
        decreases self,
    {
        match self {
            Term::Apply(_, scopes) => room > 0 && forall|i: int|
                0 <= i < scopes.len() ==> (#[trigger] scopes[i]).body.nests_within(
                    (room - 1) as nat,
                ),
            _ => true,
        }
    }

    /// Whether the variable with identity `id` occurs free in the term.
    pub open spec fn mentions(self, id: int) -> bool
        decreases self,
    {
        match self {
            Term::Bound { .. } => false,
            Term::Free(x) => x.id == id,
            Term::Apply(_, scopes) => exists|i: int|
                0 <= i < scopes.len() && (#[trigger] scopes[i]).body.mentions(id),
        }
    }

    /// Whether the atom `x` occurs free in the term: a variable with its
    /// identity and its sort.
    pub open spec fn holds(self, x: Atom<Sort>) -> bool
        decreases self,
    {
        match self {
            Term::Bound { .. } => false,
            Term::Free(y) => y == x,
            Term::Apply(_, scopes) => exists|i: int|
                0 <= i < scopes.len() && (#[trigger] scopes[i]).body.holds(x),
        }
    }

    /// The sort of the term as the body of a scope that binds variables of
    /// the sorts `sorts`: a reference has the sort of its slot, a free
    /// variable the sort it was minted with, and an application the sort its
    /// operator declares, whatever its operands are.
    pub open spec fn sort_under(self, sorts: Seq<Sort>) -> Sort where Op: Operator<Sort> {
        match self {
            Term::Bound { slot, .. } => sorts[slot as int],
            Term::Free(x) => x.sort,
            Term::Apply(op, _) => op.spec_sort(),
        }
    }

    /// How many variables the scopes directly below the top of the term bind,
    /// all together.
    pub open spec fn binders(self) -> nat {
        match self {
            Term::Apply(_, scopes) => binders_before(scopes, scopes.len() as int),
            _ => 0,
        }
    }

    /// The top layer of the term, each scope below it opened with variables
    /// minted for it, scope by scope from left to right, by a supply that had
    /// issued `issued` identities. A bare bound reference has no layer.
    pub open spec fn unroll(self, issued: int) -> Layer<Op, Sort> {
        match self {
            Term::Bound { .. } => arbitrary(),
            Term::Free(x) => Layer::Var(x),
            Term::Apply(op, scopes) => Layer::Op(
                op,
                Seq::new(
                    scopes.len(),
                    |i: int|
                        scopes[i].open_with(
                            minted(issued + binders_before(scopes, i), scopes[i].sorts),
                        ),
                ),
            ),
        }
    }

    /// Whether `==` finds the two terms equal: the same shape throughout,
    /// with operators and sorts that are equal as their own `==` sees it,
    /// and at each variable the same identity, whatever its sort.
    pub open spec fn alike(self, other: Term<Op, Sort>) -> bool where
        Op: PartialEq,
        Sort: PartialEq,

        decreases self,
    {
        match (self, other) {
            (Term::Bound { depth, slot }, Term::Bound { depth: d, slot: s }) => depth == d && slot
                == s,
            (Term::Free(x), Term::Free(y)) => x.same(y),
            (Term::Apply(op, scopes), Term::Apply(op2, scopes2)) => {
                &&& op.eq_spec(&op2)
                &&& scopes.len() == scopes2.len()
                &&& forall|i: int|
                    0 <= i < scopes.len() ==> {
                        &&& sorts_alike((#[trigger] scopes[i]).sorts, scopes2[i].sorts)
                        &&& scopes[i].body.alike(scopes2[i].body)
                    }
            },
            _ => false,
        }
    }

    /// Whether the top of the term obeys the signature: a variable does, and
    /// an application does when its scopes offer, one for one and in order,
    /// exactly the valences that its operator declares.
    pub open spec fn conforms(self) -> bool where Op: Operator<Sort> {
        match self {
            Term::Apply(op, scopes) => op.spec_arity() == valences(scopes),
            _ => true,
        }
    }

    /// Whether every application in the term, however deep, has the operands
    /// that its operator declares: as many as the operator has valences, each
    /// binding variables of the sorts declared in its place. Nothing is asked
    /// of the sorts of the bodies, which substitution may change.
    pub open spec fn fits(self) -> bool where Op: Operator<Sort>
        decreases self,
    {
        match self {
            Term::Apply(op, scopes) => {
                &&& scopes.len() == op.spec_arity().len()
                &&& forall|i: int|
                    0 <= i < scopes.len() ==> {
                        &&& (#[trigger] scopes[i]).sorts == op.spec_arity()[i].inputs
                        &&& scopes[i].body.fits()
                    }
            },
            _ => true,
        }
    }

    /// Whether every variable that occurs free in the term has an identity
    /// of at most `issued`, as every variable has that a supply minted before
    /// it had issued more than `issued` identities.
    pub open spec fn known_by(self, issued: int) -> bool {
        forall|id: int| #[trigger] self.mentions(id) ==> id <= issued
    }

    /// Whether unrolling the term with a supply that had issued `issued`
    /// identities opens each scope with variables that are new to it: none of
    /// the variables minted for a scope occurs free in that scope's body.
    pub open spec fn unrolls_apart(self, issued: int) -> bool {
        match self {
            Term::Apply(_, scopes) => forall|i: int|
                0 <= i < scopes.len() ==> (#[trigger] scopes[i]).apart_from(
                    minted(issued + binders_before(scopes, i), scopes[i].sorts),
                ),
            _ => true,
        }
    }
}

/// Whether `==` finds the two runs of sorts equal: the same length, and at
/// each place sorts that are equal as `Sort`'s own `==` sees it.
pub open spec fn sorts_alike<Sort: PartialEq>(a: Seq<Sort>, b: Seq<Sort>) -> bool {
    a.len() == b.len() && forall|i: int| 0 <= i < a.len() ==> (#[trigger] a[i]).eq_spec(&b[i])
}

/// How many variables the first `n` of `scopes` bind, all together.
pub open spec fn binders_before<Op, Sort>(scopes: Seq<Scope<Op, Sort>>, n: int) -> nat
    decreases n,
{
    if n <= 0 {
        0
    } else {
        binders_before(scopes, n - 1) + scopes[n - 1].sorts.len()
    }
}

impl<Op, Sort> Scope<Op, Sort> {
    /// The scope opened with `atoms` for its variables.
    pub open spec fn open_with(self, atoms: Seq<Atom<Sort>>) -> Opening<Op, Sort> {
        Opening { atoms, body: self.body.open(atoms, 0) }
    }

    /// Whether none of `atoms` occurs free in the body of the scope.
    pub open spec fn apart_from(self, atoms: Seq<Atom<Sort>>) -> bool {
        forall|k: int| 0 <= k < atoms.len() ==> !self.body.mentions(#[trigger] atoms[k].id)
    }

    /// What the scope offers an operator: the sorts it binds, and the sort of
    /// its body under them.
    pub open spec fn valence(self) -> Shape<Sort> where Op: Operator<Sort> {
        Shape { inputs: self.sorts, output: self.body.sort_under(self.sorts) }
    }
}

impl<Op, Sort> Opening<Op, Sort> {
    /// The scope that binds the opening's variables again, with their sorts.
    pub open spec fn close(self) -> Scope<Op, Sort> {
        Scope { sorts: sorts(self.atoms), body: self.body.bind(ids(self.atoms), 0) }
    }
}

impl<Op, Sort> Layer<Op, Sort> {
    /// The scopes that the layer's openings close to, from left to right.
    pub open spec fn scopes(self) -> Seq<Scope<Op, Sort>> {
        match self {
            Layer::Var(_) => Seq::empty(),
            Layer::Op(_, openings) => Seq::new(openings.len(), |i: int| openings[i].close()),
        }
    }

    /// The term that the layer is the top of.
    pub open spec fn roll(self) -> Term<Op, Sort> {
        match self {
            Layer::Var(x) => Term::Free(x),
            Layer::Op(op, _) => Term::Apply(op, self.scopes()),
        }
    }

    /// Whether every variable that occurs free in the layer, which is to
    /// say its own variable or one in the bodies of its openings, has an
    /// identity of at most `issued`.
    pub open spec fn known_by(self, issued: int) -> bool {
        match self {
            Layer::Var(x) => x.id <= issued,
            Layer::Op(_, openings) => forall|i: int|
                0 <= i < openings.len() ==> (#[trigger] openings[i]).body.known_by(issued),
        }
    }

    /// Whether the body of every opening of the layer fits the signature.
    pub open spec fn bodies_fit(self) -> bool where Op: Operator<Sort> {
        match self {
            Layer::Var(_) => true,
            Layer::Op(_, openings) => forall|i: int|
                0 <= i < openings.len() ==> (#[trigger] openings[i]).body.fits(),
        }
    }

    /// Whether the layer obeys the signature: a variable always does, and an
    /// application does when its scopes offer, one for one and in order,
    /// exactly the valences that its operator declares.
    pub open spec fn accepted(self) -> bool where Op: Operator<Sort> {
        match self {
            Layer::Var(_) => true,
            Layer::Op(op, _) => op.spec_arity() == valences(self.scopes()),
        }
    }

    /// Whether an application has as many operands as its operator declares
    /// valences.
    pub open spec fn count_matches(self) -> bool where Op: Operator<Sort> {
        match self {
            Layer::Var(_) => true,
            Layer::Op(op, openings) => openings.len() == op.spec_arity().len(),
        }
    }

    /// Whether each operand of an application binds as many variables as the
    /// valence in its place declares, and of the declared sorts.
    pub open spec fn binders_match(self) -> bool where Op: Operator<Sort> {
        match self {
            Layer::Var(_) => true,
            Layer::Op(op, openings) => forall|i: int|
                0 <= i < openings.len() && i < op.spec_arity().len() ==> sorts(
                    (#[trigger] openings[i]).atoms,
                ) == op.spec_arity()[i].inputs,
        }
    }

    /// Whether the body of each operand of an application, with the
    /// operand's variables bound in it, has the sort that the valence in its
    /// place declares.
    pub open spec fn bodies_match(self) -> bool where Op: Operator<Sort> {
        match self {
            Layer::Var(_) => true,
            Layer::Op(op, openings) => forall|i: int|
                0 <= i < openings.len() && i < op.spec_arity().len() ==> (
                #[trigger] openings[i]).close().valence().output == op.spec_arity()[i].output,
        }
    }
}

/// The valence of each scope, in order.
pub open spec fn valences<Op: Operator<Sort>, Sort>(scopes: Seq<Scope<Op, Sort>>) -> Seq<
    Shape<Sort>,
> {
    Seq::new(scopes.len(), |i: int| scopes[i].valence())
}

} // verus!
