//! One layer of a tree, with its bound variables given names.
//!
//! A [`View`] is what a client matches on and builds: a variable, or an
//! operator applied to scopes whose bound variables are ordinary [`Var`]s.
//! What lies below the layer is left as it is, of type `T`.

use crate::var::{atoms, Atom, Var};
use vstd::prelude::*;
use vstd::view::View as _;

verus! {

/// `b` may be what cloning the variable `a` gives: the same identity, with a
/// sort that is a clone of `a`'s.
pub open spec fn clone_of_atom<Sort: Clone>(a: Atom<Sort>, b: Atom<Sort>) -> bool {
    a.same(b) && cloned::<Sort>(a.sort, b.sort)
}

/// Whether `copies` holds clones of `vars`, one for one and in order.
pub open spec fn clones_of_atoms<Sort: Clone>(
    vars: Seq<Atom<Sort>>,
    copies: Seq<Atom<Sort>>,
) -> bool {
    &&& vars.len() == copies.len()
    &&& forall|i: int| 0 <= i < vars.len() ==> clone_of_atom(vars[i], #[trigger] copies[i])
}

/// A variable, or an operator applied to opened scopes.
#[derive(Debug, PartialEq, Eq)]
pub enum View<Op, Sort, T> {
    Var(Var<Sort>),
    Op(Op, Vec<AbsView<Sort, T>>),
}

/// An opened scope: the variables it binds, and the body they are bound in.
#[derive(Debug, PartialEq, Eq)]
pub struct AbsView<Sort, T>(pub Vec<Var<Sort>>, pub T);

/// Clones of the variables, one for one and in order.
fn clone_vars<Sort: Clone>(vars: &Vec<Var<Sort>>) -> (copies: Vec<Var<Sort>>)
    ensures
        clones_of_atoms(atoms(vars@), atoms(copies@)),
{
    let copies = vars.clone();
    assert forall|i: int| 0 <= i < vars@.len() implies clone_of_atom(
        atoms(vars@)[i],
        #[trigger] atoms(copies@)[i],
    ) by {
        assert(cloned::<Var<Sort>>(vars@[i], copies@[i]));
    }
    copies
}

impl<Sort, T> AbsView<Sort, T> {
    /// The atoms of the variables this scope binds, in binding order.
    pub open spec fn atoms(&self) -> Seq<Atom<Sort>> {
        atoms(self.0@)
    }

    /// Whether `other` is this scope carried over to other bodies: it binds
    /// clones of the same variables, over a body that `bodies` relates this
    /// one's body to.
    pub open spec fn carried_to<U>(
        &self,
        other: &AbsView<Sort, U>,
        bodies: spec_fn(T, U) -> bool,
    ) -> bool where Sort: Clone {
        clones_of_atoms(self.atoms(), other.atoms()) && bodies(self.1, other.1)
    }

    /// The same scope over the body that `f` makes of this one's body.
    pub fn map<U, F>(&self, f: F) -> (r: AbsView<Sort, U>) where
        Sort: Clone,
        F: FnOnce(&T) -> U,

        requires
            call_requires(f, (&self.1,)),
        ensures
            self.carried_to(&r, |x: T, y: U| call_ensures(f, (&x,), y)),
    {
        AbsView(clone_vars(&self.0), f(&self.1))
    }
}

impl<Sort: Clone, T: Clone> Clone for AbsView<Sort, T> {
    /// A scope that binds clones of the same variables over a clone of the
    /// body.
    fn clone(&self) -> (r: Self)
        ensures
            self.carried_to(&r, |x: T, y: T| cloned::<T>(x, y)),
    {
        let body = self.1.clone();
        assert(cloned::<T>(self.1, body));
        AbsView(clone_vars(&self.0), body)
    }
}

impl<Op, Sort, T> View<Op, Sort, T> {
    /// The bodies directly below this layer, from left to right.
    pub open spec fn bodies(&self) -> Seq<T> {
        match self {
            View::Var(_) => Seq::empty(),
            View::Op(_, rands) => Seq::new(rands@.len(), |i: int| rands@[i].1),
        }
    }

    /// Whether `other` is this layer carried over to other bodies: a clone of
    /// the same variable, or a clone of the operator applied to as many
    /// scopes, each of them the scope in its place carried over.
    pub open spec fn carried_to<U>(
        &self,
        other: &View<Op, Sort, U>,
        bodies: spec_fn(T, U) -> bool,
    ) -> bool where Op: Clone, Sort: Clone {
        match (self, other) {
            (View::Var(v), View::Var(w)) => clone_of_atom(v@, w@),
            (View::Op(rator, rands), View::Op(rator2, rands2)) => {
                &&& cloned::<Op>(*rator, *rator2)
                &&& rands@.len() == rands2@.len()
                &&& forall|i: int|
                    0 <= i < rands@.len() ==> rands@[i].carried_to(&#[trigger] rands2@[i], bodies)
            },
            _ => false,
        }
    }

    /// The same layer with `f` applied to the body of each scope, from left
    /// to right.
    pub fn map<U, F>(&self, mut f: F) -> (r: View<Op, Sort, U>) where
        Op: Clone,
        Sort: Clone,
        F: FnMut(&T) -> U,

        requires
            forall|i: int| 0 <= i < self.bodies().len() ==> call_requires(f, (&self.bodies()[i],)),
        ensures
            self.carried_to(&r, |x: T, y: U| call_ensures(f, (&x,), y)),
    {
        let ghost given = f;
        let ghost made = |x: T, y: U| call_ensures(given, (&x,), y);
        match self {
            View::Var(v) => View::Var(v.clone()),
            View::Op(rator, rands) => {
                let mut out: Vec<AbsView<Sort, U>> = Vec::new();
                let mut i: usize = 0;
                while i < rands.len()
                    invariant
                        f == given,
                        made == |x: T, y: U| call_ensures(given, (&x,), y),
                        i <= rands@.len(),
                        out@.len() == i,
                        *self == View::<Op, Sort, T>::Op(*rator, *rands),
                        forall|j: int|
                            0 <= j < self.bodies().len() ==> call_requires(
                                f,
                                (&self.bodies()[j],),
                            ),
                        forall|j: int|
                            0 <= j < i ==> rands@[j].carried_to(&#[trigger] out@[j], made),
                    decreases rands@.len() - i,
                {
                    assert(self.bodies()[i as int] == rands@[i as int].1);
                    let vars = clone_vars(&rands[i].0);
                    let body = f(&rands[i].1);
                    out.push(AbsView(vars, body));
                    i += 1;
                }
                let rator2 = rator.clone();
                assert(cloned::<Op>(*rator, rator2));
                View::Op(rator2, out)
            },
        }
    }
}

impl<Op: Clone, Sort: Clone, T: Clone> Clone for View<Op, Sort, T> {
    /// A layer with a clone of the same variable, or a clone of the operator
    /// over clones of the scopes.
    fn clone(&self) -> (r: Self)
        ensures
            self.carried_to(&r, |x: T, y: T| cloned::<T>(x, y)),
    {
        let ghost made = |x: T, y: T| cloned::<T>(x, y);
        match self {
            View::Var(v) => View::Var(v.clone()),
            View::Op(rator, rands) => {
                let mut out: Vec<AbsView<Sort, T>> = Vec::new();
                let mut i: usize = 0;
                while i < rands.len()
                    invariant
                        made == |x: T, y: T| cloned::<T>(x, y),
                        i <= rands@.len(),
                        out@.len() == i,
                        forall|j: int|
                            0 <= j < i ==> rands@[j].carried_to(&#[trigger] out@[j], made),
                    decreases rands@.len() - i,
                {
                    out.push(rands[i].clone());
                    i += 1;
                }
                let rator2 = rator.clone();
                assert(cloned::<Op>(*rator, rator2));
                View::Op(rator2, out)
            },
        }
    }
}

} // verus!
