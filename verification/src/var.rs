//! Variables and the supply that mints them.
//!
//! A variable is known by its identity alone. Identities come from a
//! [`Supply`], which counts upward and never hands out a number twice.

use vstd::prelude::*;

verus! {

/// What a variable is in specifications: the identity it was minted with and
/// the sort it was tagged with. A variable's display name is no part of it.
pub struct Atom<Sort> {
    pub id: int,
    pub sort: Sort,
}

impl<Sort> Atom<Sort> {
    /// Two atoms denote the same variable exactly when their identities
    /// agree, whatever their sorts.
    pub open spec fn same(self, other: Atom<Sort>) -> bool {
        self.id == other.id
    }
}

/// The atoms of a run of variables, in order.
pub open spec fn atoms<Sort>(vars: Seq<Var<Sort>>) -> Seq<Atom<Sort>> {
    Seq::new(vars.len(), |i: int| vars[i]@)
}

/// The identities of a run of atoms, in order.
pub open spec fn ids<Sort>(atoms: Seq<Atom<Sort>>) -> Seq<int> {
    Seq::new(atoms.len(), |i: int| atoms[i].id)
}

/// The sorts of a run of atoms, in order.
pub open spec fn sorts<Sort>(atoms: Seq<Atom<Sort>>) -> Seq<Sort> {
    Seq::new(atoms.len(), |i: int| atoms[i].sort)
}

/// A type whose `clone` hands back a value equal to the one it was given.
/// Trees treat operators and sorts as values, and copy them freely: what is
/// said of a tree after an operation holds where they are such types.
pub open spec fn clones_exactly<T: Clone>() -> bool {
    forall|a: T, b: T| cloned::<T>(a, b) ==> a == b
}

/// A sort-tagged variable. Only a [`Supply`] creates one.
#[derive(Debug)]
pub struct Var<Sort> {
    id: i32,
    sort: Sort,
    name: Option<String>,
}

impl<Sort> View for Var<Sort> {
    type V = Atom<Sort>;

    closed spec fn view(&self) -> Atom<Sort> {
        Atom { id: self.id as int, sort: self.sort }
    }
}

impl<Sort> Var<Sort> {
    /// The sort this variable was minted with.
    pub fn sort(&self) -> (s: &Sort)
        ensures
            *s == self@.sort,
    {
        &self.sort
    }
}

impl<Sort: Clone> Clone for Var<Sort> {
    /// A clone is the same variable: it keeps the identity whatever `Sort`
    /// does when cloned, and keeps the sort too when `Sort` clones exactly.
    fn clone(&self) -> (r: Self)
        ensures
            r@.same(self@),
            cloned::<Sort>(self@.sort, r@.sort),
            clones_exactly::<Sort>() ==> r@ == self@,
    {
        Var { id: self.id, sort: self.sort.clone(), name: self.name.clone() }
    }
}

impl<Sort> PartialEq for Var<Sort> {
    fn eq(&self, other: &Self) -> (r: bool) {
        self.id == other.id
    }
}

impl<Sort> Eq for Var<Sort> {

}

impl<Sort> vstd::std_specs::cmp::PartialEqSpecImpl for Var<Sort> {
    open spec fn obeys_eq_spec() -> bool {
        true
    }

    /// Variables are equal when their identities are, whatever their sorts.
    open spec fn eq_spec(&self, other: &Self) -> bool {
        self@.same(other@)
    }
}

/// A source of identities. It has no hidden state: whoever holds the supply
/// decides which variables are fresh with respect to which.
pub struct Supply {
    counter: i32,
}

impl Supply {
    /// How many identities this supply has handed out. It is also the last
    /// identity handed out, since they are issued as 1, 2, 3, ...
    pub closed spec fn issued(&self) -> int {
        self.counter as int
    }

    /// How many more identities this supply can hand out: identities are
    /// 32-bit numbers.
    pub open spec fn remaining(&self) -> int {
        i32::MAX - self.issued()
    }

    /// A supply that has issued nothing yet.
    pub fn new() -> (s: Supply)
        ensures
            s.issued() == 0,
    {
        Supply { counter: 0 }
    }

    /// Mints a variable of the given sort. Its identity is one more than the
    /// last identity this supply has issued, and so greater than all of them.
    pub fn fresh<Sort>(&mut self, sort: Sort) -> (v: Var<Sort>)
        requires
            old(self).remaining() > 0,
        ensures
            v@ == (Atom { id: old(self).issued() + 1, sort }),
            final(self).issued() == old(self).issued() + 1,
    {
        self.counter += 1;
        Var { id: self.counter, sort, name: None }
    }
}

impl Default for Supply {
    /// A supply that has issued nothing yet.
    fn default() -> (s: Supply)
        ensures
            s.issued() == 0,
    {
        Supply::new()
    }
}

/// The identity handed out by call number `k` of `fresh`, counting from 0, on
/// a supply that had issued `issued` identities before the first of the
/// calls: each call hands out one more than the count before it, and leaves
/// the count one higher.
pub open spec fn identity_at(issued: int, k: nat) -> int
    decreases k,
{
    if k == 0 {
        issued + 1
    } else {
        identity_at(issued + 1, (k - 1) as nat)
    }
}

/// The atoms of the variables minted by `sorts.len()` calls of `fresh` in a
/// row, one for each sort, on a supply that had issued `issued` identities.
pub open spec fn minted<Sort>(issued: int, sorts: Seq<Sort>) -> Seq<Atom<Sort>> {
    Seq::new(sorts.len(), |k: int| Atom { id: identity_at(issued, k as nat), sort: sorts[k] })
}

/// Identities are consecutive integers above the count already issued.
pub proof fn lemma_identity_at(issued: int, k: nat)
    ensures
        identity_at(issued, k) == issued + k + 1,
    decreases k,
{
    if k > 0 {
        lemma_identity_at(issued + 1, (k - 1) as nat);
    }
}

/// Every identity a supply hands out is greater than all it has issued
/// before, however many calls lie between.
pub proof fn lemma_identities_increase(issued: int, i: nat, j: nat)
    requires
        i < j,
    ensures
        issued < identity_at(issued, i) < identity_at(issued, j),
{
    lemma_identity_at(issued, i);
    lemma_identity_at(issued, j);
}

/// A supply never hands out the same identity twice, over any number of
/// calls of `fresh`.
pub proof fn lemma_supply_never_repeats(issued: int, i: nat, j: nat)
    requires
        i != j,
    ensures
        identity_at(issued, i) != identity_at(issued, j),
{
    lemma_identity_at(issued, i);
    lemma_identity_at(issued, j);
}

/// Variables minted one after another are never equal to each other,
/// whether their sorts are the same or not.
pub proof fn lemma_minted_differ<Sort>(issued: int, sorts: Seq<Sort>, i: int, j: int)
    requires
        0 <= i < sorts.len(),
        0 <= j < sorts.len(),
        i != j,
    ensures
        !minted(issued, sorts)[i].same(minted(issued, sorts)[j]),
{
    lemma_supply_never_repeats(issued, i as nat, j as nat);
}

} // verus!
