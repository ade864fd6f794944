//! A stack of binding groups, searched from the innermost group outward.

use vstd::prelude::*;

verus! {

/// The bindings in scope at some point of a tree: nothing, or one more group
/// of bindings in front of an enclosing context.
pub enum Context<'a, T> {
    Empty,
    Bindings(&'a Context<'a, T>, &'a Vec<T>),
}

impl<'a, T> Context<'a, T> {
    /// Every binding in scope, the innermost group first and each group in
    /// its own order.
    pub open spec fn flat(&self) -> Seq<T>
        decreases self,
    {
        match self {
            Context::Empty => Seq::empty(),
            Context::Bindings(outer, group) => group@ + outer.flat(),
        }
    }

    /// The binding at position `var`, counting through the innermost group
    /// first and on into the enclosing ones; `None` past the last binding.
    pub fn lookup(&self, var: usize) -> (r: Option<&T>)
        ensures
            r == if var < self.flat().len() {
                Some(&self.flat()[var as int])
            } else {
                None
            },
        decreases self,
    {
        match self {
            Context::Empty => None,
            Context::Bindings(outer, group) => {
                if var < group.len() {
                    Some(&group[var])
                } else {
                    outer.lookup(var - group.len())
                }
            },
        }
    }
}

} // verus!
