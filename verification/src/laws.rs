//! What holds of binding, opening and substitution, proved once and for all.
//!
//! The laws are stated over [`Term`] and [`Layer`], the values that the
//! contracts of the library speak of, and hold of every term: they do not
//! depend on how a tree is stored.

use crate::term::{binders_before, valences, Layer, Scope, Term};
use crate::var::{ids, lemma_identity_at, minted, sorts, Atom};
use crate::Operator;
use vstd::prelude::*;
use vstd::std_specs::cmp::PartialEqSpec;

verus! {

/// Scoping does not depend on what lies further out: a term whose references
/// find their binders within `widths` finds them as well when more scopes
/// enclose it.
pub proof fn lemma_scoped_weaken<Op, Sort>(t: Term<Op, Sort>, outer: Seq<nat>, widths: Seq<nat>)
    requires
        t.scoped(widths),
    ensures
        t.scoped(outer + widths),
    decreases t,
{
    match t {
        Term::Apply(_, scopes) => {
            let all = outer + widths;
            assert forall|i: int| 0 <= i < scopes.len() implies (#[trigger] scopes[i]).body.scoped(
                all.push(scopes[i].sorts.len()),
            ) by {
                let w = scopes[i].sorts.len();
                lemma_scoped_weaken(scopes[i].body, outer, widths.push(w));
                assert(outer + widths.push(w) =~= all.push(w));
            }
        },
        _ => {},
    }
}

/// Binding gives the references it makes a binder, and keeps every other
/// reference on its own: a term that is scoped within some scopes is, once
/// bound, scoped within the same scopes with the new one put in where it
/// binds, `inner.len()` scopes above the term.
pub proof fn lemma_bind_scoped<Op, Sort>(
    t: Term<Op, Sort>,
    ids: Seq<int>,
    outer: Seq<nat>,
    inner: Seq<nat>,
)
    requires
        t.scoped(outer + inner),
    ensures
        t.bind(ids, inner.len()).scoped(outer + seq![ids.len()] + inner),
    decreases t,
{
    let before = outer + inner;
    let after = outer + seq![ids.len()] + inner;
    match t {
        Term::Bound { depth, slot } => {
            if depth < inner.len() {
                assert(after[after.len() - 1 - depth] == before[before.len() - 1 - depth]);
            } else {
                assert(after[after.len() - 1 - (depth + 1)] == before[before.len() - 1 - depth]);
            }
        },
        Term::Free(x) => {
            ids.index_of_first_ensures(x.id);
            assert(after[after.len() - 1 - inner.len()] == ids.len());
        },
        Term::Apply(_, scopes) => {
            let made = t.bind(ids, inner.len())->Apply_1;
            assert forall|i: int| 0 <= i < made.len() implies (#[trigger] made[i]).body.scoped(
                after.push(made[i].sorts.len()),
            ) by {
                let w = scopes[i].sorts.len();
                assert(outer + inner.push(w) =~= before.push(w));
                lemma_bind_scoped(scopes[i].body, ids, outer, inner.push(w));
                assert(outer + seq![ids.len()] + inner.push(w) =~= after.push(w));
            }
        },
    }
}

/// Opening uses up the scope it opens, and keeps every other reference on
/// its own: a term that is scoped within some scopes, the one to be opened
/// `inner.len()` scopes above it, is afterwards scoped within the others.
pub proof fn lemma_open_scoped<Op, Sort>(
    t: Term<Op, Sort>,
    atoms: Seq<Atom<Sort>>,
    outer: Seq<nat>,
    inner: Seq<nat>,
)
    requires
        t.scoped(outer + seq![atoms.len()] + inner),
    ensures
        t.open(atoms, inner.len()).scoped(outer + inner),
    decreases t,
{
    let before = outer + seq![atoms.len()] + inner;
    let after = outer + inner;
    match t {
        Term::Bound { depth, slot } => {
            if depth < inner.len() {
                assert(before[before.len() - 1 - depth] == after[after.len() - 1 - depth]);
            } else if depth > inner.len() {
                assert(before[before.len() - 1 - depth] == after[after.len() - 1 - (depth - 1)]);
            }
        },
        Term::Free(_) => {},
        Term::Apply(_, scopes) => {
            let made = t.open(atoms, inner.len())->Apply_1;
            assert forall|i: int| 0 <= i < made.len() implies (#[trigger] made[i]).body.scoped(
                after.push(made[i].sorts.len()),
            ) by {
                let w = scopes[i].sorts.len();
                assert(outer + seq![atoms.len()] + inner.push(w) =~= before.push(w));
                lemma_open_scoped(scopes[i].body, atoms, outer, inner.push(w));
                assert(outer + inner.push(w) =~= after.push(w));
            }
        },
    }
}

/// Substitution keeps a term scoped, as long as what is put in stands on its
/// own.
pub proof fn lemma_subst_scoped<Op, Sort>(
    t: Term<Op, Sort>,
    id: int,
    replacement: Term<Op, Sort>,
    widths: Seq<nat>,
)
    requires
        t.scoped(widths),
        replacement.closed(),
    ensures
        t.subst(id, replacement).scoped(widths),
    decreases t,
{
    match t {
        Term::Bound { .. } => {},
        Term::Free(x) => {
            if x.id == id {
                lemma_scoped_weaken(replacement, widths, Seq::empty());
                assert(widths + Seq::<nat>::empty() =~= widths);
            }
        },
        Term::Apply(_, scopes) => {
            let made = t.subst(id, replacement)->Apply_1;
            assert forall|i: int| 0 <= i < made.len() implies (#[trigger] made[i]).body.scoped(
                widths.push(made[i].sorts.len()),
            ) by {
                let w = scopes[i].sorts.len();
                lemma_subst_scoped(scopes[i].body, id, replacement, widths.push(w));
            }
        },
    }
}

/// Binding changes no nesting: it turns leaves into leaves.
pub proof fn lemma_bind_nests<Op, Sort>(t: Term<Op, Sort>, ids: Seq<int>, depth: nat, room: nat)
    ensures
        t.bind(ids, depth).nests_within(room) == t.nests_within(room),
    decreases t,
{
    match t {
        Term::Apply(_, scopes) => {
            let bound = t.bind(ids, depth);
            let made = bound->Apply_1;
            if room > 0 {
                let less = (room - 1) as nat;
                assert forall|i: int| 0 <= i < scopes.len() implies (
                #[trigger] made[i]).body.nests_within(less) == scopes[i].body.nests_within(less) by {
                    lemma_bind_nests(scopes[i].body, ids, depth + 1, less);
                }
                if t.nests_within(room) {
                    assert forall|i: int| 0 <= i < made.len() implies (
                    #[trigger] made[i]).body.nests_within(less) by {
                        assert(scopes[i].body.nests_within(less));
                    }
                }
                if bound.nests_within(room) {
                    assert forall|i: int| 0 <= i < scopes.len() implies (
                    #[trigger] scopes[i]).body.nests_within(less) by {
                        assert(made[i].body.nests_within(less));
                    }
                }
            }
        },
        _ => {},
    }
}

/// Opening changes no nesting: it turns leaves into leaves.
pub proof fn lemma_open_nests<Op, Sort>(
    t: Term<Op, Sort>,
    atoms: Seq<Atom<Sort>>,
    depth: nat,
    room: nat,
)
    ensures
        t.open(atoms, depth).nests_within(room) == t.nests_within(room),
    decreases t,
{
    match t {
        Term::Apply(_, scopes) => {
            let opened = t.open(atoms, depth);
            let made = opened->Apply_1;
            if room > 0 {
                let less = (room - 1) as nat;
                assert forall|i: int| 0 <= i < scopes.len() implies (
                #[trigger] made[i]).body.nests_within(less) == scopes[i].body.nests_within(less) by {
                    lemma_open_nests(scopes[i].body, atoms, depth + 1, less);
                }
                if t.nests_within(room) {
                    assert forall|i: int| 0 <= i < made.len() implies (
                    #[trigger] made[i]).body.nests_within(less) by {
                        assert(scopes[i].body.nests_within(less));
                    }
                }
                if opened.nests_within(room) {
                    assert forall|i: int| 0 <= i < scopes.len() implies (
                    #[trigger] scopes[i]).body.nests_within(less) by {
                        assert(made[i].body.nests_within(less));
                    }
                }
            }
        },
        _ => {},
    }
}

/// A term that nests within some room nests within any larger room.
pub proof fn lemma_nests_more<Op, Sort>(t: Term<Op, Sort>, room: nat, more: nat)
    requires
        t.nests_within(room),
        room <= more,
    ensures
        t.nests_within(more),
    decreases t,
{
    match t {
        Term::Apply(_, scopes) => {
            let less = (more - 1) as nat;
            assert forall|i: int| 0 <= i < scopes.len() implies (
            #[trigger] scopes[i]).body.nests_within(less) by {
                lemma_nests_more(scopes[i].body, (room - 1) as nat, less);
            }
        },
        _ => {},
    }
}

/// Substitution nests no deeper than the term and what is put in, one below
/// the other.
pub proof fn lemma_subst_nests<Op, Sort>(
    t: Term<Op, Sort>,
    id: int,
    replacement: Term<Op, Sort>,
    room: nat,
    more: nat,
)
    requires
        t.nests_within(room),
        replacement.nests_within(more),
    ensures
        t.subst(id, replacement).nests_within(room + more),
    decreases t,
{
    match t {
        Term::Bound { .. } => {},
        Term::Free(x) => {
            if x.id == id {
                lemma_nests_more(replacement, more, room + more);
            }
        },
        Term::Apply(_, scopes) => {
            let made = t.subst(id, replacement)->Apply_1;
            let less = (room + more - 1) as nat;
            assert forall|i: int| 0 <= i < made.len() implies (
            #[trigger] made[i]).body.nests_within(less) by {
                lemma_subst_nests(scopes[i].body, id, replacement, (room - 1) as nat, more);
            }
        },
    }
}

/// Binding undoes opening. Open a scope with variables that are distinct and
/// that do not occur in its body, bind the same variables again, and the
/// body is what it was: each reference is back at its depth and its slot,
/// however many scopes lie between and however many variables each binds.
pub proof fn lemma_bind_undoes_open<Op, Sort>(
    t: Term<Op, Sort>,
    atoms: Seq<Atom<Sort>>,
    outer: Seq<nat>,
    inner: Seq<nat>,
)
    requires
        t.scoped(outer + seq![atoms.len()] + inner),
        forall|i: int, j: int| 0 <= i < j < atoms.len() ==> atoms[i].id != atoms[j].id,
        forall|j: int| 0 <= j < atoms.len() ==> !t.mentions(#[trigger] atoms[j].id),
    ensures
        t.open(atoms, inner.len()).bind(ids(atoms), inner.len()) == t,
    decreases t,
{
    let depth = inner.len();
    let widths = outer + seq![atoms.len()] + inner;
    match t {
        Term::Bound { depth: d, slot } => {
            if d == depth {
                assert(widths[widths.len() - 1 - d] == atoms.len());
                ids(atoms).index_of_first_ensures(atoms[slot as int].id);
                assert(ids(atoms)[slot as int] == atoms[slot as int].id);
                let found = ids(atoms).index_of_first(atoms[slot as int].id);
                assert(found is Some);
                assert(ids(atoms)[found->0] == atoms[found->0].id);
                assert(found->0 == slot);
            }
        },
        Term::Free(x) => {
            ids(atoms).index_of_first_ensures(x.id);
            if ids(atoms).contains(x.id) {
                let j = choose|j: int| 0 <= j < ids(atoms).len() && ids(atoms)[j] == x.id;
                assert(t.mentions(atoms[j].id));
            }
        },
        Term::Apply(_, scopes) => {
            let back = t.open(atoms, depth).bind(ids(atoms), depth)->Apply_1;
            assert forall|i: int| 0 <= i < scopes.len() implies back[i] == scopes[i] by {
                let w = scopes[i].sorts.len();
                assert(outer + seq![atoms.len()] + inner.push(w) =~= widths.push(w));
                assert forall|j: int| 0 <= j < atoms.len() implies !scopes[i].body.mentions(
                    #[trigger] atoms[j].id,
                ) by {
                    if scopes[i].body.mentions(atoms[j].id) {
                        assert(t.mentions(atoms[j].id));
                    }
                }
                lemma_bind_undoes_open(scopes[i].body, atoms, outer, inner.push(w));
            }
            assert(back =~= scopes);
        },
    }
}

/// Opening undoes binding. Bind variables out of a term, open the new scope
/// with the same variables, and the term is what it was. "The same
/// variables" means that each free variable of the term whose identity is
/// among those bound is the atom that stands first for that identity.
pub proof fn lemma_open_undoes_bind<Op, Sort>(
    t: Term<Op, Sort>,
    atoms: Seq<Atom<Sort>>,
    depth: nat,
)
    requires
        forall|x: Atom<Sort>| #[trigger]
            t.holds(x) ==> match ids(atoms).index_of_first(x.id) {
                Some(j) => atoms[j] == x,
                None => true,
            },
    ensures
        t.bind(ids(atoms), depth).open(atoms, depth) == t,
    decreases t,
{
    match t {
        Term::Bound { .. } => {},
        Term::Free(x) => {
            assert(t.holds(x));
            ids(atoms).index_of_first_ensures(x.id);
        },
        Term::Apply(_, scopes) => {
            let back = t.bind(ids(atoms), depth).open(atoms, depth)->Apply_1;
            assert forall|i: int| 0 <= i < scopes.len() implies back[i] == scopes[i] by {
                assert forall|x: Atom<Sort>| #[trigger]
                    scopes[i].body.holds(x) implies match ids(atoms).index_of_first(x.id) {
                    Some(j) => atoms[j] == x,
                    None => true,
                } by {
                    assert(t.holds(x));
                }
                lemma_open_undoes_bind(scopes[i].body, atoms, depth + 1);
            }
            assert(back =~= scopes);
        },
    }
}

/// Binding takes exactly the named variables out of a term: afterwards a
/// variable occurs free when it occurred free before and is not among those
/// bound. Every occurrence of a bound variable has become a reference, and
/// no occurrence of another variable has.
pub proof fn lemma_bind_mentions<Op, Sort>(t: Term<Op, Sort>, bound: Seq<int>, depth: nat, id: int)
    ensures
        t.bind(bound, depth).mentions(id) <==> t.mentions(id) && !bound.contains(id),
    decreases t,
{
    match t {
        Term::Bound { .. } => {},
        Term::Free(x) => {
            bound.index_of_first_ensures(x.id);
        },
        Term::Apply(_, scopes) => {
            let result = t.bind(bound, depth);
            let made = result->Apply_1;
            assert forall|i: int| 0 <= i < scopes.len() implies ((#[trigger] made[i]).body.mentions(
                id,
            ) <==> scopes[i].body.mentions(id) && !bound.contains(id)) by {
                lemma_bind_mentions(scopes[i].body, bound, depth + 1, id);
            }
            if result.mentions(id) {
                let i = choose|i: int| 0 <= i < made.len() && (#[trigger] made[i]).body.mentions(id);
                assert(scopes[i].body.mentions(id));
            }
            if t.mentions(id) && !bound.contains(id) {
                let i = choose|i: int|
                    0 <= i < scopes.len() && (#[trigger] scopes[i]).body.mentions(id);
                assert(made[i].body.mentions(id));
            }
        },
    }
}

/// Opening frees nothing but the variables it opens with: in a term whose
/// references find their binders, a variable that occurs free afterwards
/// occurred free before or is one of `atoms`, and every variable that
/// occurred free before still does.
pub proof fn lemma_open_mentions<Op, Sort>(
    t: Term<Op, Sort>,
    atoms: Seq<Atom<Sort>>,
    outer: Seq<nat>,
    inner: Seq<nat>,
    id: int,
)
    requires
        t.scoped(outer + seq![atoms.len()] + inner),
    ensures
        t.open(atoms, inner.len()).mentions(id) ==> t.mentions(id) || ids(atoms).contains(id),
        t.mentions(id) ==> t.open(atoms, inner.len()).mentions(id),
    decreases t,
{
    let depth = inner.len();
    let widths = outer + seq![atoms.len()] + inner;
    match t {
        Term::Bound { depth: d, slot } => {
            if d == depth {
                assert(widths[widths.len() - 1 - d] == atoms.len());
                assert(ids(atoms)[slot as int] == atoms[slot as int].id);
            }
        },
        Term::Free(_) => {},
        Term::Apply(_, scopes) => {
            let result = t.open(atoms, depth);
            let made = result->Apply_1;
            let minted = ids(atoms).contains(id);
            assert forall|i: int| 0 <= i < scopes.len() implies {
                &&& scopes[i].body.mentions(id) ==> (#[trigger] made[i]).body.mentions(id)
                &&& made[i].body.mentions(id) ==> scopes[i].body.mentions(id) || minted
            } by {
                let w = scopes[i].sorts.len();
                assert(outer + seq![atoms.len()] + inner.push(w) =~= widths.push(w));
                lemma_open_mentions(scopes[i].body, atoms, outer, inner.push(w), id);
            }
            if t.mentions(id) {
                let i = choose|i: int|
                    0 <= i < scopes.len() && (#[trigger] scopes[i]).body.mentions(id);
                assert(made[i].body.mentions(id));
            }
            if result.mentions(id) {
                let i = choose|i: int| 0 <= i < made.len() && (#[trigger] made[i]).body.mentions(id);
                if scopes[i].body.mentions(id) {
                    assert(t.mentions(id));
                }
            }
        },
    }
}

/// Substitution captures nothing. After `replacement` has been put in place
/// of the variable `id`, a variable occurs free exactly when it occurred free
/// before and is not `id`, or when `id` occurred free and the variable occurs
/// free in `replacement`: whatever is free in the replacement is free in the
/// result, under however many scopes it was put.
pub proof fn lemma_subst_mentions<Op, Sort>(
    t: Term<Op, Sort>,
    id: int,
    replacement: Term<Op, Sort>,
    other: int,
)
    ensures
        t.subst(id, replacement).mentions(other) <==> (other != id && t.mentions(other)) || (
        t.mentions(id) && replacement.mentions(other)),
    decreases t,
{
    match t {
        Term::Apply(_, scopes) => {
            let result = t.subst(id, replacement);
            let made = result->Apply_1;
            let brought = replacement.mentions(other);
            assert forall|i: int| 0 <= i < scopes.len() implies ((#[trigger] made[i]).body.mentions(
                other,
            ) <==> (other != id && scopes[i].body.mentions(other)) || (scopes[i].body.mentions(id)
                && brought)) by {
                lemma_subst_mentions(scopes[i].body, id, replacement, other);
            }
            if result.mentions(other) {
                let i = choose|i: int|
                    0 <= i < made.len() && (#[trigger] made[i]).body.mentions(other);
                assert(scopes[i].body.mentions(other) || scopes[i].body.mentions(id));
            }
            if other != id && t.mentions(other) {
                let i = choose|i: int|
                    0 <= i < scopes.len() && (#[trigger] scopes[i]).body.mentions(other);
                assert(made[i].body.mentions(other));
            }
            if t.mentions(id) && brought {
                let i = choose|i: int|
                    0 <= i < scopes.len() && (#[trigger] scopes[i]).body.mentions(id);
                assert(made[i].body.mentions(other));
            }
        },
        _ => {},
    }
}

/// Substitution leaves bound variables alone: a term in which the variable
/// does not occur free is not changed at all.
pub proof fn lemma_subst_absent<Op, Sort>(t: Term<Op, Sort>, id: int, replacement: Term<Op, Sort>)
    requires
        !t.mentions(id),
    ensures
        t.subst(id, replacement) == t,
    decreases t,
{
    match t {
        Term::Apply(_, scopes) => {
            let made = t.subst(id, replacement)->Apply_1;
            assert forall|i: int| 0 <= i < scopes.len() implies made[i] == scopes[i] by {
                if scopes[i].body.mentions(id) {
                    assert(t.mentions(id));
                }
                lemma_subst_absent(scopes[i].body, id, replacement);
            }
            assert(made =~= scopes);
        },
        _ => {},
    }
}

/// Binding variables that do not occur free in a term changes nothing, as
/// long as no reference in the term points out past the `inner` scopes
/// between it and the new one.
pub proof fn lemma_bind_absent<Op, Sort>(t: Term<Op, Sort>, bound: Seq<int>, inner: Seq<nat>)
    requires
        t.scoped(inner),
        forall|j: int| 0 <= j < bound.len() ==> !t.mentions(#[trigger] bound[j]),
    ensures
        t.bind(bound, inner.len()) == t,
    decreases t,
{
    match t {
        Term::Bound { .. } => {},
        Term::Free(x) => {
            bound.index_of_first_ensures(x.id);
            if bound.contains(x.id) {
                let j = choose|j: int| 0 <= j < bound.len() && bound[j] == x.id;
                assert(t.mentions(bound[j]));
            }
        },
        Term::Apply(_, scopes) => {
            let made = t.bind(bound, inner.len())->Apply_1;
            assert forall|i: int| 0 <= i < scopes.len() implies made[i] == scopes[i] by {
                assert forall|j: int| 0 <= j < bound.len() implies !scopes[i].body.mentions(
                    #[trigger] bound[j],
                ) by {
                    if scopes[i].body.mentions(bound[j]) {
                        assert(t.mentions(bound[j]));
                    }
                }
                lemma_bind_absent(scopes[i].body, bound, inner.push(scopes[i].sorts.len()));
            }
            assert(made =~= scopes);
        },
    }
}

/// Substituting under a binder is substituting in the body. When the
/// variable substituted for is not among those being bound, and what is put
/// in stands on its own and has none of those free, it makes no difference
/// whether the body is bound first and substituted in afterwards, or the
/// other way round.
pub proof fn lemma_subst_commutes_with_bind<Op, Sort>(
    t: Term<Op, Sort>,
    id: int,
    replacement: Term<Op, Sort>,
    bound: Seq<int>,
    depth: nat,
)
    requires
        !bound.contains(id),
        replacement.closed(),
        forall|j: int| 0 <= j < bound.len() ==> !replacement.mentions(#[trigger] bound[j]),
    ensures
        t.bind(bound, depth).subst(id, replacement) == t.subst(id, replacement).bind(bound, depth),
    decreases t,
{
    match t {
        Term::Bound { .. } => {},
        Term::Free(x) => {
            bound.index_of_first_ensures(x.id);
            if x.id == id {
                let inner = Seq::new(depth, |i: int| 0nat);
                lemma_scoped_weaken(replacement, inner, Seq::empty());
                assert(inner + Seq::<nat>::empty() =~= inner);
                lemma_bind_absent(replacement, bound, inner);
            }
        },
        Term::Apply(_, scopes) => {
            let left = t.bind(bound, depth).subst(id, replacement)->Apply_1;
            let right = t.subst(id, replacement).bind(bound, depth)->Apply_1;
            assert forall|i: int| 0 <= i < scopes.len() implies left[i] == right[i] by {
                lemma_subst_commutes_with_bind(scopes[i].body, id, replacement, bound, depth + 1);
            }
            assert(left =~= right);
        },
    }
}

/// The first `n` scopes bind no more variables than the first `m`, for
/// `n <= m`.
pub proof fn lemma_binders_before_grows<Op, Sort>(scopes: Seq<Scope<Op, Sort>>, n: int, m: int)
    requires
        n <= m,
    ensures
        binders_before(scopes, n) <= binders_before(scopes, m),
    decreases m - n,
{
    if n < m {
        lemma_binders_before_grows(scopes, n, m - 1);
    }
}

/// Rolling a layer up brings no variable in: the tree has no free variable
/// that the layer had not.
pub proof fn lemma_roll_known_by<Op, Sort>(layer: Layer<Op, Sort>, issued: int)
    requires
        layer.known_by(issued),
    ensures
        layer.roll().known_by(issued),
{
    match layer {
        Layer::Var(_) => {},
        Layer::Op(_, openings) => {
            let closed = layer.scopes();
            assert forall|id: int| #[trigger] layer.roll().mentions(id) implies id <= issued by {
                let i = choose|i: int|
                    0 <= i < closed.len() && (#[trigger] closed[i]).body.mentions(id);
                lemma_bind_mentions(openings[i].body, ids(openings[i].atoms), 0, id);
                assert(openings[i].body.mentions(id));
            }
        },
    }
}

/// Unrolling brings in only what the supply mints for it: the layer of a
/// tree that the supply knew has no free variable that the supply does not
/// know afterwards.
pub proof fn lemma_unroll_known_by<Op, Sort>(t: Term<Op, Sort>, issued: int)
    requires
        t.closed(),
        t.known_by(issued),
    ensures
        t.unroll(issued).known_by(issued + t.binders()),
{
    match t {
        Term::Apply(_, scopes) => {
            let openings = t.unroll(issued)->Op_1;
            let after = issued + t.binders();
            assert forall|i: int| 0 <= i < openings.len() implies (
            #[trigger] openings[i]).body.known_by(after) by {
                let start = issued + binders_before(scopes, i);
                let atoms = minted(start, scopes[i].sorts);
                assert(Seq::<nat>::empty().push(scopes[i].sorts.len()) =~= Seq::<nat>::empty()
                    + seq![atoms.len()] + Seq::<nat>::empty());
                assert forall|id: int| #[trigger] openings[i].body.mentions(id) implies id
                    <= after by {
                    lemma_open_mentions(scopes[i].body, atoms, Seq::empty(), Seq::empty(), id);
                    if scopes[i].body.mentions(id) {
                        assert(t.mentions(id));
                    } else {
                        let k = choose|k: int| 0 <= k < ids(atoms).len() && ids(atoms)[k] == id;
                        lemma_identity_at(start, k as nat);
                        lemma_binders_before_grows(scopes, i + 1, scopes.len() as int);
                    }
                }
            }
        },
        Term::Free(x) => {
            assert(t.mentions(x.id));
        },
        Term::Bound { .. } => {},
    }
}

/// A supply that has issued every variable a tree knows mints only
/// variables that are new to the tree, whichever scope they are minted for.
pub proof fn lemma_known_unrolls_apart<Op, Sort>(t: Term<Op, Sort>, issued: int)
    requires
        t.known_by(issued),
    ensures
        t.unrolls_apart(issued),
{
    match t {
        Term::Apply(_, scopes) => {
            assert forall|i: int| 0 <= i < scopes.len() implies (#[trigger] scopes[i]).apart_from(
                minted(issued + binders_before(scopes, i), scopes[i].sorts),
            ) by {
                let start = issued + binders_before(scopes, i);
                let atoms = minted(start, scopes[i].sorts);
                assert forall|k: int| 0 <= k < atoms.len() implies !scopes[i].body.mentions(
                    #[trigger] atoms[k].id,
                ) by {
                    lemma_identity_at(start, k as nat);
                    if scopes[i].body.mentions(atoms[k].id) {
                        assert(t.mentions(atoms[k].id));
                    }
                }
            }
        },
        _ => {},
    }
}

/// A term is equal to itself as `==` sees it, wherever every operator and
/// every sort is.
pub proof fn lemma_alike_reflexive<Op: PartialEq, Sort: PartialEq>(t: Term<Op, Sort>)
    requires
        forall|op: Op| #[trigger] op.eq_spec(&op),
        forall|sort: Sort| #[trigger] sort.eq_spec(&sort),
    ensures
        t.alike(t),
    decreases t,
{
    match t {
        Term::Apply(_, scopes) => {
            assert forall|i: int| 0 <= i < scopes.len() implies (#[trigger] scopes[i]).body.alike(
                scopes[i].body,
            ) by {
                lemma_alike_reflexive(scopes[i].body);
            }
        },
        _ => {},
    }
}

/// What is asked of a layer, one demand at a time. A layer is accepted
/// exactly when the operand count matches, each operand binds variables of
/// the declared sorts, and each operand's body has the declared sort.
pub proof fn lemma_accepted_by_parts<Op: Operator<Sort>, Sort>(layer: Layer<Op, Sort>)
    ensures
        layer.accepted() <==> layer.count_matches() && layer.binders_match()
            && layer.bodies_match(),
{
    match layer {
        Layer::Var(_) => {},
        Layer::Op(op, openings) => {
            let declared = op.spec_arity();
            let offered = valences(layer.scopes());
            if layer.accepted() {
                assert forall|i: int| 0 <= i < openings.len() implies {
                    &&& sorts((#[trigger] openings[i]).atoms) == declared[i].inputs
                    &&& openings[i].close().valence().output == declared[i].output
                } by {
                    assert(offered[i] == openings[i].close().valence());
                }
            }
            if layer.count_matches() && layer.binders_match() && layer.bodies_match() {
                assert forall|i: int| 0 <= i < declared.len() implies declared[i] == offered[i] by {
                    assert(sorts(openings[i].atoms) == declared[i].inputs);
                    assert(openings[i].close().valence().output == declared[i].output);
                }
                assert(declared =~= offered);
            }
        },
    }
}

/// Binding changes no operator and no scope: a term fits the signature
/// after it exactly when it did before.
pub proof fn lemma_bind_fits<Op: Operator<Sort>, Sort>(t: Term<Op, Sort>, bound: Seq<int>, depth: nat)
    ensures
        t.bind(bound, depth).fits() == t.fits(),
    decreases t,
{
    match t {
        Term::Apply(_, scopes) => {
            let result = t.bind(bound, depth);
            let made = result->Apply_1;
            assert forall|i: int| 0 <= i < scopes.len() implies (#[trigger] made[i]).body.fits()
                == scopes[i].body.fits() by {
                lemma_bind_fits(scopes[i].body, bound, depth + 1);
            }
            if t.fits() {
                assert forall|i: int| 0 <= i < made.len() implies (#[trigger] made[i]).body.fits() by {
                    assert(scopes[i].body.fits());
                }
            }
            if result.fits() {
                assert forall|i: int| 0 <= i < scopes.len() implies {
                    &&& (#[trigger] scopes[i]).sorts == made[i].sorts
                    &&& scopes[i].body.fits()
                } by {
                    assert(made[i].body.fits());
                }
            }
        },
        _ => {},
    }
}

/// Opening changes no operator and no scope: a term fits the signature
/// after it exactly when it did before.
pub proof fn lemma_open_fits<Op: Operator<Sort>, Sort>(
    t: Term<Op, Sort>,
    atoms: Seq<Atom<Sort>>,
    depth: nat,
)
    ensures
        t.open(atoms, depth).fits() == t.fits(),
    decreases t,
{
    match t {
        Term::Apply(_, scopes) => {
            let result = t.open(atoms, depth);
            let made = result->Apply_1;
            assert forall|i: int| 0 <= i < scopes.len() implies (#[trigger] made[i]).body.fits()
                == scopes[i].body.fits() by {
                lemma_open_fits(scopes[i].body, atoms, depth + 1);
            }
            if t.fits() {
                assert forall|i: int| 0 <= i < made.len() implies (#[trigger] made[i]).body.fits() by {
                    assert(scopes[i].body.fits());
                }
            }
            if result.fits() {
                assert forall|i: int| 0 <= i < scopes.len() implies {
                    &&& (#[trigger] scopes[i]).sorts == made[i].sorts
                    &&& scopes[i].body.fits()
                } by {
                    assert(made[i].body.fits());
                }
            }
        },
        _ => {},
    }
}

/// Substitution keeps a term fitting the signature, as long as what is put
/// in fits it. Nothing is said of sorts: a variable may be replaced by a
/// tree of another sort.
pub proof fn lemma_subst_fits<Op: Operator<Sort>, Sort>(
    t: Term<Op, Sort>,
    id: int,
    replacement: Term<Op, Sort>,
)
    requires
        t.fits(),
        replacement.fits(),
    ensures
        t.subst(id, replacement).fits(),
    decreases t,
{
    match t {
        Term::Apply(_, scopes) => {
            let made = t.subst(id, replacement)->Apply_1;
            assert forall|i: int| 0 <= i < made.len() implies (#[trigger] made[i]).body.fits() by {
                assert(scopes[i].body.fits());
                lemma_subst_fits(scopes[i].body, id, replacement);
            }
        },
        _ => {},
    }
}

/// What is accepted fits. A layer that is accepted, over bodies that fit the
/// signature, rolls up to a tree that fits it: every application in a tree
/// built layer by layer has the operands that its operator declares.
pub proof fn lemma_roll_fits<Op: Operator<Sort>, Sort>(layer: Layer<Op, Sort>)
    requires
        layer.accepted(),
        layer.bodies_fit(),
    ensures
        layer.roll().fits(),
{
    match layer {
        Layer::Var(_) => {},
        Layer::Op(op, openings) => {
            let closed = layer.scopes();
            let offered = valences(closed);
            assert forall|i: int| 0 <= i < closed.len() implies {
                &&& (#[trigger] closed[i]).sorts == op.spec_arity()[i].inputs
                &&& closed[i].body.fits()
            } by {
                assert(offered[i] == closed[i].valence());
                assert(openings[i].body.fits());
                lemma_bind_fits(openings[i].body, ids(openings[i].atoms), 0);
            }
        },
    }
}

/// What fits unrolls to what was declared. The layer of a tree that fits
/// the signature has as many operands as its operator declares, each binding
/// variables of the declared sorts over a body that fits the signature
/// again.
pub proof fn lemma_unroll_fits<Op: Operator<Sort>, Sort>(t: Term<Op, Sort>, issued: int)
    requires
        t.fits(),
        !(t is Bound),
    ensures
        t.unroll(issued).count_matches(),
        t.unroll(issued).binders_match(),
        t.unroll(issued).bodies_fit(),
{
    match t {
        Term::Apply(op, scopes) => {
            let openings = t.unroll(issued)->Op_1;
            assert forall|i: int| 0 <= i < openings.len() implies {
                &&& sorts((#[trigger] openings[i]).atoms) == op.spec_arity()[i].inputs
                &&& openings[i].body.fits()
            } by {
                let atoms = minted(issued + binders_before(scopes, i), scopes[i].sorts);
                assert(openings[i] == scopes[i].open_with(atoms));
                assert(sorts(atoms) =~= scopes[i].sorts);
                assert(scopes[i].body.fits());
                lemma_open_fits(scopes[i].body, atoms, 0);
            }
        },
        _ => {},
    }
}

/// A view can be taken back. Take a tree that stands on its own and whose
/// top obeys the signature, unroll its top layer with variables that are new
/// to the scopes they open, and roll the layer up again: the layer is
/// accepted, and the tree that comes back is the tree that was unrolled.
pub proof fn lemma_roll_undoes_unroll<Op: Operator<Sort>, Sort>(t: Term<Op, Sort>, issued: int)
    requires
        t.closed(),
        t.conforms(),
        t.unrolls_apart(issued),
    ensures
        t.unroll(issued).accepted(),
        t.unroll(issued).roll() == t,
{
    match t {
        Term::Apply(_, scopes) => {
            let layer = t.unroll(issued);
            let back = layer.scopes();
            assert forall|i: int| 0 <= i < scopes.len() implies back[i] == scopes[i] by {
                let start = issued + binders_before(scopes, i);
                let atoms = minted(start, scopes[i].sorts);
                assert(layer->Op_1[i] == scopes[i].open_with(atoms));
                assert(sorts(atoms) =~= scopes[i].sorts);
                assert forall|a: int, b: int| 0 <= a < b < atoms.len() implies atoms[a].id
                    != atoms[b].id by {
                    lemma_identity_at(start, a as nat);
                    lemma_identity_at(start, b as nat);
                }
                assert(scopes[i].apart_from(atoms));
                assert(Seq::<nat>::empty().push(scopes[i].sorts.len()) =~= Seq::<nat>::empty()
                    + seq![atoms.len()] + Seq::<nat>::empty());
                lemma_bind_undoes_open(scopes[i].body, atoms, Seq::empty(), Seq::empty());
            }
            assert(back =~= scopes);
        },
        _ => {},
    }
}

} // verus!
