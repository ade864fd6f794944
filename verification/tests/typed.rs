use abt::var::{Supply, Var};
use abt::view::{AbsView, View};
use abt::{Abt, Operator, Valence};

#[derive(Clone, Copy, Debug, PartialEq, Eq)]
enum Sort {
    Exp,
    Typ,
}

#[derive(Clone, Copy, Debug, PartialEq, Eq)]
enum Op {
    Unit,
    Lam,
    App,
    Let2,
    Ann,
    Arrow,
}

const UNIT: &[Valence<Sort>] = &[];
const LAM: &[Valence<Sort>] = &[Valence { inputs: &[Sort::Exp], output: Sort::Exp }];
const APP: &[Valence<Sort>] = &[
    Valence { inputs: &[], output: Sort::Exp },
    Valence { inputs: &[], output: Sort::Exp },
];
const LET2: &[Valence<Sort>] = &[Valence { inputs: &[Sort::Exp, Sort::Typ], output: Sort::Exp }];
const ANN: &[Valence<Sort>] = &[
    Valence { inputs: &[], output: Sort::Exp },
    Valence { inputs: &[], output: Sort::Typ },
];
const ARROW: &[Valence<Sort>] = &[
    Valence { inputs: &[], output: Sort::Typ },
    Valence { inputs: &[], output: Sort::Typ },
];

impl Operator<Sort> for Op {
    fn arity<'a>(&self) -> &'a [Valence<'a, Sort>] {
        match self {
            Op::Unit => UNIT,
            Op::Lam => LAM,
            Op::App => APP,
            Op::Let2 => LET2,
            Op::Ann => ANN,
            Op::Arrow => ARROW,
        }
    }

    fn sort(&self) -> Sort {
        match self {
            Op::Arrow => Sort::Typ,
            _ => Sort::Exp,
        }
    }
}

type Tree = Abt<Op, Sort>;
type Scope = AbsView<Sort, Tree>;

fn leaf(v: &Var<Sort>) -> Tree {
    View::Var(v.clone()).to_abt().unwrap()
}

fn plain(tree: Tree) -> Scope {
    tree.into()
}

fn build(op: Op, rands: Vec<Scope>) -> Result<Tree, ()> {
    View::Op(op, rands).to_abt()
}

fn operands(tree: &Tree, supply: &mut Supply) -> (Op, Vec<Scope>) {
    match tree.view(supply) {
        View::Op(op, rands) => (op, rands),
        View::Var(v) => panic!("a variable, not an application: {:?}", v),
    }
}

fn variable(tree: &Tree, supply: &mut Supply) -> Var<Sort> {
    match tree.view(supply) {
        View::Var(v) => v,
        View::Op(op, _) => panic!("an application, not a variable: {:?}", op),
    }
}

#[test]
fn valence_new_keeps_its_arguments() {
    let inputs = [Sort::Exp, Sort::Typ];
    let valence = Valence::new(&inputs, Sort::Typ);
    assert_eq!(valence.inputs, &[Sort::Exp, Sort::Typ]);
    assert_eq!(valence.output, Sort::Typ);
    assert_eq!(valence, Valence { inputs: &inputs, output: Sort::Typ });
}

#[test]
fn valence_clone_is_equal() {
    let inputs = [Sort::Typ];
    let valence = Valence::new(&inputs, Sort::Exp);
    let copy = valence.clone();
    assert_eq!(copy, valence);
    assert_eq!(copy.inputs, &[Sort::Typ]);
    assert_eq!(copy.output, Sort::Exp);
    assert_ne!(copy, Valence::new(&[], Sort::Exp));
    assert_ne!(copy, Valence::new(&inputs, Sort::Typ));
}

#[test]
fn variable_is_always_accepted() {
    let mut supply = Supply::new();
    let e = supply.fresh(Sort::Exp);
    let t = supply.fresh(Sort::Typ);
    assert!(View::<Op, Sort, Tree>::Var(e.clone()).to_abt().is_ok());
    assert!(View::<Op, Sort, Tree>::Var(t.clone()).to_abt().is_ok());
    assert!(variable(&leaf(&e), &mut supply) == e);
    assert!(variable(&leaf(&t), &mut supply) == t);
}

#[test]
fn operand_count_is_enforced() {
    let mut supply = Supply::new();
    let e = supply.fresh(Sort::Exp);
    assert!(build(Op::Unit, vec![]).is_ok());
    assert_eq!(build(Op::Unit, vec![plain(leaf(&e))]), Err(()));
    assert_eq!(build(Op::App, vec![]), Err(()));
    assert_eq!(build(Op::App, vec![plain(leaf(&e))]), Err(()));
    assert!(build(Op::App, vec![plain(leaf(&e)), plain(leaf(&e))]).is_ok());
    assert_eq!(
        build(Op::App, vec![plain(leaf(&e)), plain(leaf(&e)), plain(leaf(&e))]),
        Err(())
    );
}

#[test]
fn binding_shape_is_enforced() {
    let mut supply = Supply::new();
    let x = supply.fresh(Sort::Exp);
    let y = supply.fresh(Sort::Exp);
    assert!(build(Op::Lam, vec![AbsView(vec![x.clone()], leaf(&x))]).is_ok());
    assert_eq!(build(Op::Lam, vec![AbsView(vec![], leaf(&x))]), Err(()));
    assert_eq!(build(Op::Lam, vec![AbsView(vec![x.clone(), y.clone()], leaf(&x))]), Err(()));
    assert_eq!(
        build(Op::App, vec![AbsView(vec![x.clone()], leaf(&x)), plain(leaf(&y))]),
        Err(())
    );
}

#[test]
fn bound_variable_sort_is_enforced() {
    let mut supply = Supply::new();
    let e = supply.fresh(Sort::Exp);
    let t = supply.fresh(Sort::Typ);
    assert_eq!(build(Op::Lam, vec![AbsView(vec![t.clone()], leaf(&e))]), Err(()));
    assert!(build(Op::Let2, vec![AbsView(vec![e.clone(), t.clone()], leaf(&e))]).is_ok());
    assert_eq!(build(Op::Let2, vec![AbsView(vec![t.clone(), e.clone()], leaf(&e))]), Err(()));
}

#[test]
fn operand_sort_is_enforced() {
    let mut supply = Supply::new();
    let e = supply.fresh(Sort::Exp);
    let t = supply.fresh(Sort::Typ);
    assert!(build(Op::Ann, vec![plain(leaf(&e)), plain(leaf(&t))]).is_ok());
    assert_eq!(build(Op::Ann, vec![plain(leaf(&e)), plain(leaf(&e))]), Err(()));
    assert_eq!(build(Op::Ann, vec![plain(leaf(&t)), plain(leaf(&e))]), Err(()));
    assert_eq!(build(Op::App, vec![plain(leaf(&e)), plain(leaf(&t))]), Err(()));
    // the body of a scope may be one of its own variables, of the wrong sort
    assert_eq!(build(Op::Let2, vec![AbsView(vec![e.clone(), t.clone()], leaf(&t))]), Err(()));
    // an application has the sort its operator declares
    let arrow = build(Op::Arrow, vec![plain(leaf(&t)), plain(leaf(&t))]).unwrap();
    assert!(build(Op::Ann, vec![plain(leaf(&e)), plain(arrow.clone())]).is_ok());
    assert_eq!(build(Op::App, vec![plain(leaf(&e)), plain(arrow)]), Err(()));
}

#[test]
fn sort_of_a_tree() {
    let mut supply = Supply::new();
    let e = supply.fresh(Sort::Exp);
    let t = supply.fresh(Sort::Typ);
    assert_eq!(leaf(&e).sort(&[]), Sort::Exp);
    assert_eq!(leaf(&t).sort(&[]), Sort::Typ);
    assert_eq!(leaf(&t).sort(&[Sort::Exp]), Sort::Typ);
    let arrow = build(Op::Arrow, vec![plain(leaf(&t)), plain(leaf(&t))]).unwrap();
    assert_eq!(arrow.sort(&[]), Sort::Typ);
    let unit = build(Op::Unit, vec![]).unwrap();
    assert_eq!(unit.sort(&[Sort::Typ]), Sort::Exp);
}

#[test]
fn from_tree_binds_nothing() {
    let mut supply = Supply::new();
    let e = supply.fresh(Sort::Exp);
    let scope: Scope = leaf(&e).into();
    assert!(scope.0.is_empty());
    assert_eq!(scope.1, leaf(&e));
}

#[test]
fn clone_is_equal_to_the_tree() {
    let mut supply = Supply::new();
    let x = supply.fresh(Sort::Exp);
    let t = supply.fresh(Sort::Typ);
    let body = build(Op::Ann, vec![plain(leaf(&x)), plain(leaf(&t))]).unwrap();
    let tree = build(Op::Lam, vec![AbsView(vec![x.clone()], body)]).unwrap();
    assert_eq!(tree.clone(), tree);
    assert_eq!(operands(&tree.clone(), &mut supply).0, Op::Lam);
}

#[test]
fn trees_differ_by_operator_shape_and_variable() {
    let mut supply = Supply::new();
    let x = supply.fresh(Sort::Exp);
    let y = supply.fresh(Sort::Exp);
    let t = supply.fresh(Sort::Typ);
    assert_eq!(leaf(&x), leaf(&x));
    assert_ne!(leaf(&x), leaf(&y));
    let xx = build(Op::App, vec![plain(leaf(&x)), plain(leaf(&x))]).unwrap();
    let xy = build(Op::App, vec![plain(leaf(&x)), plain(leaf(&y))]).unwrap();
    let ann = build(Op::Ann, vec![plain(leaf(&x)), plain(leaf(&t))]).unwrap();
    assert_ne!(xx, xy);
    assert_ne!(xx, ann);
    assert_ne!(xx, leaf(&x));
    // bound variables have no identity: the two functions are one tree
    let id_x = build(Op::Lam, vec![AbsView(vec![x.clone()], leaf(&x))]).unwrap();
    let id_y = build(Op::Lam, vec![AbsView(vec![y.clone()], leaf(&y))]).unwrap();
    let const_y = build(Op::Lam, vec![AbsView(vec![x.clone()], leaf(&y))]).unwrap();
    assert_eq!(id_x, id_y);
    assert_ne!(id_x, const_y);
}

#[test]
fn only_the_named_variables_are_bound() {
    let mut supply = Supply::new();
    let x = supply.fresh(Sort::Exp);
    let z = supply.fresh(Sort::Exp);
    let body = build(Op::App, vec![plain(leaf(&x)), plain(leaf(&z))]).unwrap();
    let lam = build(Op::Lam, vec![AbsView(vec![x.clone()], body)]).unwrap();
    let (op, rands) = operands(&lam, &mut supply);
    assert_eq!(op, Op::Lam);
    assert_eq!(rands.len(), 1);
    assert_eq!(rands[0].0.len(), 1);
    let bound = rands[0].0[0].clone();
    assert_eq!(bound.sort(), &Sort::Exp);
    assert!(bound != x);
    assert!(bound != z);
    let (op, inner) = operands(&rands[0].1, &mut supply);
    assert_eq!(op, Op::App);
    assert!(variable(&inner[0].1, &mut supply) == bound);
    assert!(variable(&inner[1].1, &mut supply) == z);
}

#[test]
fn view_mints_one_variable_for_each_binder() {
    let mut supply = Supply::new();
    let x = supply.fresh(Sort::Exp);
    let t = supply.fresh(Sort::Typ);
    let app = build(Op::App, vec![plain(leaf(&x)), plain(leaf(&x))]).unwrap();
    let let2 = build(Op::Let2, vec![AbsView(vec![x.clone(), t.clone()], app.clone())]).unwrap();

    // no scope binds anything: nothing is minted
    let (_, rands) = operands(&app, &mut supply);
    assert!(rands[0].0.is_empty() && rands[1].0.is_empty());
    let next = supply.fresh(Sort::Exp);
    assert_eq!(format!("{:?}", next), "Var { id: 3, sort: Exp, name: None }");

    // one scope binds two variables: two are minted, in binding order
    let (_, rands) = operands(&let2, &mut supply);
    assert_eq!(
        format!("{:?}", rands[0].0),
        "[Var { id: 4, sort: Exp, name: None }, Var { id: 5, sort: Typ, name: None }]"
    );
    let next = supply.fresh(Sort::Typ);
    assert_eq!(format!("{:?}", next), "Var { id: 6, sort: Typ, name: None }");
}

#[test]
fn nested_binders_of_several_variables_round_trip() {
    let mut supply = Supply::new();
    let x = supply.fresh(Sort::Exp);
    let t = supply.fresh(Sort::Typ);
    let y = supply.fresh(Sort::Exp);

    // let2 (x, t). lam y. app(x, ann(y, t))
    let ann = build(Op::Ann, vec![plain(leaf(&y)), plain(leaf(&t))]).unwrap();
    let app = build(Op::App, vec![plain(leaf(&x)), plain(ann)]).unwrap();
    let lam = build(Op::Lam, vec![AbsView(vec![y.clone()], app)]).unwrap();
    let let2 = build(Op::Let2, vec![AbsView(vec![x.clone(), t.clone()], lam.clone())]).unwrap();

    // the whole tree comes back from its view, and so does each tree below it
    assert_eq!(let2, let2.view(&mut supply).to_abt().unwrap());
    let (op, outer) = operands(&let2, &mut supply);
    assert_eq!(op, Op::Let2);
    assert_eq!(outer[0].0.len(), 2);
    let (x1, t1) = (outer[0].0[0].clone(), outer[0].0[1].clone());
    assert_eq!((x1.sort(), t1.sort()), (&Sort::Exp, &Sort::Typ));
    assert_eq!(outer[0].1, outer[0].1.view(&mut supply).to_abt().unwrap());
    assert_eq!(let2, View::Op(Op::Let2, outer.clone()).to_abt().unwrap());

    // under the inner binder, each reference still finds its own scope and slot
    let (op, middle) = operands(&outer[0].1, &mut supply);
    assert_eq!(op, Op::Lam);
    let y1 = middle[0].0[0].clone();
    let (op, inner) = operands(&middle[0].1, &mut supply);
    assert_eq!(op, Op::App);
    assert!(variable(&inner[0].1, &mut supply) == x1);
    let (op, innermost) = operands(&inner[1].1, &mut supply);
    assert_eq!(op, Op::Ann);
    assert!(variable(&innermost[0].1, &mut supply) == y1);
    assert!(variable(&innermost[1].1, &mut supply) == t1);
    assert!(x1 != y1 && x1 != t1 && y1 != t1);

    // opened with the variables it was built from, the body is the one it was built from
    assert_eq!(View::Op(Op::Lam, middle).to_abt().unwrap(), outer[0].1);
    let rebuilt = build(Op::Lam, vec![AbsView(vec![y.clone()], {
        let ann = build(Op::Ann, vec![plain(leaf(&y)), plain(leaf(&t1))]).unwrap();
        build(Op::App, vec![plain(leaf(&x1)), plain(ann)]).unwrap()
    })])
    .unwrap();
    assert_eq!(rebuilt, outer[0].1);
}

#[test]
fn first_of_two_equal_binders_wins() {
    let mut supply = Supply::new();
    let x = supply.fresh(Sort::Exp);
    let mut other = Supply::new();
    let twin = other.fresh(Sort::Typ);
    assert!(x == twin);
    let let2 = build(Op::Let2, vec![AbsView(vec![x.clone(), twin.clone()], leaf(&x))]).unwrap();
    let (_, rands) = operands(&let2, &mut supply);
    assert!(variable(&rands[0].1, &mut supply) == rands[0].0[0]);
}

#[test]
fn substitution_replaces_every_free_occurrence() {
    let mut supply = Supply::new();
    let x = supply.fresh(Sort::Exp);
    let y = supply.fresh(Sort::Exp);
    let z = supply.fresh(Sort::Exp);
    let unit = build(Op::Unit, vec![]).unwrap();
    let xy = build(Op::App, vec![plain(leaf(&x)), plain(leaf(&y))]).unwrap();
    let tree = build(Op::App, vec![plain(xy.clone()), plain(leaf(&x))]).unwrap();

    let unit_y = build(Op::App, vec![plain(unit.clone()), plain(leaf(&y))]).unwrap();
    let expected = build(Op::App, vec![plain(unit_y), plain(unit.clone())]).unwrap();
    assert_eq!(tree.subst(&x, &unit), expected);
    assert_eq!(tree.subst(&z, &unit), tree);
    assert_eq!(leaf(&x).subst(&x, &xy), xy);
    assert_eq!(leaf(&y).subst(&x, &xy), leaf(&y));
}

#[test]
fn substitution_goes_under_binders() {
    let mut supply = Supply::new();
    let x = supply.fresh(Sort::Exp);
    let z = supply.fresh(Sort::Exp);
    let unit = build(Op::Unit, vec![]).unwrap();
    let xz = build(Op::App, vec![plain(leaf(&x)), plain(leaf(&z))]).unwrap();
    let lam = build(Op::Lam, vec![AbsView(vec![x.clone()], xz)]).unwrap();

    let x_unit = build(Op::App, vec![plain(leaf(&x)), plain(unit.clone())]).unwrap();
    let expected = build(Op::Lam, vec![AbsView(vec![x.clone()], x_unit)]).unwrap();
    assert_eq!(lam.subst(&z, &unit), expected);
}

#[test]
fn substitution_leaves_bound_variables_alone() {
    let mut supply = Supply::new();
    let x = supply.fresh(Sort::Exp);
    let unit = build(Op::Unit, vec![]).unwrap();
    let id = build(Op::Lam, vec![AbsView(vec![x.clone()], leaf(&x))]).unwrap();
    assert_eq!(id.subst(&x, &unit), id);
}

#[test]
fn substitution_captures_nothing() {
    let mut supply = Supply::new();
    let x = supply.fresh(Sort::Exp);
    let z = supply.fresh(Sort::Exp);
    // lam x. z, with the free variable x put in place of z
    let const_z = build(Op::Lam, vec![AbsView(vec![x.clone()], leaf(&z))]).unwrap();
    let result = const_z.subst(&z, &leaf(&x));

    let id = build(Op::Lam, vec![AbsView(vec![x.clone()], leaf(&x))]).unwrap();
    assert_ne!(result, id);
    let (op, rands) = operands(&result, &mut supply);
    assert_eq!(op, Op::Lam);
    let body = variable(&rands[0].1, &mut supply);
    assert!(body == x);
    assert!(body != rands[0].0[0]);
}

#[test]
fn stale_supply_captures_on_the_way_back() {
    let mut supply = Supply::new();
    let x = supply.fresh(Sort::Exp);
    let y = supply.fresh(Sort::Exp);
    // lam x. y, where y has identity 2
    let const_y = build(Op::Lam, vec![AbsView(vec![x.clone()], leaf(&y))]).unwrap();

    // a supply that has issued both variables mints a new one: the tree comes back
    assert_eq!(const_y.view(&mut supply).to_abt().unwrap(), const_y);

    // a supply that has issued only one of them mints y again for the binder
    let mut stale = Supply::new();
    stale.fresh(Sort::Exp);
    let id = build(Op::Lam, vec![AbsView(vec![x.clone()], leaf(&x))]).unwrap();
    assert_eq!(const_y.view(&mut stale).to_abt().unwrap(), id);
}
