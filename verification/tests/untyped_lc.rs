use abt::var::Supply;
use abt::view::{AbsView, View};
use abt::{Abt, Operator, Valence};

#[derive(Clone, Debug, PartialEq, Eq)]
enum Op {
    App,
    Lam,
}

const APP: &[Valence<()>] = &[
    Valence { inputs: &[], output: () },
    Valence { inputs: &[], output: () },
];
const LAM: &[Valence<()>] = &[Valence { inputs: &[()], output: () }];

impl Operator<()> for Op {
    fn arity<'a>(self: &Op) -> &'a [Valence<'a, ()>] {
        match self {
            Op::App => APP,
            Op::Lam => LAM,
        }
    }

    fn sort(self: &Op) -> () {
        ()
    }
}

fn cbn(term: &Abt<Op, ()>) -> Abt<Op, ()> {
    let mut supply = Supply::new();
    match term.view(&mut supply) {
        View::Var(var) => View::Var(var.clone()).to_abt().unwrap(),
        View::Op(Op::App, rands) => match rands[0].1.view(&mut supply) {
            View::Var(var) => View::Op(
                Op::App,
                vec![
                    View::Var(var.clone()).to_abt().unwrap().into(),
                    rands[1].clone(),
                ],
            )
            .to_abt()
            .unwrap(),
            View::Op(Op::App, _) => {
                View::Op(Op::App, vec![cbn(&rands[0].1).into(), rands[1].clone()])
                    .to_abt()
                    .unwrap()
            }
            View::Op(Op::Lam, body) => body[0].1.subst(&body[0].0[0], &rands[1].1),
        },
        View::Op(Op::Lam, _) => term.clone(),
    }
}

#[test]
fn untyped_lc() {
    let mut supply = Supply::default();
    let var = supply.fresh(());
    let x = View::Var(var.clone()).to_abt().unwrap();
    let abs = AbsView(vec![var], x);

    let id_fun = View::Op(Op::Lam, vec![abs.clone()]).to_abt().unwrap();

    let app_id = View::Op(Op::App, vec![id_fun.clone().into(), id_fun.clone().into()])
        .to_abt()
        .unwrap();
    assert_eq!(id_fun, id_fun.view(&mut supply).to_abt().unwrap());
    assert_eq!(app_id, app_id.view(&mut supply).to_abt().unwrap());
    assert_eq!(id_fun, cbn(&app_id))
}

#[test]
fn malformed() {
    let mut supply = Supply::default();
    let var = supply.fresh(());
    let x = View::Var(var.clone()).to_abt().unwrap();
    let abs = AbsView(vec![], x);

    assert_eq!(View::Op(Op::Lam, vec![abs.clone()]).to_abt(), Err(()))
}
