use abt::var::Supply;
use abt::view::{AbsView, View};

#[test]
fn abs_view_map_keeps_variables() {
    let mut supply = Supply::new();
    let x = supply.fresh(());
    let y = supply.fresh(());
    let scope = AbsView(vec![x.clone(), y.clone()], 20u32);
    let mapped = scope.map(|n| n + 1);
    assert_eq!(mapped, AbsView(vec![x, y], 21u32));
    assert_eq!(scope.1, 20);
}

#[test]
fn abs_view_map_changes_body_type() {
    let scope: AbsView<(), u8> = AbsView(vec![], 7);
    let mapped = scope.map(|n| format!("<{}>", n));
    assert!(mapped.0.is_empty());
    assert_eq!(mapped.1, "<7>");
}

#[test]
fn view_map_on_variable() {
    let mut supply = Supply::new();
    let x = supply.fresh(3u8);
    let view: View<char, u8, u32> = View::Var(x.clone());
    let mapped: View<char, u8, u64> = view.map(|n| u64::from(*n));
    assert_eq!(mapped, View::Var(x));
}

#[test]
fn view_map_on_operator() {
    let mut supply = Supply::new();
    let x = supply.fresh(());
    let y = supply.fresh(());
    let view = View::Op(
        '+',
        vec![AbsView(vec![x.clone()], 1u32), AbsView(vec![], 2), AbsView(vec![y.clone()], 3)],
    );
    let mapped = view.map(|n| n * 10);
    assert_eq!(
        mapped,
        View::Op('+', vec![AbsView(vec![x], 10u32), AbsView(vec![], 20), AbsView(vec![y], 30)])
    );
}

#[test]
fn view_map_goes_left_to_right() {
    let view: View<char, (), u8> =
        View::Op('s', vec![AbsView(vec![], 5), AbsView(vec![], 6), AbsView(vec![], 7)]);
    let mut seen = Vec::new();
    let mapped = view.map(|n| {
        seen.push(*n);
        seen.len()
    });
    assert_eq!(seen, vec![5, 6, 7]);
    assert_eq!(
        mapped,
        View::Op('s', vec![AbsView(vec![], 1usize), AbsView(vec![], 2), AbsView(vec![], 3)])
    );
}

#[test]
fn abs_view_clone_is_equal() {
    let mut supply = Supply::new();
    let x = supply.fresh(1u8);
    let y = supply.fresh(2u8);
    let scope = AbsView(vec![x.clone(), y.clone()], String::from("body"));
    let copy = scope.clone();
    assert_eq!(copy, scope);
    assert_eq!(copy.0.len(), 2);
    assert!(copy.0[0] == x && copy.0[1] == y);
    assert_eq!((copy.0[0].sort(), copy.0[1].sort()), (&1u8, &2u8));
    assert_eq!(copy.1, "body");
}

#[test]
fn view_clone_is_equal() {
    let mut supply = Supply::new();
    let x = supply.fresh(());
    let variable: View<char, (), u8> = View::Var(x.clone());
    assert_eq!(variable.clone(), variable);
    let application = View::Op('+', vec![AbsView(vec![x.clone()], 1u8), AbsView(vec![], 2)]);
    assert_eq!(application.clone(), application);
    assert_ne!(application.clone(), variable);
    assert_ne!(application, View::Op('+', vec![AbsView(vec![x], 1u8)]));
}

#[test]
fn view_map_on_no_operands() {
    let view: View<char, (), u8> = View::Op('0', vec![]);
    let mapped: View<char, (), bool> = view.map(|_| true);
    assert_eq!(mapped, View::Op('0', vec![]));
}
