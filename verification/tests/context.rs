use abt::context::Context;

#[test]
fn empty_context_has_nothing() {
    let context: Context<u8> = Context::Empty;
    assert_eq!(context.lookup(0), None);
    assert_eq!(context.lookup(5), None);
}

#[test]
fn one_group_is_indexed_in_order() {
    let group = vec!['a', 'b', 'c'];
    let empty = Context::Empty;
    let context = Context::Bindings(&empty, &group);
    assert_eq!(context.lookup(0), Some(&'a'));
    assert_eq!(context.lookup(1), Some(&'b'));
    assert_eq!(context.lookup(2), Some(&'c'));
    assert_eq!(context.lookup(3), None);
}

#[test]
fn inner_group_comes_first() {
    let outer_group = vec![10, 20];
    let inner_group = vec![1, 2, 3];
    let empty = Context::Empty;
    let outer = Context::Bindings(&empty, &outer_group);
    let inner = Context::Bindings(&outer, &inner_group);
    assert_eq!(inner.lookup(0), Some(&1));
    assert_eq!(inner.lookup(2), Some(&3));
    assert_eq!(inner.lookup(3), Some(&10));
    assert_eq!(inner.lookup(4), Some(&20));
    assert_eq!(inner.lookup(5), None);
    assert_eq!(inner.lookup(usize::MAX), None);
}

#[test]
fn empty_group_is_skipped() {
    let outer_group = vec!["x"];
    let inner_group: Vec<&str> = vec![];
    let empty = Context::Empty;
    let outer = Context::Bindings(&empty, &outer_group);
    let inner = Context::Bindings(&outer, &inner_group);
    assert_eq!(inner.lookup(0), Some(&"x"));
    assert_eq!(inner.lookup(1), None);
}
