use ukmm_merge::delete_map::DeleteMap;
use ukmm_merge::node::{node_eq, Node};

fn str_node(x: &str) -> Node {
    Node::String(x.to_string())
}

fn value_is(m: &DeleteMap, k: u32, x: &str) -> bool {
    match m.get(k) {
        Some(n) => node_eq(n, &str_node(x)),
        None => false,
    }
}

#[test]
fn tombstone_survives_later_silent_diff() {
    let mut base = DeleteMap::new();
    base.insert(1, str_node("A"));
    base.insert(2, str_node("B"));
    let mut d1 = DeleteMap::new();
    d1.remove(1);
    let mut d2 = DeleteMap::new();
    d2.insert(2, str_node("B2"));
    let out = base.merge(&d1).merge(&d2);
    assert!(out.find(1).is_none());
    assert!(value_is(&out, 2, "B2"));
}

#[test]
fn stacking_order_is_observable() {
    let mut base = DeleteMap::new();
    base.insert(5, str_node("base"));
    let mut d1 = DeleteMap::new();
    d1.insert(5, str_node("one"));
    let mut d2 = DeleteMap::new();
    d2.insert(5, str_node("two"));
    assert!(value_is(&base.merge(&d1).merge(&d2), 5, "two"));
    assert!(value_is(&base.merge(&d2).merge(&d1), 5, "one"));
}

#[test]
fn merge_edge_cases() {
    let empty = DeleteMap::new();
    let mut d = DeleteMap::new();
    d.insert(4, str_node("x"));
    d.remove(9);
    let out = empty.merge(&d);
    assert_eq!(out.len(), 1);
    assert!(value_is(&out, 4, "x"));
    let mut base = DeleteMap::new();
    base.insert(1, str_node("a"));
    let same = base.merge(&empty);
    assert_eq!(same.len(), 1);
    assert!(value_is(&same, 1, "a"));
}

#[test]
fn insert_and_remove_in_place() {
    let mut m = DeleteMap::new();
    m.insert(1, str_node("a"));
    m.insert(2, str_node("b"));
    m.insert(1, str_node("c"));
    assert_eq!(m.len(), 2);
    assert_eq!(m.find(1), Some(0));
    assert!(value_is(&m, 1, "c"));
    m.remove(2);
    assert_eq!(m.len(), 2);
    assert!(m.get(2).is_none());
    m.remove(3);
    assert_eq!(m.find(3), Some(2));
}

#[test]
fn diff_lists_changes_then_tombstones() {
    let mut a = DeleteMap::new();
    a.insert(1, str_node("a"));
    a.insert(2, str_node("b"));
    let mut b = DeleteMap::new();
    b.insert(3, str_node("c"));
    b.insert(2, str_node("b"));
    let d = a.diff(&b);
    assert_eq!(d.len(), 2);
    assert_eq!(d.find(3), Some(0));
    assert_eq!(d.find(1), Some(1));
    assert!(d.get(1).is_none());
    assert!(d.find(2).is_none());
}

#[test]
fn node_equality_is_structural() {
    let a = Node::Array(vec![Node::Float(0x3fc0_0000), Node::Binary(vec![1, 2])]);
    let b = Node::Array(vec![Node::Float(0x3fc0_0000), Node::Binary(vec![1, 2])]);
    let c = Node::Array(vec![Node::Float(0x3fc0_0000), Node::Binary(vec![1, 3])]);
    assert!(node_eq(&a, &b));
    assert!(!node_eq(&a, &c));
    assert!(!node_eq(&Node::I32(1), &Node::U32(1)));
}
