use kd_index::node::{clone_key, InternalNode, Node};
use kd_index::point::{LeafNode, Point};
use kd_index::search::{get_closer, get_sides, is_inside, should_check_bad_side};

fn leaf(name: &str, x: i32, y: i32) -> LeafNode {
    LeafNode::new(name.to_owned(), x, y)
}

fn inner(parent: Option<&str>, div: i64, less: &str, more: &str) -> InternalNode {
    InternalNode {
        parent: parent.map(|p| p.to_owned()),
        div: div,
        less: less.to_owned(),
        more: more.to_owned(),
    }
}

#[test]
fn closer_prefers_the_present_and_the_nearer() {
    let q = leaf("q", 0, 0);
    let near = leaf("near", 1, 1);
    let far = leaf("far", 3, 3);
    assert!(get_closer(None, None, &q).is_none());
    assert_eq!(get_closer(Some(&near), None, &q).unwrap().name, "near");
    assert_eq!(get_closer(None, Some(&far), &q).unwrap().name, "far");
    assert_eq!(get_closer(Some(&near), Some(&far), &q).unwrap().name, "near");
    assert_eq!(get_closer(Some(&far), Some(&near), &q).unwrap().name, "near");
}

#[test]
fn closer_keeps_the_second_on_equal_distance() {
    let q = leaf("q", 0, 0);
    let a = leaf("a", 3, 4);
    let b = leaf("b", 5, 0);
    assert_eq!(get_closer(Some(&a), Some(&b), &q).unwrap().name, "b");
    assert_eq!(get_closer(Some(&b), Some(&a), &q).unwrap().name, "a");
}

#[test]
fn far_side_is_checked_without_a_candidate() {
    let q = leaf("q", 0, 0);
    assert!(should_check_bad_side(None, &q, 1000, 0));
    assert!(should_check_bad_side(None, &q, -1000, 1));
}

#[test]
fn far_side_is_checked_only_when_the_divider_is_nearer() {
    let q = leaf("q", 0, 0);
    let c = leaf("c", 3, 4);
    // The candidate is 5 away; the divider is kept doubled.
    assert!(should_check_bad_side(Some(&c), &q, 8, 0));
    assert!(should_check_bad_side(Some(&c), &q, 9, 0));
    assert!(!should_check_bad_side(Some(&c), &q, 10, 0));
    assert!(!should_check_bad_side(Some(&c), &q, 11, 0));
    assert!(should_check_bad_side(Some(&c), &q, -9, 1));
    assert!(!should_check_bad_side(Some(&c), &q, -10, 1));
}

#[test]
fn far_side_check_holds_at_the_limits() {
    let q = leaf("q", i32::MIN, i32::MIN);
    let c = leaf("c", i32::MAX, i32::MAX);
    assert!(should_check_bad_side(Some(&c), &q, 2 * (i32::MIN as i64), 0));
    assert!(!should_check_bad_side(Some(&q), &q, 0, 0));
}

#[test]
fn inside_depends_on_the_axis() {
    let q = leaf("q", 5, 5);
    assert!(is_inside(&q, 10, 0));
    assert!(is_inside(&q, 9, 0));
    assert!(!is_inside(&q, 11, 0));
    assert!(is_inside(&q, 10, 1));
    assert!(is_inside(&q, 11, 1));
    assert!(!is_inside(&q, 9, 1));
}

#[test]
fn sides_swap_with_the_axis() {
    let n = inner(None, 0, "low", "high");
    assert_eq!(get_sides(&n, 0), ("low".to_owned(), "high".to_owned()));
    assert_eq!(get_sides(&n, 1), ("high".to_owned(), "low".to_owned()));
}

#[test]
fn node_tells_its_variant() {
    let l = Node::Leaf(leaf("a", 1, 2));
    let i = Node::Internal(inner(Some("p"), 4, "x", "y"));
    assert!(l.is_leaf() && !l.is_internal());
    assert!(i.is_internal() && !i.is_leaf());
    assert_eq!(l.leaf().name, "a");
    assert_eq!(i.internal().div, 4);
    assert_eq!(i.internal().less, "x");
    assert_eq!(i.internal().more, "y");
}

#[test]
fn set_parent_changes_only_the_parent() {
    let mut l = Node::Leaf(leaf("a", 1, 2));
    l.set_parent(Some("p".to_owned()));
    assert_eq!(l.leaf().parent.as_deref(), Some("p"));
    assert_eq!(l.leaf().name, "a");
    assert_eq!(l.leaf().point, [1, 2]);
    let mut i = Node::Internal(inner(Some("p"), 4, "x", "y"));
    i.set_parent(None);
    assert!(i.internal().parent.is_none());
    assert_eq!(i.internal().div, 4);
    assert_eq!(i.internal().less, "x");
    assert_eq!(i.internal().more, "y");
}

#[test]
fn internal_mut_reaches_the_stored_node() {
    let mut i = Node::Internal(inner(None, 4, "x", "y"));
    i.internal_mut().more = "z".to_owned();
    assert_eq!(i.internal().more, "z");
    assert_eq!(i.internal().less, "x");
}

#[test]
fn copies_are_equal_in_every_field() {
    let l = Node::Leaf(LeafNode { name: "a".to_owned(), parent: Some("p".to_owned()), point: [7, -7] });
    let c = l.duplicate();
    assert_eq!(c.leaf().name, "a");
    assert_eq!(c.leaf().parent.as_deref(), Some("p"));
    assert_eq!(c.leaf().point, [7, -7]);
    let i = inner(Some("p"), -3, "x", "y").duplicate();
    assert_eq!(i.parent.as_deref(), Some("p"));
    assert_eq!(i.div, -3);
    assert_eq!(i.less, "x");
    assert_eq!(i.more, "y");
    let p = Point { name: "n".to_owned(), p: [1, 2] }.duplicate();
    assert_eq!(p.name, "n");
    assert_eq!(p.p, [1, 2]);
    assert_eq!(clone_key(&Some("k".to_owned())), Some("k".to_owned()));
    assert_eq!(clone_key(&None), None);
}
