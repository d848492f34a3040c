use kd_index::error::KdError;
use kd_index::kd_tree::KdTree;
use kd_index::point::{LeafNode, Point};

/// Coordinates are handed over in thousandths.
fn fx(v: f32) -> i32 {
    (v * 1000.0).round() as i32
}

fn pt(name: &str, x: f32, y: f32) -> Point {
    Point { name: name.to_owned(), p: [fx(x), fx(y)] }
}

fn reference_points() -> Vec<Point> {
    vec![pt("1", 4.0, 6.0), pt("2", 8.0, 4.0), pt("3", 10.0, 5.0), pt("4", 12.0, 8.0)]
}

fn found(kd: &KdTree, x: f32, y: f32) -> Option<String> {
    kd.search(fx(x), fx(y)).map(|l| l.name.clone())
}

#[test]
fn should_create_kd_tree() {
    let mut kd = KdTree::new(2);

    let mut arr = reference_points();

    kd.build(&mut arr).unwrap();

    let root = kd.get(kd.root().unwrap()).unwrap().internal();
    let root_less = kd.get(&root.less).unwrap().internal();
    let root_more = kd.get(&root.more).unwrap().internal();

    let two = kd.get(&root_less.less).unwrap().leaf();
    let one = kd.get(&root_less.more).unwrap().leaf();

    let three = kd.get(&root_more.less).unwrap().leaf();
    let four = kd.get(&root_more.more).unwrap().leaf();

    assert_eq!(one.name, "1");
    assert_eq!(two.name, "2");
    assert_eq!(three.name, "3");
    assert_eq!(four.name, "4");
}

#[test]
fn should_find_nearest() {
    let mut kd = KdTree::new(2);

    let mut arr = reference_points();

    kd.build(&mut arr).unwrap();

    let res = kd.search(fx(2.0), fx(8.0));
    assert_eq!(res.unwrap().name, "1");
    let res = kd.search(fx(7.0), fx(4.2));
    assert_eq!(res.unwrap().name, "2");
    let res = kd.search(fx(9.0), fx(6.0));
    assert_eq!(res.unwrap().name, "3");
    let res = kd.search(fx(11.0), fx(9.0));
    assert_eq!(res.unwrap().name, "4");
    let res = kd.search(fx(7.0), fx(5.5));
    assert_eq!(res.unwrap().name, "2");
    let res = kd.search(fx(7.9), fx(7.9));
    assert_eq!(res.unwrap().name, "3");
    let res = kd.search(fx(9.8), fx(8.1));
    assert_eq!(res.unwrap().name, "4");
    let res = kd.search(fx(10.0), fx(2.0));
    assert_eq!(res.is_none(), true);
}

#[test]
fn should_remove_leaf_node() {
    let mut kd = KdTree::new(2);

    let mut arr = reference_points();

    kd.build(&mut arr).unwrap();

    kd.remove("2").unwrap();

    let root = kd.get(kd.root().unwrap()).unwrap().internal();
    let root_more = kd.get(&root.more).unwrap().internal();

    let one = kd.get(&root.less).unwrap().leaf();
    let three = kd.get(&root_more.less).unwrap().leaf();
    let four = kd.get(&root_more.more).unwrap().leaf();

    assert_eq!(one.name, "1");
    assert_eq!(three.name, "3");
    assert_eq!(four.name, "4");

    kd.remove("3").unwrap();

    let root = kd.get(kd.root().unwrap()).unwrap().internal();

    let one = kd.get(&root.less).unwrap().leaf();
    let four = kd.get(&root.more).unwrap().leaf();

    assert_eq!(one.name, "1");
    assert_eq!(four.name, "4");

    kd.remove("1").unwrap();

    let root = kd.get(kd.root().unwrap()).unwrap().leaf();
    assert_eq!(root.name, "4");

    kd.remove("4").unwrap();

    assert_eq!(kd.root().is_none(), true);
    assert_eq!(kd.len(), 0);
}

#[test]
fn should_find_nearest_after_remove() {
    let mut kd = KdTree::new(2);

    let mut arr = reference_points();

    kd.build(&mut arr).unwrap();

    kd.remove("2").unwrap();

    let res = kd.search(fx(2.0), fx(8.0));
    assert_eq!(res.unwrap().name, "1");
    let res = kd.search(fx(7.0), fx(4.2));
    assert_eq!(res.is_none(), true);
    let res = kd.search(fx(9.0), fx(6.0));
    assert_eq!(res.unwrap().name, "3");
    let res = kd.search(fx(11.0), fx(9.0));
    assert_eq!(res.unwrap().name, "4");
}

#[test]
fn reference_scenario() {
    let mut kd = KdTree::new(2);
    let mut arr = reference_points();
    kd.build(&mut arr).unwrap();
    assert_eq!(found(&kd, 2.0, 8.0), Some("1".to_owned()));
    assert_eq!(found(&kd, 7.0, 4.2), Some("2".to_owned()));
    assert_eq!(found(&kd, 10.0, 2.0), None);
    kd.remove("2").unwrap();
    assert_eq!(found(&kd, 7.0, 4.2), None);
    assert_eq!(found(&kd, 2.0, 8.0), Some("1".to_owned()));
}

#[test]
fn squared_distance_is_exact() {
    let a = LeafNode::new("a".to_owned(), 1, 2);
    let b = LeafNode::new("b".to_owned(), 4, 6);
    assert_eq!(a.dist(&b), 25);
    assert_eq!(b.dist(&a), 25);
    assert_eq!(a.dist(&a), 0);
    let lo = LeafNode::new("lo".to_owned(), i32::MIN, i32::MIN);
    let hi = LeafNode::new("hi".to_owned(), i32::MAX, i32::MAX);
    let side: u128 = (1u128 << 32) - 1;
    assert_eq!(lo.dist(&hi), 2 * side * side);
}

#[test]
fn dominance_is_strict_on_both_axes() {
    let q = LeafNode::new("q".to_owned(), 5, 5);
    assert!(q.contains(&LeafNode::new("a".to_owned(), 6, 4)));
    assert!(!q.contains(&LeafNode::new("b".to_owned(), 5, 4)));
    assert!(!q.contains(&LeafNode::new("c".to_owned(), 6, 5)));
    assert!(!q.contains(&LeafNode::new("d".to_owned(), 4, 6)));
    assert!(!q.contains(&q));
}

#[test]
fn new_leaf_has_no_parent() {
    let l = LeafNode::new("x".to_owned(), -3, 7);
    assert_eq!(l.name, "x");
    assert!(l.parent.is_none());
    assert_eq!(l.point, [-3, 7]);
}

#[test]
fn empty_index_finds_nothing() {
    let kd = KdTree::new(2);
    assert!(kd.search(0, 0).is_none());
    assert!(kd.root().is_none());
    assert_eq!(kd.len(), 0);
}

#[test]
fn build_refuses_no_points() {
    let mut kd = KdTree::new(2);
    let mut arr: Vec<Point> = Vec::new();
    assert_eq!(kd.build(&mut arr), Err(KdError::MalformedInput));
    assert_eq!(kd.len(), 0);
    assert!(kd.root().is_none());
}

#[test]
fn build_refuses_repeated_name() {
    let mut kd = KdTree::new(2);
    let mut arr = vec![pt("a", 1.0, 1.0), pt("b", 2.0, 2.0), pt("a", 3.0, 3.0)];
    assert_eq!(kd.build(&mut arr), Err(KdError::MalformedInput));
    assert_eq!(kd.len(), 0);
    assert_eq!(arr[0].name, "a");
    assert_eq!(arr[1].name, "b");
    assert_eq!(arr[2].name, "a");
}

#[test]
fn single_point_is_the_root() {
    let mut kd = KdTree::new(2);
    let mut arr = vec![pt("only", 3.0, 3.0)];
    kd.build(&mut arr).unwrap();
    assert_eq!(kd.len(), 1);
    assert_eq!(kd.root().unwrap(), "only");
    let leaf = kd.get("only").unwrap().leaf();
    assert!(leaf.parent.is_none());
    assert_eq!(found(&kd, 2.0, 4.0), Some("only".to_owned()));
    assert_eq!(found(&kd, 3.0, 4.0), None);
}

#[test]
fn removing_the_last_leaf_empties_the_index() {
    let mut kd = KdTree::new(2);
    let mut arr = vec![pt("only", 3.0, 3.0)];
    kd.build(&mut arr).unwrap();
    kd.remove("only").unwrap();
    assert!(kd.root().is_none());
    assert_eq!(kd.len(), 0);
    assert_eq!(found(&kd, 2.0, 4.0), None);
    assert_eq!(found(&kd, -100.0, 100.0), None);
    assert_eq!(kd.remove("only"), Err(KdError::NotFound));
}

#[test]
fn remove_refuses_unknown_and_internal_keys() {
    let mut kd = KdTree::new(2);
    let mut arr = reference_points();
    let keys = vec!["k0".to_owned(), "k1".to_owned(), "k2".to_owned()];
    kd.build_with_keys(&mut arr, &keys).unwrap();
    assert_eq!(kd.remove("5"), Err(KdError::NotFound));
    assert_eq!(kd.remove("k0"), Err(KdError::NotFound));
    assert_eq!(kd.remove("k1"), Err(KdError::NotFound));
    assert_eq!(kd.len(), 7);
    assert_eq!(kd.root().unwrap(), "k0");
}

#[test]
fn keys_are_taken_from_the_root_down() {
    let mut kd = KdTree::new(2);
    let mut arr = reference_points();
    let keys = vec!["k0".to_owned(), "k1".to_owned(), "k2".to_owned()];
    kd.build_with_keys(&mut arr, &keys).unwrap();
    assert_eq!(kd.len(), 7);
    assert_eq!(kd.root().unwrap(), "k0");
    let root = kd.get("k0").unwrap().internal();
    assert!(root.parent.is_none());
    assert_eq!(root.less, "k1");
    assert_eq!(root.more, "k2");
    assert_eq!(root.div, 2 * fx(9.0) as i64);
    let low = kd.get("k1").unwrap().internal();
    assert_eq!(low.parent.as_deref(), Some("k0"));
    assert_eq!(low.less, "2");
    assert_eq!(low.more, "1");
    assert_eq!(low.div, 2 * fx(5.0) as i64);
    let high = kd.get("k2").unwrap().internal();
    assert_eq!(high.parent.as_deref(), Some("k0"));
    assert_eq!(high.less, "3");
    assert_eq!(high.more, "4");
    assert_eq!(high.div, 2 * fx(6.5) as i64);
    assert_eq!(kd.get("2").unwrap().leaf().parent.as_deref(), Some("k1"));
    assert_eq!(kd.get("4").unwrap().leaf().parent.as_deref(), Some("k2"));
    assert!(kd.get("k1").unwrap().is_internal());
    assert!(kd.get("1").unwrap().is_leaf());
}

#[test]
fn build_leaves_the_points_sorted_on_the_first_axis() {
    let mut kd = KdTree::new(2);
    let mut arr = vec![pt("c", 3.0, 0.0), pt("a", 1.0, 5.0), pt("b", 1.0, 2.0), pt("d", 0.0, 1.0)];
    let keys = vec!["k0".to_owned(), "k1".to_owned(), "k2".to_owned()];
    kd.build_with_keys(&mut arr, &keys).unwrap();
    let order: Vec<&str> = arr.iter().map(|p| p.name.as_str()).collect();
    assert_eq!(order, vec!["d", "a", "b", "c"]);
    let root = kd.get("k0").unwrap().internal();
    assert_eq!(root.div, fx(1.0) as i64 + fx(1.0) as i64);
}

#[test]
fn odd_count_puts_the_smaller_half_low() {
    let mut kd = KdTree::new(2);
    let mut arr = vec![pt("a", 1.0, 1.0), pt("b", 2.0, 2.0), pt("c", 4.0, 3.0)];
    let keys = vec!["k0".to_owned(), "k1".to_owned()];
    kd.build_with_keys(&mut arr, &keys).unwrap();
    let root = kd.get("k0").unwrap().internal();
    assert_eq!(root.less, "a");
    assert_eq!(root.more, "k1");
    assert_eq!(root.div, fx(1.0) as i64 + fx(2.0) as i64);
    let upper = kd.get("k1").unwrap().internal();
    assert_eq!(upper.less, "b");
    assert_eq!(upper.more, "c");
    assert_eq!(upper.div, fx(2.0) as i64 + fx(3.0) as i64);
}

#[test]
fn build_with_keys_refuses_bad_keys() {
    let mut kd = KdTree::new(2);
    let mut arr = reference_points();
    let few = vec!["k0".to_owned(), "k1".to_owned()];
    assert_eq!(kd.build_with_keys(&mut arr, &few), Err(KdError::BadKeys));
    let twice = vec!["k0".to_owned(), "k1".to_owned(), "k0".to_owned()];
    assert_eq!(kd.build_with_keys(&mut arr, &twice), Err(KdError::BadKeys));
    let named = vec!["k0".to_owned(), "3".to_owned(), "k2".to_owned()];
    assert_eq!(kd.build_with_keys(&mut arr, &named), Err(KdError::BadKeys));
    assert_eq!(kd.len(), 0);
    let spare = vec!["k0".to_owned(), "k1".to_owned(), "k2".to_owned(), "k0".to_owned()];
    assert_eq!(kd.build_with_keys(&mut arr, &spare), Ok(()));
    assert_eq!(kd.len(), 7);
}

#[test]
fn malformed_input_is_reported_before_bad_keys() {
    let mut kd = KdTree::new(2);
    let mut arr = vec![pt("a", 1.0, 1.0), pt("a", 2.0, 2.0)];
    let none: Vec<String> = Vec::new();
    assert_eq!(kd.build_with_keys(&mut arr, &none), Err(KdError::MalformedInput));
}

#[test]
fn drawn_keys_are_ten_letters_or_digits_and_differ() {
    let mut kd = KdTree::new(2);
    let mut arr = reference_points();
    kd.build(&mut arr).unwrap();
    let root_key = kd.root().unwrap().clone();
    let root = kd.get(&root_key).unwrap().internal();
    for key in [&root_key, &root.less, &root.more] {
        assert_eq!(key.chars().count(), 10);
        assert!(key.chars().all(|c| c.is_ascii_alphanumeric()));
    }
    assert_ne!(root.less, root.more);
    assert_ne!(root_key, root.less);
    assert_ne!(root_key, root.more);
}

#[test]
fn every_point_is_a_leaf_after_build() {
    let mut kd = KdTree::new(2);
    let names = ["a", "b", "c", "d", "e", "f", "g"];
    let mut arr: Vec<Point> = Vec::new();
    for (i, n) in names.iter().enumerate() {
        let v = i as i32;
        arr.push(Point { name: (*n).to_owned(), p: [(v * 37) % 11, (v * 53) % 13] });
    }
    kd.build(&mut arr).unwrap();
    assert_eq!(kd.len(), 2 * names.len() - 1);
    for n in names.iter() {
        assert!(kd.get(n).unwrap().is_leaf());
    }
}

#[test]
fn search_result_is_dominated_and_nearest() {
    let mut kd = KdTree::new(2);
    let mut pts: Vec<(String, i32, i32)> = Vec::new();
    let mut arr: Vec<Point> = Vec::new();
    for i in 0..25i32 {
        let x = (i * 7) % 23;
        let y = (i * 11) % 19;
        let name = format!("p{}", i);
        pts.push((name.clone(), x, y));
        arr.push(Point { name: name, p: [x, y] });
    }
    kd.build(&mut arr).unwrap();
    for qx in -1..24i32 {
        for qy in -1..20i32 {
            let mut best: Option<i64> = None;
            for (_, x, y) in pts.iter() {
                if *x > qx && *y < qy {
                    let d = ((*x - qx) as i64).pow(2) + ((*y - qy) as i64).pow(2);
                    if best.map_or(true, |b| d < b) {
                        best = Some(d);
                    }
                }
            }
            match kd.search(qx, qy) {
                None => assert!(best.is_none()),
                Some(l) => {
                    assert!(l.point[0] > qx && l.point[1] < qy);
                    let d = ((l.point[0] - qx) as i64).pow(2) + ((l.point[1] - qy) as i64).pow(2);
                    assert_eq!(Some(d), best);
                },
            }
        }
    }
}

#[test]
fn equidistant_candidates_give_one_of_them() {
    let mut kd = KdTree::new(2);
    let mut arr = vec![pt("a", 2.0, 0.0), pt("b", 1.0, -1.0)];
    let keys = vec!["k0".to_owned()];
    kd.build_with_keys(&mut arr, &keys).unwrap();
    let res = found(&kd, 0.0, 1.0).unwrap();
    assert!(res == "a" || res == "b");
}

#[test]
fn removals_keep_every_other_leaf_linked() {
    let mut kd = KdTree::new(2);
    let names = ["a", "b", "c", "d", "e", "f"];
    let mut arr: Vec<Point> = Vec::new();
    for (i, n) in names.iter().enumerate() {
        let v = i as i32;
        arr.push(Point { name: (*n).to_owned(), p: [v * 3, 20 - v * 2] });
    }
    kd.build(&mut arr).unwrap();
    let mut left = names.len();
    for gone in ["c", "a", "f", "d"] {
        kd.remove(gone).unwrap();
        left -= 1;
        assert_eq!(kd.len(), 2 * left - 1);
        assert!(kd.get(gone).is_none());
        for n in names.iter() {
            if let Some(node) = kd.get(n) {
                let mut key: String = (*n).to_owned();
                let mut up = node.leaf().parent.clone();
                let mut steps = 0;
                while let Some(p) = up {
                    let above = kd.get(&p).unwrap().internal();
                    assert!(above.less == key || above.more == key);
                    key = p;
                    up = above.parent.clone();
                    steps += 1;
                    assert!(steps <= names.len());
                }
                assert_eq!(kd.root().unwrap(), &key);
            }
        }
    }
}

#[test]
fn sibling_becomes_root_when_parent_was_root() {
    let mut kd = KdTree::new(2);
    let mut arr = vec![pt("a", 1.0, 1.0), pt("b", 2.0, 2.0)];
    let keys = vec!["k0".to_owned()];
    kd.build_with_keys(&mut arr, &keys).unwrap();
    kd.remove("a").unwrap();
    assert_eq!(kd.root().unwrap(), "b");
    assert_eq!(kd.len(), 1);
    assert!(kd.get("b").unwrap().leaf().parent.is_none());
    assert!(kd.get("k0").is_none());
}

#[test]
fn grandparent_slot_is_rewritten() {
    let mut kd = KdTree::new(2);
    let mut arr = reference_points();
    let keys = vec!["k0".to_owned(), "k1".to_owned(), "k2".to_owned()];
    kd.build_with_keys(&mut arr, &keys).unwrap();
    kd.remove("4").unwrap();
    let root = kd.get("k0").unwrap().internal();
    assert_eq!(root.less, "k1");
    assert_eq!(root.more, "3");
    assert_eq!(root.div, 2 * fx(9.0) as i64);
    assert_eq!(kd.get("3").unwrap().leaf().parent.as_deref(), Some("k0"));
    assert!(kd.get("k2").is_none());
    assert!(kd.get("4").is_none());
    assert_eq!(kd.len(), 5);
}

#[test]
fn error_messages_differ() {
    assert_eq!(KdError::NotFound.message(), "no leaf of that name");
    assert_eq!(KdError::MalformedInput.message(), "empty input or a repeated name");
    assert_eq!(KdError::BadKeys.message(), "too few keys, or a key already in use");
}

#[test]
fn keys_are_listed_from_the_root_down() {
    let mut kd = KdTree::new(2);
    assert!(kd.keys().is_empty());
    let mut arr = reference_points();
    let keys = vec!["k0".to_owned(), "k1".to_owned(), "k2".to_owned()];
    kd.build_with_keys(&mut arr, &keys).unwrap();
    assert_eq!(kd.keys(), vec!["k0", "k1", "2", "1", "k2", "3", "4"]);
    kd.remove("2").unwrap();
    assert_eq!(kd.keys(), vec!["k0", "1", "k2", "3", "4"]);
    kd.remove("4").unwrap();
    kd.remove("3").unwrap();
    assert_eq!(kd.keys(), vec!["1"]);
    kd.remove("1").unwrap();
    assert!(kd.keys().is_empty());
}

#[test]
fn a_divider_left_from_before_a_removal_can_hide_a_leaf() {
    let mut kd = KdTree::new(2);
    let mut arr = vec![
        Point { name: "a".to_owned(), p: [6, 2] },
        Point { name: "b".to_owned(), p: [5, 7] },
        Point { name: "c".to_owned(), p: [1, 5] },
    ];
    let keys = vec!["k0".to_owned(), "k1".to_owned()];
    kd.build_with_keys(&mut arr, &keys).unwrap();
    assert_eq!(kd.search(5, 3).unwrap().name, "a");
    kd.remove("c").unwrap();
    // The node that split on axis 1 is now the root and splits on axis 0,
    // with the divider it had: the walk turns away from "a".
    assert_eq!(kd.root().unwrap(), "k1");
    assert_eq!(kd.get("k1").unwrap().internal().div, 9);
    assert!(kd.search(5, 3).is_none());
    // What is found is still dominated.
    let l = kd.search(4, 8).unwrap();
    assert!(l.point[0] > 4 && l.point[1] < 8);
}
