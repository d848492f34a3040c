use kd_index::input::{copy_range, distinct_names, fresh_keys};
use kd_index::point::Point;

fn named(names: &[&str]) -> Vec<Point> {
    names.iter().map(|n| Point { name: (*n).to_owned(), p: [0, 0] }).collect()
}

fn strings(keys: &[&str]) -> Vec<String> {
    keys.iter().map(|k| (*k).to_owned()).collect()
}

#[test]
fn distinct_names_are_collected() {
    let seen = distinct_names(&named(&["a", "b", "c"])).unwrap();
    assert_eq!(seen.len(), 3);
    assert!(seen.contains_key("a"));
    assert!(seen.contains_key("c"));
    assert!(!seen.contains_key("d"));
    assert_eq!(distinct_names(&named(&[])).unwrap().len(), 0);
}

#[test]
fn a_repeated_name_is_noticed_wherever_it_stands() {
    assert!(distinct_names(&named(&["a", "a"])).is_none());
    assert!(distinct_names(&named(&["a", "b", "c", "b"])).is_none());
    assert!(distinct_names(&named(&["x", "b", "c", "x"])).is_none());
}

#[test]
fn only_the_keys_counted_are_looked_at() {
    let taken = || distinct_names(&named(&["a", "b"])).unwrap();
    assert!(fresh_keys(taken(), &strings(&["k", "l"]), 2));
    assert!(fresh_keys(taken(), &strings(&["k", "k"]), 1));
    assert!(!fresh_keys(taken(), &strings(&["k", "k"]), 2));
    assert!(!fresh_keys(taken(), &strings(&["k", "a"]), 2));
    assert!(fresh_keys(taken(), &strings(&["k", "a"]), 1));
    assert!(!fresh_keys(taken(), &strings(&["k"]), 2));
    assert!(fresh_keys(taken(), &strings(&[]), 0));
}

#[test]
fn a_range_is_copied_in_order() {
    let pts = named(&["a", "b", "c", "d"]);
    let mid: Vec<String> = copy_range(&pts, 1, 3).into_iter().map(|p| p.name).collect();
    assert_eq!(mid, vec!["b", "c"]);
    assert!(copy_range(&pts, 2, 2).is_empty());
    assert_eq!(copy_range(&pts, 0, 4).len(), 4);
}
