use playlist::flat_map::flat_map_ours;
use playlist::flatten::{flatten, Flatten};

#[test]
fn two() {
    assert_eq!(flatten(vec![vec!["a", "b"]]).count(), 2)
}

#[test]
fn reverse() {
    let mut iter = flatten(vec![vec!["a", "b"], vec!["c", "d"]]);
    assert_eq!(Some("a"), iter.next());
    assert_eq!(Some("d"), iter.next_back());
    assert_eq!(Some("b"), iter.next());
    assert_eq!(Some("c"), iter.next_back());
    assert_eq!(None, iter.next());
    assert_eq!(None, iter.next_back());
}

#[test]
fn reverse_front_asymm() {
    let mut iter = flatten(vec![vec!["a"], vec!["b", "c"]]);
    assert_eq!(Some("a"), iter.next());
    assert_eq!(Some("c"), iter.next_back());
    assert_eq!(Some("b"), iter.next());
}

#[test]
fn reverse_end_asymm() {
    let mut iter = flatten(vec![vec!["a", "b"], vec!["c"]]);
    assert_eq!(Some("a"), iter.next());
    assert_eq!(Some("c"), iter.next_back());
    assert_eq!(Some("b"), iter.next_back());
}

#[test]
fn flatten_empty() {
    let outer: Vec<Vec<u32>> = vec![];
    let mut iter = flatten(outer);
    assert_eq!(None, iter.next());
    assert_eq!(None, iter.next_back());
    let outer: Vec<Vec<u32>> = vec![vec![], vec![]];
    assert_eq!(flatten(outer).count(), 0);
}

#[test]
fn flatten_skips_empty_inner() {
    let mut iter = Flatten::new(vec![vec![], vec![1], vec![], vec![2, 3], vec![]]);
    assert_eq!(Some(1), iter.next());
    assert_eq!(Some(3), iter.next_back());
    assert_eq!(Some(2), iter.next_back());
    assert_eq!(None, iter.next());
    assert_eq!(None, iter.next_back());
}

#[test]
fn flatten_all_from_front_or_back() {
    let mut front = flatten(vec![vec![1, 2], vec![], vec![3]]);
    let mut seen = Vec::new();
    while let Some(x) = front.next() {
        seen.push(x);
    }
    assert_eq!(seen, vec![1, 2, 3]);
    let mut back = flatten(vec![vec![1, 2], vec![], vec![3]]);
    let mut seen = Vec::new();
    while let Some(x) = back.next_back() {
        seen.push(x);
    }
    assert_eq!(seen, vec![3, 2, 1]);
}

#[test]
fn flatten_count() {
    assert_eq!(flatten(vec![vec![1, 2, 3], vec![], vec![4]]).count(), 4);
}

#[test]
fn flat_map_maps_lazily_in_order() {
    let mut m = flat_map_ours(vec![1u32, 0, 2], |x: u32| vec![x; x as usize]);
    assert_eq!(Some(1), m.next());
    assert_eq!(Some(2), m.next());
    assert_eq!(Some(2), m.next());
    assert_eq!(None, m.next());
    assert_eq!(None, m.next());
}

#[test]
fn flat_map_empty() {
    let mut m = flat_map_ours(Vec::<u32>::new(), |x: u32| vec![x]);
    assert_eq!(None, m.next());
}

#[test]
fn flat_map_calls_mapper_once_per_item_lazily() {
    let calls = std::cell::Cell::new(0u32);
    let mut m = flat_map_ours(vec![2u32, 1, 3], |x: u32| {
        calls.set(calls.get() + 1);
        vec![x; x as usize]
    });
    assert_eq!(calls.get(), 0);
    assert_eq!(Some(2), m.next());
    assert_eq!(calls.get(), 1);
    assert_eq!(Some(2), m.next());
    assert_eq!(calls.get(), 1);
    assert_eq!(Some(1), m.next());
    assert_eq!(calls.get(), 2);
    assert_eq!(Some(3), m.next());
    assert_eq!(Some(3), m.next());
    assert_eq!(Some(3), m.next());
    assert_eq!(None, m.next());
    assert_eq!(None, m.next());
    assert_eq!(calls.get(), 3);
}
