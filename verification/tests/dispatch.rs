use dispatch_tree::{BuildError, HashFn, HashMethod, Marker, Strategy, Tree, Window};
use dispatch_tree::{ClzSub, Ctz, ShiftMask, SubLow};

fn scenario_input() -> (Vec<u64>, Vec<&'static str>) {
    let set = vec![
        (8, "function 1"),
        (16, "function 1"),
        (33, "function 1"),
        (37, "function 1"),
        (41, "function 1"),
        (60, "function 1"),
        (144, "function 2"),
        (264, "function 2"),
        (291, "function 2"),
        (1032, "function 3"),
        (2048, "function 4"),
        (2082, "function 4"),
    ];
    let mut cases: Vec<u64> = Vec::new();
    let mut data: Vec<&'static str> = Vec::new();
    for (k, v) in set {
        cases.push(k);
        data.push(v);
    }
    (cases, data)
}

#[test]
fn test_val() {
    assert_eq!(Window { l: 5, r: 3 }.hash(41), 5);
}

#[test]
fn builds_and_dispatches_every_key() {
    let (cases, data) = scenario_input();
    let methods = vec![Strategy::ShiftMask, Strategy::ClzSub];
    let tree = match Tree::new(&cases, &data, &methods) {
        Ok(t) => t,
        Err(_) => panic!("construction failed"),
    };
    for i in 0..cases.len() {
        let m = tree.lookup(cases[i]);
        match m {
            Marker::Case(k, v) => {
                assert_eq!(k, cases[i]);
                assert_eq!(v, data[i]);
            }
            Marker::Default => panic!("input key dispatched to default"),
        }
    }
}

#[test]
fn absent_key_dispatches_closed() {
    let (cases, data) = scenario_input();
    let methods = vec![Strategy::ShiftMask, Strategy::ClzSub];
    let tree = match Tree::new(&cases, &data, &methods) {
        Ok(t) => t,
        Err(_) => panic!("construction failed"),
    };
    match tree.lookup(999) {
        Marker::Case(k, _) => assert_ne!(k, 999),
        Marker::Default => {}
    }
}

#[test]
fn empty_input_yields_default_leaf() {
    let cases: Vec<u64> = vec![];
    let data: Vec<&'static str> = vec![];
    let methods = vec![Strategy::ShiftMask];
    match Tree::new(&cases, &data, &methods) {
        Ok(Tree::Leaf(Marker::Default)) => {}
        _ => panic!("expected a single Default leaf"),
    }
}

#[test]
fn singleton_input_yields_case_leaf() {
    let cases: Vec<u64> = vec![5];
    let data = vec!["only"];
    let methods: Vec<Strategy> = vec![];
    match Tree::new(&cases, &data, &methods) {
        Ok(Tree::Leaf(Marker::Case(5, "only"))) => {}
        _ => panic!("expected a single Case leaf"),
    }
}

#[test]
fn duplicate_keys_are_rejected() {
    let cases: Vec<u64> = vec![1, 2, 1];
    let data = vec!["a", "b", "c"];
    let methods = vec![Strategy::ShiftMask];
    match Tree::new(&cases, &data, &methods) {
        Err(BuildError::DuplicateCase) => {}
        _ => panic!("expected DuplicateCase"),
    }
}

#[test]
fn empty_strategy_list_is_unproductive() {
    let cases: Vec<u64> = vec![1, 2];
    let data = vec!["a", "b"];
    let methods: Vec<Strategy> = vec![];
    match Tree::new(&cases, &data, &methods) {
        Err(BuildError::NoProductiveStrategy) => {}
        _ => panic!("expected NoProductiveStrategy"),
    }
}

#[test]
fn builds_with_every_strategy_offered() {
    let (cases, data) = scenario_input();
    let methods = vec![
        Strategy::ShiftMask,
        Strategy::SubLow,
        Strategy::ClzSub,
        Strategy::Ctz,
    ];
    let tree = match Tree::new(&cases, &data, &methods) {
        Ok(t) => t,
        Err(_) => panic!("construction failed"),
    };
    for i in 0..cases.len() {
        match tree.lookup(cases[i]) {
            Marker::Case(k, v) => {
                assert_eq!(k, cases[i]);
                assert_eq!(v, data[i]);
            }
            Marker::Default => panic!("input key dispatched to default"),
        }
    }
    assert!(tree.depth() >= 2);
    assert!(tree.depth() <= cases.len() + 1);
}

#[test]
fn determinism_structural_repeat() {
    let (cases, data) = scenario_input();
    let methods = vec![Strategy::ShiftMask, Strategy::ClzSub];
    let t1 = Tree::new(&cases, &data, &methods);
    let t2 = Tree::new(&cases, &data, &methods);
    let (t1, t2) = match (t1, t2) {
        (Ok(a), Ok(b)) => (a, b),
        _ => panic!("construction failed"),
    };
    assert_eq!(t1.depth(), t2.depth());
    fn same_shape(a: &Tree<&'static str>, b: &Tree<&'static str>) -> bool {
        match (a, b) {
            (Tree::Leaf(Marker::Default), Tree::Leaf(Marker::Default)) => true,
            (Tree::Leaf(Marker::Case(k1, v1)), Tree::Leaf(Marker::Case(k2, v2))) => {
                k1 == k2 && v1 == v2
            }
            (
                Tree::Branch {
                    children: c1,
                    hash_fn: f1,
                },
                Tree::Branch {
                    children: c2,
                    hash_fn: f2,
                },
            ) => {
                f1.describe() == f2.describe()
                    && c1.len() == c2.len()
                    && c1.iter().zip(c2.iter()).all(|(x, y)| same_shape(x, y))
            }
            _ => false,
        }
    }
    assert!(same_shape(&t1, &t2));
}

#[test]
fn clz_sub_calibrates_to_subset() {
    let (cases, _) = scenario_input();
    let f = HashMethod::new(&ClzSub, &cases);
    // the least leading-zero count in the subset belongs to 2082 (52), so
    // 8 (60 leading zeros) lands in bucket 8 and 264 (55) in bucket 3
    assert_eq!(f.hash(8), Some(8));
    assert_eq!(f.hash(264), Some(3));
    assert_eq!(f.describe(), "clz(x) - 52");
}

#[test]
fn sub_low_calibrates_to_subset() {
    let cases: Vec<u64> = vec![8, 16, 12];
    let f = HashMethod::new(&SubLow, &cases);
    assert_eq!(f.size(), 9);
    assert_eq!(f.hash(8), Some(0));
    assert_eq!(f.hash(16), Some(8));
    // a key below the bias has no bucket
    assert_eq!(f.hash(3), None);
    assert_eq!(f.describe(), "x - 8");
}

#[test]
fn ctz_counts_trailing_zeros() {
    let cases: Vec<u64> = vec![8, 12];
    let f = HashMethod::new(&Ctz, &cases);
    assert_eq!(f.size(), 4);
    assert_eq!(f.hash(8), Some(3));
    assert_eq!(f.hash(12), Some(2));
    assert_eq!(f.hash(7), Some(0));
    assert_eq!(f.describe(), "ctz(x)");
}

#[test]
fn shift_mask_finds_low_window() {
    let cases: Vec<u64> = vec![0, 1, 2, 3];
    let w = Window::critical_window(&cases);
    assert_eq!(w.l, 1);
    assert_eq!(w.r, 0);
    let f = HashMethod::new(&ShiftMask, &cases);
    assert_eq!(f.size(), 4);
    for k in 0..4u64 {
        assert_eq!(f.hash(k), Some(k));
    }
    assert_eq!(f.describe(), "bits 1 to 0");
}

#[test]
fn single_bit_window_describes_itself() {
    let f = HashFn::Window(Window { l: 7, r: 7 });
    assert_eq!(f.describe(), "bit 7");
    assert_eq!(f.hash(128), Some(1));
    assert_eq!(f.hash(64), Some(0));
    assert_eq!(f.size(), 2);
}

#[test]
fn extreme_keys_build_with_window_search() {
    let cases: Vec<u64> = vec![0, u64::MAX];
    let data = vec!["low", "high"];
    // subtraction would need 2^64 buckets here and is rejected, but the
    // window search discriminates on the top bit
    match Tree::new(&cases, &data, &vec![Strategy::SubLow]) {
        Err(BuildError::NoProductiveStrategy) => {}
        _ => panic!("expected NoProductiveStrategy"),
    }
    let tree = match Tree::new(&cases, &data, &vec![Strategy::ShiftMask]) {
        Ok(t) => t,
        Err(_) => panic!("construction failed"),
    };
    match tree.lookup(0) {
        Marker::Case(0, "low") => {}
        _ => panic!("key 0 misdispatched"),
    }
    match tree.lookup(u64::MAX) {
        Marker::Case(u64::MAX, "high") => {}
        _ => panic!("key u64::MAX misdispatched"),
    }
}

#[test]
fn window_cardinality_and_criticality() {
    let w = Window { l: 0, r: 0 };
    let cases: Vec<u64> = vec![1, 2, 3];
    assert_eq!(w.mapped_cardinality(&cases), 2);
    assert!(w.is_critical(&cases));
    let even: Vec<u64> = vec![2, 4, 6];
    assert_eq!(w.mapped_cardinality(&even), 1);
    assert!(!w.is_critical(&even));
}
