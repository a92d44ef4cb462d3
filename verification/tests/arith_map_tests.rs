use arith::ArithMap;

fn pairs(ps: &[(&str, i32)]) -> Vec<(String, i32)> {
    let mut v: Vec<(String, i32)> = Vec::new();
    for (k, x) in ps {
        v.push(((*k).to_string(), *x));
    }
    v
}

fn build(ps: &[(&str, i32)]) -> ArithMap {
    ArithMap::from_pairs(pairs(ps))
}

#[test]
fn literal_lookup() {
    let m = build(&[("a", 1), ("b", 2)]);
    assert_eq!(m.get("a"), Some(1));
    assert_eq!(m.get("b"), Some(2));
    assert_eq!(m.get("c"), None);
}

#[test]
fn duplicate_key_last_wins() {
    let m = build(&[("a", 1), ("b", 7), ("a", 5)]);
    assert_eq!(m.get("a"), Some(5));
    assert_eq!(m.get("b"), Some(7));
}

#[test]
fn empty_map_lookup() {
    let m = ArithMap::new();
    assert_eq!(m.get("a"), None);
}

#[test]
fn insert_overwrites() {
    let mut m = ArithMap::new();
    m.insert("a", 1);
    m.insert("a", 9);
    assert_eq!(m.get("a"), Some(9));
}

#[test]
fn map_plus_example() {
    let x = build(&[("a", 1), ("b", 2)]);
    let y = build(&[("b", 2), ("c", 3)]);
    let z = x.plus(&y);
    let expected = build(&[("a", 1), ("b", 4), ("c", 3)]);
    assert!(z.equals(&expected));
    assert_eq!(z.get("a"), Some(1));
    assert_eq!(z.get("b"), Some(4));
    assert_eq!(z.get("c"), Some(3));
    assert_eq!(z.get("d"), None);
}

#[test]
fn map_minus_example() {
    let x = build(&[("a", 1), ("b", 2)]);
    let y = build(&[("b", 2), ("c", 3)]);
    let z = x.minus(&y);
    let expected = build(&[("a", 1), ("b", 0), ("c", -3)]);
    assert!(z.equals(&expected));
    assert_eq!(z.get("a"), Some(1));
    assert_eq!(z.get("b"), Some(0));
    assert_eq!(z.get("c"), Some(-3));
}

#[test]
fn plus_scalar_example() {
    let x = build(&[("a", 1), ("b", 2)]);
    let y = x.plus_scalar(1);
    let expected = build(&[("a", 2), ("b", 3)]);
    assert!(y.equals(&expected));
}

#[test]
fn minus_scalar_example() {
    let x = build(&[("a", 1), ("b", 2)]);
    let y = x.minus_scalar(1);
    let expected = build(&[("a", 0), ("b", 1)]);
    assert!(y.equals(&expected));
}

#[test]
fn times_scalar_example() {
    let x = build(&[("a", 1), ("b", 2)]);
    let y = x.times_scalar(2);
    let expected = build(&[("a", 2), ("b", 4)]);
    assert!(y.equals(&expected));
}

#[test]
fn prune_example() {
    let mut x = build(&[("a", 0), ("b", 1)]);
    x.prune();
    let expected = build(&[("b", 1)]);
    assert!(x.equals(&expected));
    assert_eq!(x.get("a"), None);
    assert_eq!(x.get("b"), Some(1));
}

#[test]
fn prune_removes_exactly_zeros_and_is_idempotent() {
    let mut x = build(&[("a", 0), ("b", 3), ("c", 0), ("d", -2)]);
    x.prune();
    let expected = build(&[("b", 3), ("d", -2)]);
    assert!(x.equals(&expected));
    let before = x.clone();
    x.prune();
    assert!(x.equals(&before));
}

#[test]
fn prune_empty_map() {
    let mut x = ArithMap::new();
    x.prune();
    assert!(x.equals(&ArithMap::new()));
}

#[test]
fn scalar_round_trip() {
    let x = build(&[("a", -4), ("b", 0), ("c", 1000)]);
    let y = x.clone().plus_scalar(17).minus_scalar(17);
    assert!(y.equals(&x));
}

#[test]
fn plus_commutative() {
    let x = build(&[("a", 1), ("b", 2)]);
    let y = build(&[("b", 2), ("c", 3)]);
    let xy = x.clone().plus(&y);
    let yx = y.clone().plus(&x);
    assert!(xy.equals(&yx));
}

#[test]
fn plus_minus_cancel_when_keys_are_shared() {
    let x = build(&[("a", 10), ("b", -5), ("c", 0)]);
    let y = build(&[("a", 3), ("c", 7)]);
    let z = x.clone().plus(&y).minus(&y);
    assert!(z.equals(&x));
}

#[test]
fn times_one_identity() {
    let x = build(&[("a", -7), ("b", 0), ("c", 42)]);
    let y = x.clone().times_scalar(1);
    assert!(y.equals(&x));
}

#[test]
fn plus_scalar_assign_form() {
    let mut x = build(&[("a", 1), ("b", 2)]);
    x.plus_scalar_assign(1);
    assert!(x.equals(&build(&[("a", 2), ("b", 3)])));
}

#[test]
fn minus_scalar_assign_form() {
    let mut x = build(&[("a", 1), ("b", 2)]);
    x.minus_scalar_assign(1);
    assert!(x.equals(&build(&[("a", 0), ("b", 1)])));
}

#[test]
fn times_scalar_assign_form() {
    let mut x = build(&[("a", 1), ("b", 2)]);
    x.times_scalar_assign(2);
    assert!(x.equals(&build(&[("a", 2), ("b", 4)])));
}

#[test]
fn plus_assign_form() {
    let mut x = build(&[("a", 1), ("b", 2)]);
    let y = build(&[("b", 2), ("c", 3)]);
    x.plus_assign(&y);
    assert!(x.equals(&build(&[("a", 1), ("b", 4), ("c", 3)])));
}

#[test]
fn minus_assign_form() {
    let mut x = build(&[("a", 1), ("b", 2)]);
    let y = build(&[("b", 2), ("c", 3)]);
    x.minus_assign(&y);
    assert!(x.equals(&build(&[("a", 1), ("b", 0), ("c", -3)])));
}

#[test]
fn plus_with_empty_is_identity() {
    let x = build(&[("a", 5), ("b", -1)]);
    let e = ArithMap::new();
    let l = x.clone().plus(&e);
    assert!(l.equals(&x));
    let r = ArithMap::new().plus(&x);
    assert!(r.equals(&x));
}

#[test]
fn minus_from_empty_negates() {
    let x = build(&[("a", 5), ("b", -1)]);
    let z = ArithMap::new().minus(&x);
    assert!(z.equals(&build(&[("a", -5), ("b", 1)])));
}

#[test]
fn equals_ignores_insertion_order() {
    let x = build(&[("a", 1), ("b", 2), ("c", 3)]);
    let y = build(&[("c", 3), ("a", 1), ("b", 2)]);
    assert!(x.equals(&y));
    assert!(y.equals(&x));
}

#[test]
fn equals_detects_differences() {
    let x = build(&[("a", 1), ("b", 2)]);
    let differing_value = build(&[("a", 1), ("b", 3)]);
    let missing_key = build(&[("a", 1)]);
    let extra_key = build(&[("a", 1), ("b", 2), ("c", 0)]);
    assert!(!x.equals(&differing_value));
    assert!(!x.equals(&missing_key));
    assert!(!x.equals(&extra_key));
    assert!(!missing_key.equals(&x));
}

#[test]
fn scalar_ops_at_extremes() {
    let x = build(&[("a", i32::MAX - 1)]);
    let y = x.plus_scalar(1);
    assert_eq!(y.get("a"), Some(i32::MAX));
    let z = build(&[("a", i32::MIN + 1)]).minus_scalar(1);
    assert_eq!(z.get("a"), Some(i32::MIN));
}

#[test]
fn clone_is_equal() {
    let x = build(&[("a", 1), ("b", -2)]);
    let y = x.clone();
    assert!(y.equals(&x));
    assert_eq!(y.get("a"), Some(1));
}

#[test]
fn default_is_empty() {
    let d = ArithMap::default();
    assert!(d.equals(&ArithMap::new()));
    assert_eq!(d.get("a"), None);
}
