use interloc::inter::Incompatibility;
use interloc::Inter;
use std::cmp::Ordering;

fn nominal(name: &str) -> Inter {
    Inter::Nominal(name.into())
}

fn product(fields: Vec<(&str, Inter)>) -> Inter {
    Inter::Product(fields.into_iter().map(|(k, v)| (k.to_string(), v)).collect())
}

#[test]
fn equal_interfaces() {
    let a = Inter::Nominal("my-type".into());
    assert!(a.contained_by(&a));
    let b = Inter::Nominal("my-type".into());
    assert!(a.contained_by(&b));
    assert!(b.contained_by(&a));
}

#[test]
fn subset() {
    let a = Inter::Product(vec![("key1".into(), Inter::Nominal("my-type".into()))]);
    let b = Inter::Product(vec![
        ("key1".into(), Inter::Nominal("my-type".into())),
        ("key2".into(), Inter::Nominal("my-type".into())),
    ]);
    assert!(a.contained_by(&b));

    assert_eq!(
        b.try_fit_within(&a).collect(),
        vec![Incompatibility::ContainedDiverges(".key2".to_string())]
    );
}

#[test]
fn union() {}

#[test]
fn intersection() {}

#[test]
fn product_widening_is_one_way() {
    let a = product(vec![("k1", nominal("T"))]);
    let b = product(vec![("k1", nominal("T")), ("k2", nominal("T"))]);
    assert!(a.contained_by(&b));
    assert!(!b.contained_by(&a));
    assert_eq!(
        b.try_fit_within(&a).collect(),
        vec![Incompatibility::ContainedDiverges(".k2".to_string())]
    );
}

#[test]
fn nominal_mismatch_at_root() {
    let a = nominal("A");
    let b = nominal("B");
    assert!(!a.contained_by(&b));
    assert_eq!(
        a.try_fit_within(&b).collect(),
        vec![Incompatibility::MismatchedName(String::new())]
    );
}

#[test]
fn sum_widening_is_one_way() {
    let a = Inter::Sum(vec![nominal("T1")]);
    let b = Inter::Sum(vec![nominal("T1"), nominal("T2")]);
    assert!(a.contained_by(&b));
    assert!(!b.contained_by(&a));
    assert_eq!(
        b.try_fit_within(&a).collect(),
        vec![Incompatibility::ContainerDiverges(String::new())]
    );
}

#[test]
fn added_field_end_to_end() {
    let old = product(vec![("name", nominal("string"))]);
    let new = product(vec![("name", nominal("string")), ("age", nominal("int"))]);
    assert!(old.try_fit_within(&new).collect().is_empty());
    assert_eq!(
        new.try_fit_within(&old).collect(),
        vec![Incompatibility::ContainedDiverges(".age".to_string())]
    );
}

#[test]
fn reflexive_on_nested_values() {
    let x = product(vec![
        ("a", Inter::Sum(vec![nominal("T1"), Inter::Sum(vec![nominal("T2")])])),
        ("b", product(vec![("c", Inter::Never)])),
    ]);
    assert!(x.contained_by(&x));
    assert!(Inter::Never.contained_by(&Inter::Never));
}

#[test]
fn compare_orders_by_containment() {
    let a = product(vec![("k1", nominal("T"))]);
    let b = product(vec![("k1", nominal("T")), ("k2", nominal("T"))]);
    assert_eq!(a.compare(&b), Some(Ordering::Less));
    assert_eq!(b.compare(&a), Some(Ordering::Greater));
    assert_eq!(nominal("A").compare(&nominal("B")), None);
    let c = product(vec![("k2", nominal("T")), ("k1", nominal("T"))]);
    assert_eq!(b.compare(&c), Some(Ordering::Equal));
}

#[test]
fn kind_mismatches() {
    let p = product(vec![("k", nominal("T"))]);
    let n = nominal("T");
    assert_eq!(
        p.try_fit_within(&n).collect(),
        vec![Incompatibility::ContainerDiverges(String::new())]
    );
    assert_eq!(
        n.try_fit_within(&p).collect(),
        vec![Incompatibility::ContainerDiverges(String::new())]
    );
    assert_eq!(
        Inter::Sum(vec![n]).try_fit_within(&p).collect(),
        vec![Incompatibility::ContainerDiverges(String::new())]
    );
    assert_eq!(
        Inter::Never.try_fit_within(&p).collect(),
        vec![Incompatibility::ContainerDiverges(String::new())]
    );
}

#[test]
fn nested_paths_are_dot_joined() {
    let old = product(vec![("outer", product(vec![("inner", nominal("A"))]))]);
    let new = product(vec![("outer", product(vec![("inner", nominal("B"))]))]);
    assert_eq!(
        old.try_fit_within(&new).collect(),
        vec![Incompatibility::MismatchedName(".outer.inner".to_string())]
    );
}

#[test]
fn deeper_findings_follow_shallower_ones() {
    let old = product(vec![("x", product(vec![("y", nominal("A"))])), ("z", nominal("A"))]);
    let new = product(vec![("x", product(vec![("y", nominal("B"))]))]);
    assert_eq!(
        old.try_fit_within(&new).collect(),
        vec![
            Incompatibility::ContainedDiverges(".z".to_string()),
            Incompatibility::MismatchedName(".x.y".to_string()),
        ]
    );
}

#[test]
fn bottom_on_new_side_accepts_anything() {
    assert!(nominal("A").contained_by(&Inter::Never));
    assert!(!Inter::Never.contained_by(&nominal("A")));
}

#[test]
fn next_pulls_one_at_a_time() {
    let old = product(vec![("p", nominal("A")), ("q", nominal("A"))]);
    let new = product(vec![]);
    let mut s = old.try_fit_within(&new);
    assert_eq!(s.next(), Some(Incompatibility::ContainedDiverges(".p".to_string())));
    assert_eq!(s.next(), Some(Incompatibility::ContainedDiverges(".q".to_string())));
    assert_eq!(s.next(), None);
}

#[test]
fn messages() {
    assert_eq!(
        Incompatibility::MismatchedName(".a".to_string()).message(),
        "Type mismatch at path .a"
    );
    assert_eq!(
        Incompatibility::ContainerDiverges(String::new()).message(),
        "The interfaces have different structures at path "
    );
    assert_eq!(
        Incompatibility::ContainedDiverges(".b".to_string()).message(),
        "The new interface diverges from the old one at .b"
    );
}

#[test]
fn duplicate_is_deep() {
    let x = product(vec![("a", Inter::Sum(vec![nominal("T")]))]);
    let y = x.duplicate();
    assert_eq!(x.compare(&y), Some(Ordering::Equal));
    assert_eq!(format!("{:?}", x), format!("{:?}", y));
}

#[test]
fn reordered_variants_compare_equal() {
    let a = Inter::Sum(vec![nominal("T1"), nominal("T2"), product(vec![("k", nominal("T"))])]);
    let b = Inter::Sum(vec![product(vec![("k", nominal("T"))]), nominal("T2"), nominal("T1")]);
    assert_eq!(a.compare(&b), Some(Ordering::Equal));
    assert_ne!(a, b);
}

#[test]
fn product_against_non_product_is_a_kind_mismatch() {
    let p = product(vec![("k", nominal("T"))]);
    let old = product(vec![("k", nominal("T"))]);
    assert!(old.contained_by(&p));
    assert_eq!(
        nominal("T").try_fit_within(&p).collect(),
        vec![Incompatibility::ContainerDiverges(String::new())]
    );
}
