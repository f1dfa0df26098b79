use interloc::{Inter, Loc};

fn nominal(name: &str) -> Inter {
    Inter::Nominal(name.into())
}

fn product(fields: Vec<(&str, Inter)>) -> Inter {
    Inter::Product(fields.into_iter().map(|(k, v)| (k.to_string(), v)).collect())
}

fn branch(children: Vec<(&str, Loc)>) -> Loc {
    Loc::Branch(children.into_iter().map(|(k, v)| (k.to_string(), v)).collect())
}

fn shape(l: &Loc) -> String {
    match l {
        Loc::Tip => "tip".to_string(),
        Loc::Empty => "empty".to_string(),
        Loc::Branch(cs) => {
            let mut parts: Vec<String> = cs.iter().map(|(k, v)| format!("{}:{}", k, shape(v))).collect();
            parts.sort();
            format!("{{{}}}", parts.join(","))
        }
    }
}

fn merged(a: Loc, b: Loc) -> Loc {
    let mut r = a;
    r.consume(b);
    r
}

fn same(a: &Inter, b: &Inter) -> bool {
    a.contained_by(b) && b.contained_by(a)
}

#[test]
fn new_is_empty() {
    assert!(matches!(Loc::new(), Loc::Empty));
}

#[test]
fn empty_yields_to_anything() {
    let x = branch(vec![("a", Loc::Tip)]);
    assert_eq!(shape(&merged(Loc::new(), x)), "{a:tip}");
    assert!(matches!(merged(Loc::Empty, Loc::Tip), Loc::Tip));
}

#[test]
fn tip_absorbs_anything() {
    assert!(matches!(merged(Loc::Tip, branch(vec![("a", Loc::Empty)])), Loc::Tip));
    assert!(matches!(merged(branch(vec![("a", Loc::Empty)]), Loc::Tip), Loc::Tip));
    assert!(matches!(merged(Loc::Tip, Loc::Empty), Loc::Tip));
}

#[test]
fn branch_keeps_itself_against_empty() {
    assert_eq!(shape(&merged(branch(vec![("a", Loc::Tip)]), Loc::Empty)), "{a:tip}");
}

#[test]
fn branches_union_their_keys() {
    let a = branch(vec![("x", branch(vec![("p", Loc::Tip)])), ("y", Loc::Empty)]);
    let b = branch(vec![("x", branch(vec![("q", Loc::Tip)])), ("z", Loc::Tip)]);
    assert_eq!(shape(&merged(a, b)), "{x:{p:tip,q:tip},y:empty,z:tip}");
}

#[test]
fn merge_is_associative_and_commutative() {
    let a = || branch(vec![("x", Loc::Tip)]);
    let b = || branch(vec![("x", branch(vec![("p", Loc::Tip)])), ("y", Loc::Empty)]);
    let c = || branch(vec![("y", branch(vec![("q", Loc::Tip)]))]);
    let left = merged(merged(a(), b()), c());
    let right = merged(a(), merged(b(), c()));
    assert_eq!(shape(&left), shape(&right));
    assert_eq!(shape(&merged(a(), b())), shape(&merged(b(), a())));
    assert_eq!(shape(&merged(b(), b())), shape(&b()));
}

#[test]
fn tip_selects_everything() {
    let x = product(vec![("a", nominal("T")), ("b", Inter::Sum(vec![nominal("U"), Inter::Never]))]);
    let r = Loc::Tip.select_subset(&x).unwrap();
    assert!(same(&r, &x));
    assert_eq!(format!("{:?}", r), format!("{:?}", x));
}

#[test]
fn branch_selects_named_members() {
    let x = product(vec![("a", nominal("T")), ("b", nominal("U"))]);
    let r = branch(vec![("a", Loc::Tip)]).select_subset(&x).unwrap();
    assert!(same(&r, &product(vec![("a", nominal("T"))])));
}

#[test]
fn absent_member_diverges() {
    let x = product(vec![("a", nominal("T"))]);
    assert!(branch(vec![("a", Loc::Tip), ("missing", Loc::Tip)]).select_subset(&x).is_none());
}

#[test]
fn branch_against_nominal_or_bottom_diverges() {
    let l = branch(vec![("a", Loc::Tip)]);
    assert!(l.select_subset(&nominal("T")).is_none());
    assert!(l.select_subset(&Inter::Never).is_none());
}

#[test]
fn empty_selects_bottom() {
    let r = Loc::Empty.select_subset(&nominal("T")).unwrap();
    assert!(matches!(r, Inter::Never));
    let x = product(vec![("a", nominal("T")), ("b", nominal("U"))]);
    let r = branch(vec![("a", Loc::Empty)]).select_subset(&x).unwrap();
    assert!(same(&r, &product(vec![("a", Inter::Never)])));
}

#[test]
fn branch_against_sum_keeps_fitting_variants() {
    let x = Inter::Sum(vec![product(vec![("a", nominal("T")), ("b", nominal("U"))]), nominal("V")]);
    let r = branch(vec![("a", Loc::Tip)]).select_subset(&x).unwrap();
    assert!(same(&r, &Inter::Sum(vec![product(vec![("a", nominal("T"))])])));
}

#[test]
fn narrowed_check_ignores_unused_members() {
    let old = product(vec![("used", nominal("T")), ("unused", nominal("U"))]);
    let new = product(vec![("used", nominal("T"))]);
    assert!(!old.contained_by(&new));
    let l = merged(Loc::new(), branch(vec![("used", Loc::Tip)]));
    let narrowed = l.select_subset(&old).unwrap();
    assert!(narrowed.contained_by(&new));
}
