use dclabel::Clause;

#[test]
fn test_x_implies_x() {
    // False implies False
    assert!(Clause::empty().implies(&Clause::empty()));

    // "Amit" implies "Amit"
    assert!(Clause::from(["Amit"]).implies(&Clause::from(["Amit"])));
}

#[test]
fn test_subset_implies_superset() {
    // False implies "Amit"
    assert!(Clause::empty().implies(&Clause::from(["Amit"])));

    // "Amit" implies "Amit" \/ "Yue"
    assert!(Clause::from(["Amit"]).implies(&Clause::from(["Amit", "Yue"])));
}

#[test]
fn test_superset_not_implies_subset() {
    // "Amit" not-implies False
    assert_eq!(false, Clause::from(["Amit"]).implies(&Clause::empty()));

    // "Amit" \/ "Yue" not-implies "Amit"
    assert_eq!(
        false,
        Clause::from(["Amit", "Yue"]).implies(&Clause::from(["Amit"]))
    );
}

#[test]
fn duplicates_are_kept_once() {
    let c = Clause::new(["Amit", "Yue", "Amit"]);
    assert_eq!(c.names().len(), 2);
    let v = Clause::new_from_vec(vec!["Yue".to_string(), "Yue".to_string()]);
    assert_eq!(v.names(), vec!["Yue".to_string()]);
}

#[test]
fn clause_implication_is_transitive() {
    let a = Clause::from(["Amit"]);
    let b = Clause::from(["Amit", "Yue"]);
    let c = Clause::from(["Amit", "Yue", "Deian"]);
    assert!(a.implies(&b) && b.implies(&c) && a.implies(&c));
    assert!(!c.implies(&a));
}

#[test]
fn disjoint_clauses_do_not_imply() {
    let a = Clause::from(["Amit"]);
    let b = Clause::from(["Yue"]);
    assert!(!a.implies(&b));
    assert!(!b.implies(&a));
    assert!(!a.meets(&b));
    assert!(a.meets(&Clause::from(["Yue", "Amit"])));
}

#[test]
fn union_holds_both() {
    let u = Clause::from(["Amit"]).union(&Clause::from(["Yue"]));
    assert!(u.implies(&Clause::from(["Yue", "Amit"])));
    assert!(Clause::from(["Yue", "Amit"]).implies(&u));
    assert_eq!(u.names().len(), 2);
}

#[test]
fn empty_clause_implies_random_clauses() {
    let mut g = quickcheck::Gen::new(10);
    for _ in 0..50 {
        let names: Vec<String> = quickcheck::Arbitrary::arbitrary(&mut g);
        let c = Clause::new_from_vec(names);
        assert!(Clause::empty().implies(&c));
        assert!(c.implies(&c));
    }
}

#[test]
fn random_subset_implies_superset() {
    let mut g = quickcheck::Gen::new(10);
    for _ in 0..50 {
        let a: Vec<String> = quickcheck::Arbitrary::arbitrary(&mut g);
        let b: Vec<String> = quickcheck::Arbitrary::arbitrary(&mut g);
        let mut both = a.clone();
        both.extend(b.iter().cloned());
        let small = Clause::new_from_vec(b);
        let large = Clause::new_from_vec(both);
        assert!(small.implies(&large));
    }
}

#[test]
fn from_vec_matches_new_from_vec() {
    let v = vec!["Yue".to_string(), "Amit".to_string(), "Yue".to_string()];
    let a = Clause::from(v.clone());
    let b = Clause::new_from_vec(v);
    assert!(a == b);
    assert_eq!(a.names().len(), 2);
    assert!(a == Clause::from(["Amit", "Yue"]));
}

#[test]
fn equality_ignores_order_and_duplicates() {
    assert!(Clause::from(["Amit", "Yue"]) == Clause::from(["Yue", "Amit", "Yue"]));
    assert!(Clause::from(["Amit"]) != Clause::from(["Amit", "Yue"]));
    assert!(Clause::empty() == Clause::from(Vec::<String>::new()));
}
