use dclabel::{Clause, Formula, MalformedInput};

fn names(v: &[&str]) -> Vec<String> {
    v.iter().map(|s| s.to_string()).collect()
}

#[test]
fn clause_canonical_form_is_sorted() {
    let c = Clause::from(["Yue", "Amit", "Deian", "Amit"]);
    assert_eq!(c.to_canonical(), names(&["Amit", "Deian", "Yue"]));
    assert_eq!(Clause::empty().to_canonical(), Vec::<String>::new());
}

#[test]
fn clause_order_is_lexicographic() {
    let c = Clause::from(["ab", "a", "b", "B", ""]);
    assert_eq!(c.to_canonical(), names(&["", "B", "a", "ab", "b"]));
}

#[test]
fn clause_from_canonical_accepts_sorted_input() {
    let c = Clause::from_canonical(names(&["Amit", "Yue"])).unwrap();
    assert!(c.implies(&Clause::from(["Yue", "Amit"])));
    assert!(Clause::from(["Yue", "Amit"]).implies(&c));
    assert!(Clause::from_canonical(Vec::new()).is_ok());
}

#[test]
fn clause_from_canonical_refuses_duplicates_and_disorder() {
    assert_eq!(
        Clause::from_canonical(names(&["Amit", "Amit"])).err(),
        Some(MalformedInput)
    );
    assert_eq!(
        Clause::from_canonical(names(&["Yue", "Amit"])).err(),
        Some(MalformedInput)
    );
}

#[test]
fn formula_canonical_round_trip() {
    let f = Formula::from_clauses(vec![
        Clause::from(["Yue", "Deian"]),
        Clause::from(["Amit"]),
        Clause::from(["Amit", "Yue"]),
    ]);
    let lists = f.to_canonical();
    assert_eq!(lists, vec![names(&["Amit"]), names(&["Deian", "Yue"])]);
    let back = Formula::from_canonical(lists).unwrap();
    assert!(back.same_as(&f));
}

#[test]
fn formula_from_canonical_refuses_malformed_input() {
    // clauses out of order
    let r = Formula::from_canonical(vec![names(&["Yue"]), names(&["Amit"])]);
    assert_eq!(r.err(), Some(MalformedInput));
    // a clause implied by another one
    let r = Formula::from_canonical(vec![names(&["Amit"]), names(&["Amit", "Yue"])]);
    assert_eq!(r.err(), Some(MalformedInput));
    // a clause that is not itself canonical
    let r = Formula::from_canonical(vec![names(&["Yue", "Amit"])]);
    assert_eq!(r.err(), Some(MalformedInput));
    // the false formula
    let r = Formula::from_canonical(vec![Vec::new()]).unwrap();
    assert!(r.same_as(&Formula::bottom()));
}
