use dclabel::{Clause, Formula};

fn f(clauses: Vec<Clause>) -> Formula {
    Formula::from_clauses(clauses)
}

#[test]
fn from_clauses_drops_implied_clauses() {
    let x = f(vec![
        Clause::from(["Amit"]),
        Clause::from(["Amit", "Yue"]),
        Clause::from(["Yue"]),
        Clause::from(["Amit"]),
    ]);
    assert_eq!(x.clause_list().len(), 2);
    assert!(x.same_as(&f(vec![Clause::from(["Yue"]), Clause::from(["Amit"])])));
}

#[test]
fn empty_clause_collapses_to_false() {
    let x = f(vec![Clause::from(["Amit"]), Clause::empty(), Clause::from(["Yue"])]);
    assert!(x.same_as(&Formula::bottom()));
    assert_eq!(x.clause_list().len(), 1);
}

#[test]
fn true_and_false_bound_the_order() {
    let x = f(vec![Clause::from(["Amit", "Yue"]), Clause::from(["Deian"])]);
    assert!(x.implies(&Formula::top()));
    assert!(Formula::bottom().implies(&x));
    assert!(!Formula::top().implies(&x));
    assert!(!x.implies(&Formula::bottom()));
}

#[test]
fn implies_is_clause_subsumption() {
    let strong = f(vec![Clause::from(["Amit"]), Clause::from(["Yue"])]);
    let weak = f(vec![Clause::from(["Amit", "Deian"])]);
    assert!(strong.implies(&weak));
    assert!(!weak.implies(&strong));
}

#[test]
fn units_of_conjunction_and_disjunction() {
    let x = f(vec![Clause::from(["Amit", "Yue"]), Clause::from(["Deian"])]);
    assert!(x.conjunction(&Formula::top()).same_as(&x));
    assert!(x.conjunction(&Formula::bottom()).same_as(&Formula::bottom()));
    assert!(x.disjunction(&Formula::top()).same_as(&Formula::top()));
    assert!(x.disjunction(&Formula::bottom()).same_as(&x));
}

#[test]
fn conjunction_unions_and_minimizes() {
    let a = f(vec![Clause::from(["Amit", "Yue"])]);
    let b = f(vec![Clause::from(["Amit"])]);
    let c = a.conjunction(&b);
    assert!(c.same_as(&b));
    assert!(c.implies(&a) && c.implies(&b));
}

#[test]
fn disjunction_distributes() {
    // (Amit /\ Yue) \/ Deian == (Amit \/ Deian) /\ (Yue \/ Deian)
    let a = f(vec![Clause::from(["Amit"]), Clause::from(["Yue"])]);
    let b = f(vec![Clause::from(["Deian"])]);
    let expected = f(vec![Clause::from(["Amit", "Deian"]), Clause::from(["Yue", "Deian"])]);
    let d = a.disjunction(&b);
    assert!(d.same_as(&expected));
    assert!(a.implies(&d) && b.implies(&d));
}

#[test]
fn without_covered_drops_satisfied_clauses() {
    let x = f(vec![Clause::from(["Amit", "Yue"]), Clause::from(["Deian"])]);
    let d = x.without_covered(&Clause::from(["Yue"]));
    assert!(d.same_as(&f(vec![Clause::from(["Deian"])])));
    assert!(x.implies(&d));
}
