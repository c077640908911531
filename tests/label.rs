use dclabel::{Clause, DCLabel, Formula, HasPrivilege, InsufficientPrivilege, Label, Privilege};

fn formula(clauses: Vec<Clause>) -> Formula {
    Formula::from_clauses(clauses)
}

fn label(secrecy: Vec<Clause>, integrity: Vec<Clause>) -> DCLabel {
    DCLabel::new(formula(secrecy), formula(integrity))
}

fn same(a: &DCLabel, b: &DCLabel) -> bool {
    a.secrecy.same_as(&b.secrecy) && a.integrity.same_as(&b.integrity)
}

fn samples() -> Vec<DCLabel> {
    vec![
        label(vec![Clause::from(["Amit"])], vec![Clause::from(["Yue"])]),
        label(vec![Clause::from(["Amit", "Yue"])], vec![]),
        label(vec![Clause::from(["Yue"]), Clause::from(["Deian"])], vec![Clause::from(["Amit", "Deian"])]),
        label(vec![Clause::empty()], vec![Clause::from(["Amit"]), Clause::from(["Yue"])]),
        label(vec![], vec![]),
    ]
}

#[test]
fn lub_and_glb_commute_and_are_idempotent() {
    for a in samples() {
        for b in samples() {
            let ab = a.duplicate().lub(b.duplicate());
            let ba = b.duplicate().lub(a.duplicate());
            assert!(same(&ab, &ba));
            let ab = a.duplicate().glb(b.duplicate());
            let ba = b.duplicate().glb(a.duplicate());
            assert!(same(&ab, &ba));
        }
        assert!(same(&a.duplicate().lub(a.duplicate()), &a));
        assert!(same(&a.duplicate().glb(a.duplicate()), &a));
    }
}

#[test]
fn lub_and_glb_associate() {
    for a in samples() {
        for b in samples() {
            for c in samples() {
                let l = a.duplicate().lub(b.duplicate()).lub(c.duplicate());
                let r = a.duplicate().lub(b.duplicate().lub(c.duplicate()));
                assert!(same(&l, &r));
                let l = a.duplicate().glb(b.duplicate()).glb(c.duplicate());
                let r = a.duplicate().glb(b.duplicate().glb(c.duplicate()));
                assert!(same(&l, &r));
            }
        }
    }
}

#[test]
fn can_flow_to_is_reflexive_and_transitive() {
    for a in samples() {
        assert!(a.can_flow_to(&a));
        for b in samples() {
            for c in samples() {
                if a.can_flow_to(&b) && b.can_flow_to(&c) {
                    assert!(a.can_flow_to(&c));
                }
            }
        }
    }
}

#[test]
fn can_flow_to_compares_secrecy_then_integrity() {
    let a = label(vec![Clause::from(["Amit"])], vec![Clause::from(["Amit", "Yue"])]);
    let b = label(vec![Clause::from(["Amit", "Yue"])], vec![Clause::from(["Amit"])]);
    assert!(a.can_flow_to(&b));
    assert!(!b.can_flow_to(&a));
}

#[test]
fn lub_conjoins_each_component() {
    let a = label(vec![Clause::from(["Amit"])], vec![]);
    let b = label(vec![Clause::from(["Yue"])], vec![Clause::from(["Deian"])]);
    let l = a.lub(b);
    assert!(same(
        &l,
        &label(vec![Clause::from(["Amit"]), Clause::from(["Yue"])], vec![Clause::from(["Deian"])])
    ));
}

#[test]
fn glb_disjoins_each_component() {
    let a = label(vec![Clause::from(["Amit"])], vec![Clause::from(["Deian"])]);
    let b = label(vec![Clause::from(["Yue"])], vec![]);
    let g = a.glb(b);
    assert!(same(&g, &label(vec![Clause::from(["Amit", "Yue"])], vec![])));
}

#[test]
fn downgrade_weakens_the_label() {
    let p = Privilege::new(["Yue"]);
    for a in samples() {
        let d = a.clone().downgrade(&p);
        assert!(a.secrecy.implies(&d.secrecy));
        assert!(a.integrity.implies(&d.integrity));
        assert!(a.implies_as_formula_pair(&d));
    }
    let a = label(
        vec![Clause::from(["Amit", "Yue"]), Clause::from(["Deian"])],
        vec![Clause::from(["Yue"])],
    );
    let d = a.downgrade(&p);
    assert!(same(&d, &label(vec![Clause::from(["Deian"])], vec![])));
}

#[test]
fn downgrade_without_covered_principal_is_a_no_op() {
    let p = Privilege::new_from_vec(vec!["Nobody".to_string()]);
    for a in samples() {
        let d = a.duplicate().downgrade(&p);
        assert!(same(&d, &a));
    }
}

#[test]
fn flow_with_privilege() {
    let source = label(vec![], vec![Clause::from(["Amit"])]);
    let sink = label(vec![], vec![Clause::from(["Yue"])]);
    let p = Privilege::new(["Amit"]);
    assert!(!source.can_flow_to(&sink));
    assert!(source.can_flow_to_with_privilege(&sink, &p));
    assert!(!source.can_flow_to_with_privilege(&sink, &Privilege::new(["Deian"])));
}

#[test]
fn downgrade_to_reports_insufficient_privilege() {
    let source = label(vec![], vec![Clause::from(["Amit"])]);
    let sink = label(vec![], vec![Clause::from(["Yue"])]);
    let ok = source.duplicate().downgrade_to(sink.duplicate(), &Privilege::new(["Amit"]));
    match ok {
        Ok(d) => assert!(same(&d, &label(vec![], vec![]))),
        Err(_) => panic!("the privilege suffices"),
    }
    let err = source.downgrade_to(sink, &Privilege::new(["Deian"]));
    assert!(matches!(err, Err(InsufficientPrivilege)));
}
