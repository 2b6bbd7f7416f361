//! Cross-cutting behaviour: no-op updates, fixed-point idempotence,
//! posting order, and the failure cases.

use csar::domain::Domain;
use csar::eqxy::EqXC;
use csar::eqxy::NeqXC;
use csar::ltxy::GeXY;
use csar::ltxy::GtXC;
use csar::ltxy::LeXY;
use csar::ltxy::LtXY;
use csar::ltxy::LtXYCx;
use csar::Model;
use csar::Var;

fn setup_domain_holy() -> Domain {
    Domain {
        min: -3,
        max: 64,
        intervals: vec![
            (-3, 2),
            (4, 18),
            (20, 24),
            (30, 30),
            (32, 34),
            (36, 38),
            (40, 42),
            (54, 64),
        ],
    }
}

#[test]
fn set_min_of_min_is_noop() {
    let mut d = setup_domain_holy();
    let e = setup_domain_holy();
    d.set_min(-3);
    assert_eq!((d.min, d.max), (e.min, e.max));
    assert_eq!(d.intervals, e.intervals);
}

#[test]
fn set_max_of_max_is_noop() {
    let mut d = setup_domain_holy();
    let e = setup_domain_holy();
    d.set_max(64);
    assert_eq!((d.min, d.max), (e.min, e.max));
    assert_eq!(d.intervals, e.intervals);
}

#[test]
fn remove_of_outside_value_is_noop() {
    let mut d = setup_domain_holy();
    let e = setup_domain_holy();
    d.remove(-4);
    d.remove(19);
    d.remove(65);
    assert_eq!(d.intervals, e.intervals);
}

#[test]
fn removes_singleton_interval() {
    let mut d = setup_domain_holy();
    d.remove(30);
    assert_eq!(d.intervals.len(), 7);
    assert!(!d.intervals.contains(&(30, 30)));
    assert_eq!((d.min, d.max), (-3, 64));
}

#[test]
fn posting_order_does_not_change_fixed_point() {
    let mut m1 = Model::new();
    let x1 = Var::new(&mut m1, 8, 255, "x");
    let y1 = Var::new(&mut m1, -2, 128, "y");
    LeXY::new(&mut m1, x1, y1);
    GeXY::new(&mut m1, x1, y1);

    let mut m2 = Model::new();
    let x2 = Var::new(&mut m2, 8, 255, "x");
    let y2 = Var::new(&mut m2, -2, 128, "y");
    GeXY::new(&mut m2, x2, y2);
    LeXY::new(&mut m2, x2, y2);

    assert_eq!(
        (m1.var(x1).min(), m1.var(x1).max(), m1.var(y1).min(), m1.var(y1).max()),
        (m2.var(x2).min(), m2.var(x2).max(), m2.var(y2).min(), m2.var(y2).max())
    );
    assert_eq!(m1.var(x1).dom.intervals, m2.var(x2).dom.intervals);
    assert_eq!(m1.var(y1).dom.intervals, m2.var(y2).dom.intervals);
}

#[test]
fn repropagating_at_fixed_point_changes_nothing() {
    let mut m = Model::new();
    let x = Var::new(&mut m, -2, 255, "x");
    let y = Var::new(&mut m, -2, 255, "y");
    let (p1, ok1) = LtXYCx::new(&mut m, x, y, 0);
    assert!(ok1);
    let before = (m.var(x).min(), m.var(x).max(), m.var(y).min(), m.var(y).max());
    let ok2 = m.propagate(p1);
    assert!(ok2);
    let after = (m.var(x).min(), m.var(x).max(), m.var(y).min(), m.var(y).max());
    assert_eq!(before, after);
}

#[test]
fn eqxc_rejects_value_in_hole() {
    let mut m = Model::new();
    let x = Var::new(&mut m, 8, 255, "x");
    NeqXC::new(&mut m, x, 42);
    assert!(!EqXC::new(&mut m, x, 42));
}

#[test]
fn eqxc_rejects_value_outside_bounds() {
    let mut m = Model::new();
    let x = Var::new(&mut m, 8, 255, "x");
    assert!(!EqXC::new(&mut m, x, 7));
    assert!(!EqXC::new(&mut m, x, 256));
}

#[test]
fn removing_last_value_reports_failure() {
    let mut m = Model::new();
    let x = Var::new(&mut m, 5, 5, "x");
    assert!(!NeqXC::new(&mut m, x, 5));
    assert_eq!((m.var(x).min(), m.var(x).max()), (5, 5));
}

#[test]
fn tightening_past_the_other_bound_reports_failure() {
    let mut m = Model::new();
    let x = Var::new(&mut m, 0, 5, "x");
    assert!(!GtXC::new(&mut m, x, 5));
    assert_eq!((m.var(x).min(), m.var(x).max()), (0, 5));
}

#[test]
fn unsatisfiable_ordering_reports_failure() {
    let mut m = Model::new();
    let x = Var::new(&mut m, 5, 5, "x");
    let y = Var::new(&mut m, 0, 0, "y");
    assert!(!LtXY::new(&mut m, x, y));
}

fn holds(d: &Domain, v: i64) -> bool {
    d.intervals.iter().any(|&(lo, hi)| lo <= v && v <= hi)
}

#[test]
fn fired_disequality_is_retired() {
    let mut m = Model::new();
    let x = Var::new(&mut m, 0, 10, "x");
    let y = Var::new(&mut m, 5, 5, "y");
    let (id, ok) = csar::eqxy::NeqXYCxy::new(&mut m, x, y, 0);
    assert!(ok);
    assert_eq!(m.num_props(), 1);
    // y was already fixed, so the propagator fired and retired itself
    assert!(m.prop(id).entailed);
    assert!(!holds(&m.var(x).dom, 5));
    assert_eq!((m.var(x).min(), m.var(x).max()), (0, 10));
}

#[test]
fn supported_values_survive_propagation() {
    let mut m = Model::new();
    let x = Var::new(&mut m, 0, 10, "x");
    let y = Var::new(&mut m, 0, 10, "y");
    assert!(LtXY::new(&mut m, x, y));
    assert!(GtXC::new(&mut m, x, 2));
    // (x, y) = (3, 4) satisfies both constraints, so both values stay
    assert!(holds(&m.var(x).dom, 3));
    assert!(holds(&m.var(y).dom, 4));
}

#[test]
fn neqxc_wakes_bound_propagators() {
    let mut m = Model::new();
    let x = Var::new(&mut m, 0, 10, "x");
    let y = Var::new(&mut m, 0, 10, "y");
    assert!(LtXY::new(&mut m, x, y));
    assert_eq!((m.var(x).min(), m.var(y).min()), (0, 1));
    // striking x's minimum raises it, and the ordering follows suit
    assert!(NeqXC::new(&mut m, x, 0));
    assert_eq!((m.var(x).min(), m.var(y).min()), (1, 2));
}

#[test]
fn instantiation_wakes_subscribers() {
    let mut m = Model::new();
    let x = Var::new(&mut m, 0, 10, "x");
    let y = Var::new(&mut m, 0, 10, "y");
    assert!(csar::eqxy::NeqXY::new(&mut m, x, y));
    assert!(EqXC::new(&mut m, y, 10));
    // fixing y strikes its value from x through the Ins subscription
    assert_eq!((m.var(x).min(), m.var(x).max()), (0, 9));
}
