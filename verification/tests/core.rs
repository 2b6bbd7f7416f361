//! Domain and variable behaviour, on single domains and fresh models.

use csar::domain::Domain;
use csar::Model;
use csar::Var;

fn setup_domain() -> Domain {
    Domain { min: -3, max: 64, intervals: vec![(-3, 2), (4, 42), (54, 64)] }
}

fn setup_domain_simple() -> Domain {
    Domain { min: -3, max: 64, intervals: vec![(-3, 2), (4, 42), (54, 64)] }
}

fn setup_domain_holy() -> Domain {
    Domain {
        min: -3,
        max: 64,
        intervals: vec![
            (-3, 2),
            (4, 18),
            (20, 24),
            (30, 30),
            (32, 34),
            (36, 38),
            (40, 42),
            (54, 64),
        ],
    }
}

fn min_is_min(d: &Domain) -> bool {
    d.intervals[0].0 == d.get_min()
}

fn max_is_max(d: &Domain) -> bool {
    d.intervals[d.intervals.len() - 1].1 == d.get_max()
}

fn intervals_bounds_are_coherent(d: &Domain) {
    assert!(min_is_min(d));
    assert!(max_is_max(d));
}

#[test]
fn csar_creates_new_var() {
    let mut m = Model::new();
    let x = Var::new(&mut m, -2, 255, "x");
    assert!(m.var(x).min() == -2);
    assert!(m.var(x).max() == 255);
}

#[test]
fn csar_sets_min_lower() {
    let mut d = setup_domain();
    d.set_min(-4);
    assert!(d.min == -3);
    assert!(min_is_min(&d));
}

#[test]
fn sets_min_middle_first() {
    let mut d = setup_domain();
    let values = [-2, 8, 42, 54, 64];
    for &i in values.iter() {
        d.set_min(i);
        assert!(d.min == i);
    }
    assert!(min_is_min(&d));
}

#[test]
fn csar_sets_min_in_hole() {
    let mut d = setup_domain();
    d.set_min(43);
    assert!(d.min == 54);
    assert!(min_is_min(&d));
}

#[test]
fn csar_sets_min_too_high() {
    let mut d = setup_domain();
    d.set_min(65);
    assert!(d.min == -3);
    assert!(min_is_min(&d));
}

#[test]
fn tests_creates_new_var() {
    let mut m = Model::new();
    let x = Var::new(&mut m, -2, 255, "x");
    assert_eq!((m.var(x).id, m.var(x).min(), m.var(x).max()), (0, -2, 255));
    assert_eq!(m.vars.len(), 1);
    let y = Var::new(&mut m, -2, 255, "y");
    assert_eq!(m.var(y).id, 1);
    assert_eq!(m.vars.len(), 2);
}

#[test]
fn tests_sets_min_lower() {
    let mut d = setup_domain_simple();
    d.set_min(-4);
    assert_eq!(d.get_min(), -3);
    intervals_bounds_are_coherent(&d);
}

#[test]
fn sets_min_middle() {
    let mut d = setup_domain_simple();
    let values = [-2, 8, 42, 54, 64];
    let lengths = [3, 2, 2, 1, 1];
    for i in 0..values.len() {
        let v: i64 = values[i];
        d.set_min(v);
        assert_eq!(d.get_min(), v);
        assert_eq!(d.intervals.len(), lengths[i]);
    }
    intervals_bounds_are_coherent(&d);
}

#[test]
fn tests_sets_min_in_hole() {
    let mut d = setup_domain_simple();
    d.set_min(43);
    assert_eq!(d.get_min(), 54);
    intervals_bounds_are_coherent(&d);
}

#[test]
fn tests_sets_min_too_high() {
    let mut d = setup_domain_simple();
    d.set_min(65);
    assert_eq!(d.get_min(), -3);
    intervals_bounds_are_coherent(&d);
}

#[test]
fn sets_max_higher() {
    let mut d = setup_domain_simple();
    d.set_max(65);
    assert_eq!(d.get_max(), 64);
    intervals_bounds_are_coherent(&d);
}

#[test]
fn sets_max_middle() {
    let mut d = setup_domain_simple();
    let values = [63, 54, 42, 8, -3];
    let lengths = [3, 3, 2, 2, 1];
    for i in 0..values.len() {
        let v: i64 = values[i];
        d.set_max(v);
        assert_eq!(d.get_max(), v);
        assert_eq!(d.intervals.len(), lengths[i]);
    }
    intervals_bounds_are_coherent(&d);
}

#[test]
fn sets_max_in_hole() {
    let mut d = setup_domain_simple();
    d.set_max(43);
    assert_eq!(d.get_max(), 42);
    intervals_bounds_are_coherent(&d);
}

#[test]
fn sets_max_too_low() {
    let mut d = setup_domain_simple();
    d.set_max(-4);
    assert_eq!(d.get_max(), 64);
    intervals_bounds_are_coherent(&d);
}

#[test]
fn remove_outside() {
    let mut d = setup_domain_holy();
    let e = setup_domain_holy();
    d.remove(-8);
    d.remove(3);
    d.remove(19);
    d.remove(31);
    d.remove(35);
    d.remove(48);
    d.remove(128);
    assert_eq!(d.intervals.len(), e.intervals.len());
    for i in 0..d.intervals.len() {
        assert_eq!(d.intervals[i], e.intervals[i]);
    }
    intervals_bounds_are_coherent(&d);
}

#[test]
fn remove_inside() {
    let mut d = setup_domain_holy();
    let values = [-3, -1, 30, 36, 64];
    for &v in values.iter() {
        d.remove(v);
    }
    for &v in values.iter() {
        for &(x, y) in d.intervals.iter() {
            assert!(v < x || v > y, "{} is not outside [{}..{}]", v, x, y);
        }
    }
    assert_eq!(d.intervals.len(), 8);
    intervals_bounds_are_coherent(&d);
}
