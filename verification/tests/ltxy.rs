//! The ordering constraints, posted on fresh models.

use csar::ltxy::GeXC;
use csar::ltxy::GeXY;
use csar::ltxy::GeXYC;
use csar::ltxy::GtXC;
use csar::ltxy::GtXY;
use csar::ltxy::GtXYC;
use csar::ltxy::LeXC;
use csar::ltxy::LeXY;
use csar::ltxy::LeXYC;
use csar::ltxy::LtXC;
use csar::ltxy::LtXY;
use csar::ltxy::LtXYC;
use csar::ltxy::LtXYCx;
use csar::ltxy::LtXYCy;
use csar::Model;
use csar::Var;

#[test]
fn it_does_propagate() {
    let mut m = Model::new();
    let x = Var::new(&mut m, -2, 255, "x");
    let y = Var::new(&mut m, -2, 255, "y");
    let (p1, _) = LtXYCx::new(&mut m, x, y, -2);
    assert!(p1 == 0);
    assert!(m.var(x).max() == 252);
    let (p2, _) = LtXYCy::new(&mut m, x, y, -2);
    assert!(p2 == 1);
    assert!(m.var(y).min() == 1);
}

#[test]
fn propagator_does_propagate() {
    let mut m = Model::new();
    let x = Var::new(&mut m, -2, 255, "x");
    let y = Var::new(&mut m, -2, 255, "y");
    LtXYCx::new(&mut m, x, y, -2);
    assert_eq!(m.var(x).max(), 252);
    LtXYCy::new(&mut m, x, y, -2);
    assert_eq!(m.var(y).min(), 1);
}

#[test]
fn ltxy_does_propagate() {
    let mut m = Model::new();
    let x = Var::new(&mut m, -2, 255, "x");
    let y = Var::new(&mut m, -2, 255, "y");
    LtXY::new(&mut m, x, y);
    assert_eq!((m.var(x).max(), m.var(y).min()), (254, -1));
}

#[test]
fn gtxy_does_propagate() {
    let mut m = Model::new();
    let x = Var::new(&mut m, -2, 252, "x");
    let y = Var::new(&mut m, 2, 255, "y");
    GtXY::new(&mut m, x, y);
    assert_eq!((m.var(x).min(), m.var(y).max()), (3, 251));
}

#[test]
fn lexy_does_propagate() {
    let mut m = Model::new();
    let x = Var::new(&mut m, -2, 255, "x");
    let y = Var::new(&mut m, -2, 255, "y");
    LeXY::new(&mut m, x, y);
    assert_eq!((m.var(x).max(), m.var(y).min()), (255, -2));
}

#[test]
fn gexy_does_propagate() {
    let mut m = Model::new();
    let x = Var::new(&mut m, -2, 252, "x");
    let y = Var::new(&mut m, 2, 255, "y");
    GeXY::new(&mut m, x, y);
    assert_eq!((m.var(x).min(), m.var(y).max()), (2, 252));
}

#[test]
fn ltxyc_does_propagate() {
    let mut m = Model::new();
    let x = Var::new(&mut m, -2, 255, "x");
    let y = Var::new(&mut m, -2, 255, "y");
    LtXYC::new(&mut m, x, y, -1);
    assert_eq!((m.var(x).max(), m.var(y).min()), (253, 0));
}

#[test]
fn gtxyc_does_propagate() {
    let mut m = Model::new();
    let x = Var::new(&mut m, -2, 252, "x");
    let y = Var::new(&mut m, 2, 255, "y");
    GtXYC::new(&mut m, x, y, 1);
    assert_eq!((m.var(x).min(), m.var(y).max()), (4, 250));
}

#[test]
fn lexyc_does_propagate() {
    let mut m = Model::new();
    let x = Var::new(&mut m, -2, 255, "x");
    let y = Var::new(&mut m, -2, 255, "y");
    LeXYC::new(&mut m, x, y, 1);
    assert_eq!((m.var(x).max(), m.var(y).min()), (255, -2));
}

#[test]
fn gexyc_does_propagate() {
    let mut m = Model::new();
    let x = Var::new(&mut m, -2, 252, "x");
    let y = Var::new(&mut m, 2, 255, "y");
    GeXYC::new(&mut m, x, y, 3);
    assert_eq!((m.var(x).min(), m.var(y).max()), (5, 249));
}

#[test]
fn ltxc_does_propagate() {
    let mut m = Model::new();
    let x = Var::new(&mut m, -2, 252, "x");
    LtXC::new(&mut m, x, 3);
    assert_eq!((m.var(x).min(), m.var(x).max()), (-2, 2));
}

#[test]
fn lexc_does_propagate() {
    let mut m = Model::new();
    let x = Var::new(&mut m, -2, 252, "x");
    LeXC::new(&mut m, x, 3);
    assert_eq!((m.var(x).min(), m.var(x).max()), (-2, 3));
}

#[test]
fn gtxc_does_propagate() {
    let mut m = Model::new();
    let x = Var::new(&mut m, -2, 252, "x");
    GtXC::new(&mut m, x, 3);
    assert_eq!((m.var(x).min(), m.var(x).max()), (4, 252));
}

#[test]
fn gexc_does_propagate() {
    let mut m = Model::new();
    let x = Var::new(&mut m, -2, 252, "x");
    GeXC::new(&mut m, x, 3);
    assert_eq!((m.var(x).min(), m.var(x).max()), (3, 252));
}
