//! The (dis)equality constraints, posted on fresh models.

use csar::eqxy::EqXC;
use csar::eqxy::EqXY;
use csar::eqxy::EqXYC;
use csar::eqxy::NeqXC;
use csar::eqxy::NeqXY;
use csar::eqxy::NeqXYC;
use csar::eqxy::NeqXYCxy;
use csar::Model;
use csar::Var;

#[test]
fn neqxycxy_does_propagate() {
    let mut m = Model::new();
    let x = Var::new(&mut m, -2, 255, "x");
    let y = Var::new(&mut m, 10, 10, "y");
    let (p1, _) = NeqXYCxy::new(&mut m, x, y, -11);
    assert_eq!((p1, m.var(x).min(), m.var(x).max()), (0, -2, 255));
    let (p2, _) = NeqXYCxy::new(&mut m, x, y, -12);
    assert_eq!((p2, m.var(x).min(), m.var(x).max()), (1, 0, 255));
    let (p3, _) = NeqXYCxy::new(&mut m, x, y, 245);
    assert_eq!((p3, m.var(x).min(), m.var(x).max()), (2, 0, 254));
}

#[test]
fn eqxy_does_propagate() {
    let mut m = Model::new();
    let x = Var::new(&mut m, 8, 255, "x");
    let y = Var::new(&mut m, -2, 128, "y");
    EqXY::new(&mut m, x, y);
    assert_eq!(
        (m.var(x).min(), m.var(x).max(), m.var(y).min(), m.var(y).max()),
        (8, 128, 8, 128)
    );
}

#[test]
fn eqxyc_does_propagate() {
    let mut m = Model::new();
    let x = Var::new(&mut m, 8, 255, "x");
    let y = Var::new(&mut m, -2, 128, "y");
    EqXYC::new(&mut m, x, y, 2);
    assert_eq!(
        (m.var(x).min(), m.var(x).max(), m.var(y).min(), m.var(y).max()),
        (8, 130, 6, 128)
    );
}

#[test]
fn eqxc_does_propagate() {
    let mut m = Model::new();
    let x = Var::new(&mut m, 8, 255, "x");
    EqXC::new(&mut m, x, 42);
    assert_eq!((m.var(x).min(), m.var(x).max()), (42, 42));
    assert!(m.var(x).is_instanciated());
}

#[test]
fn neqxy_does_propagate() {
    let mut m = Model::new();
    let x = Var::new(&mut m, 8, 255, "x");
    let y = Var::new(&mut m, -2, 128, "y");
    NeqXY::new(&mut m, x, y);
    EqXC::new(&mut m, x, 128);
    assert_eq!(
        (m.var(x).min(), m.var(x).max(), m.var(y).min(), m.var(y).max()),
        (128, 128, -2, 127)
    );
}

#[test]
fn neqxyc_does_propagate() {
    let mut m = Model::new();
    let x = Var::new(&mut m, 8, 255, "x");
    let y = Var::new(&mut m, -2, -2, "y");
    NeqXYC::new(&mut m, x, y, 257);
    assert_eq!(
        (m.var(x).min(), m.var(x).max(), m.var(y).min(), m.var(y).max()),
        (8, 254, -2, -2)
    );
}

#[test]
fn neqxc_does_propagate() {
    let mut m = Model::new();
    let x = Var::new(&mut m, 8, 255, "x");
    NeqXC::new(&mut m, x, 9);
    NeqXC::new(&mut m, x, 10);
    NeqXC::new(&mut m, x, 8);
    assert_eq!((m.var(x).min(), m.var(x).max()), (11, 255));
}
