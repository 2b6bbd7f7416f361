//! The (dis)equality constraints, reduced to the ordering kernel and
//! to direct domain surgery.

use crate::ltxy::keeps_props;
use crate::ltxy::lemma_posted_lt_bounds;
use crate::ltxy::lt_halves_at;
use crate::Event;
use crate::Mod;
use crate::PropKind;
use vstd::prelude::*;

verus! {

/// X = Y
pub struct EqXY;

/// X = Y + C
pub struct EqXYC;

/// X = C
pub struct EqXC;

/// X != Y
pub struct NeqXY;

/// X != Y + C
pub struct NeqXYC;

/// X != C
pub struct NeqXC;

/// The one propagator behind the variable disequalities: `x != y + c`,
/// watching both variables for instantiation.
pub struct NeqXYCxy;

/// What one equality posting appends, stated for every outcome: up to
/// four ordering halves, each relating the pair in one direction with
/// the matching offset, and nothing else.
pub open spec fn eq_quad_appended(om: Mod, nm: Mod, x: usize, y: usize, cle: i64, cge: i64) -> bool {
    &&& om.props@.len() < nm.props@.len() <= om.props@.len() + 4
    &&& (forall|q: int|
        om.props@.len() <= q < nm.props@.len() ==> ({
            let np = (#[trigger] nm.props@[q]);
            &&& (np.kind == PropKind::LtXYCx || np.kind == PropKind::LtXYCy)
            &&& ((np.x == x && np.y == y && np.c == cle) || (np.x == y && np.y == x && np.c
                == cge))
        }))
}

impl EqXY {
    /// X = Y, posted as `x =< y` and `x >= y`.  On success the two
    /// variables share their bounds.
    pub fn new(m: &mut Mod, x: usize, y: usize) -> (r: bool)
        requires
            old(m).wf(),
            old(m).quiescent(),
            old(m).entailed_sound(),
            x < old(m).vars@.len(),
            y < old(m).vars@.len(),
        ensures
            final(m).wf(),
            final(m).vars@.len() == old(m).vars@.len(),
            r ==> final(m).quiescent() && final(m).entailed_sound(),
            r ==> final(m).vars@[x as int].dom.max == final(m).vars@[y as int].dom.max,
            r ==> final(m).vars@[x as int].dom.min == final(m).vars@[y as int].dom.min,
            final(m).vars_narrowed_from(*old(m)),
            keeps_props(*old(m), *final(m)),
            eq_quad_appended(*old(m), *final(m), x, y, 1, 1),
            r ==> final(m).props@.len() == old(m).props@.len() + 4,
            r ==> lt_halves_at(*final(m), old(m).props@.len() as int, x, y, 1) && lt_halves_at(
                *final(m),
                old(m).props@.len() as int + 2,
                y,
                x,
                1,
            ),
            forall|asn: Seq<int>|
                #[trigger] old(m).in_doms(asn) && old(m).sat(asn) && asn[x as int] == asn[y as int]
                    ==> final(m).in_doms(asn),
            (exists|asn: Seq<int>|
                #[trigger] old(m).in_doms(asn) && old(m).sat(asn) && asn[x as int]
                    == asn[y as int]) ==> r,
    {
        let ghost om = *old(m);
        let ghost n0 = old(m).props@.len() as int;
        if !crate::ltxy::LeXY::new(m, x, y) {
            proof {
                assert(eq_quad_appended(om, *m, x, y, 1, 1));
            }
            return false;
        }
        let ghost mid = *m;
        let ok2 = crate::ltxy::GeXY::new(m, x, y);
        proof {
            // frame and shape compose across the two postings
            Mod::lemma_narrowed_trans(om, mid, *m);
            assert(eq_quad_appended(om, *m, x, y, 1, 1)) by {
                assert forall|q: int| om.props@.len() <= q < m.props@.len() implies ({
                    let np = (#[trigger] m.props@[q]);
                    &&& (np.kind == PropKind::LtXYCx || np.kind == PropKind::LtXYCy)
                    &&& ((np.x == x && np.y == y && np.c == 1) || (np.x == y && np.y == x && np.c
                        == 1))
                }) by {
                    if q < mid.props@.len() {
                        assert(mid.props@[q].x == x && mid.props@[q].y == y && mid.props@[q].c
                            == 1);
                    }
                }
            }
            // an assignment giving both variables one value survives
            // both postings
            assert forall|asn: Seq<int>|
                #[trigger] om.in_doms(asn) && om.sat(asn) && asn[x as int] == asn[y as int]
                implies m.in_doms(asn) && mid.in_doms(asn) && mid.sat(asn) by {
                Mod::lemma_sat_append(om, mid, asn);
            }
            // while such an assignment exists, neither posting fails
            if !ok2 && exists|asn: Seq<int>|
                #[trigger] om.in_doms(asn) && om.sat(asn) && asn[x as int] == asn[y as int] {
                let asn = choose|asn: Seq<int>|
                    #[trigger] om.in_doms(asn) && om.sat(asn) && asn[x as int] == asn[y as int];
                assert(mid.in_doms(asn) && mid.sat(asn));
                assert(false);
            }
        }
        if !ok2 {
            return false;
        }
        proof {
            assert(lt_halves_at(mid, n0, x, y, 1));
            assert(lt_halves_at(*m, n0, x, y, 1));
            lemma_posted_lt_bounds(*m, n0);
            lemma_posted_lt_bounds(*m, n0 + 1);
            let n1 = mid.props@.len() as int;
            assert(lt_halves_at(*m, n1, y, x, 1));
            lemma_posted_lt_bounds(*m, n1);
            lemma_posted_lt_bounds(*m, n1 + 1);
        }
        true
    }
}

impl EqXYC {
    /// X = Y + C, posted as `x =< y + c` and `x >= y + c`.  On success
    /// the bounds agree up to the offset: `x.max == y.max + c` and
    /// `x.min == y.min + c`.
    pub fn new(m: &mut Mod, x: usize, y: usize, c: i64) -> (r: bool)
        requires
            old(m).wf(),
            old(m).quiescent(),
            old(m).entailed_sound(),
            x < old(m).vars@.len(),
            y < old(m).vars@.len(),
            i64::MIN + 1 < c < i64::MAX,
        ensures
            final(m).wf(),
            final(m).vars@.len() == old(m).vars@.len(),
            r ==> final(m).quiescent() && final(m).entailed_sound(),
            r ==> final(m).vars@[x as int].dom.max as int == final(m).vars@[y as int].dom.max + c,
            r ==> final(m).vars@[x as int].dom.min as int == final(m).vars@[y as int].dom.min + c,
            final(m).vars_narrowed_from(*old(m)),
            keeps_props(*old(m), *final(m)),
            eq_quad_appended(*old(m), *final(m), x, y, (c + 1) as i64, (1 - c) as i64),
            r ==> final(m).props@.len() == old(m).props@.len() + 4,
            r ==> lt_halves_at(
                *final(m),
                old(m).props@.len() as int,
                x,
                y,
                (c + 1) as i64,
            ) && lt_halves_at(*final(m), old(m).props@.len() as int + 2, y, x, (1 - c) as i64),
            forall|asn: Seq<int>|
                #[trigger] old(m).in_doms(asn) && old(m).sat(asn) && asn[x as int] == asn[y as int]
                    + c ==> final(m).in_doms(asn),
            (exists|asn: Seq<int>|
                #[trigger] old(m).in_doms(asn) && old(m).sat(asn) && asn[x as int]
                    == asn[y as int] + c) ==> r,
    {
        let ghost om = *old(m);
        let ghost n0 = old(m).props@.len() as int;
        if !crate::ltxy::LeXYC::new(m, x, y, c) {
            proof {
                assert(eq_quad_appended(om, *m, x, y, (c + 1) as i64, (1 - c) as i64));
            }
            return false;
        }
        let ghost mid = *m;
        let ok2 = crate::ltxy::GeXYC::new(m, x, y, c);
        proof {
            // frame and shape compose across the two postings
            Mod::lemma_narrowed_trans(om, mid, *m);
            assert(eq_quad_appended(om, *m, x, y, (c + 1) as i64, (1 - c) as i64)) by {
                assert forall|q: int| om.props@.len() <= q < m.props@.len() implies ({
                    let np = (#[trigger] m.props@[q]);
                    &&& (np.kind == PropKind::LtXYCx || np.kind == PropKind::LtXYCy)
                    &&& ((np.x == x && np.y == y && np.c == (c + 1) as i64) || (np.x == y && np.y
                        == x && np.c == (1 - c) as i64))
                }) by {
                    if q < mid.props@.len() {
                        assert(mid.props@[q].x == x && mid.props@[q].y == y && mid.props@[q].c
                            == (c + 1) as i64);
                    }
                }
            }
            // an assignment meeting the equality survives both postings
            assert forall|asn: Seq<int>|
                #[trigger] om.in_doms(asn) && om.sat(asn) && asn[x as int] == asn[y as int] + c
                implies m.in_doms(asn) && mid.in_doms(asn) && mid.sat(asn) by {
                Mod::lemma_sat_append(om, mid, asn);
            }
            // while such an assignment exists, neither posting fails
            if !ok2 && exists|asn: Seq<int>|
                #[trigger] om.in_doms(asn) && om.sat(asn) && asn[x as int] == asn[y as int] + c {
                let asn = choose|asn: Seq<int>|
                    #[trigger] om.in_doms(asn) && om.sat(asn) && asn[x as int] == asn[y as int]
                        + c;
                assert(mid.in_doms(asn) && mid.sat(asn));
                assert(false);
            }
        }
        if !ok2 {
            return false;
        }
        proof {
            assert(lt_halves_at(mid, n0, x, y, (c + 1) as i64));
            assert(lt_halves_at(*m, n0, x, y, (c + 1) as i64));
            lemma_posted_lt_bounds(*m, n0);
            lemma_posted_lt_bounds(*m, n0 + 1);
            let n1 = mid.props@.len() as int;
            assert(lt_halves_at(*m, n1, y, x, (1 - c) as i64));
            lemma_posted_lt_bounds(*m, n1);
            lemma_posted_lt_bounds(*m, n1 + 1);
        }
        true
    }
}

impl EqXC {
    /// X = C, posted as `x =< c` and `x >= c`.  On success the variable
    /// is instantiated to `c`; a value outside the domain cannot
    /// succeed.
    pub fn new(m: &mut Mod, x: usize, c: i64) -> (r: bool)
        requires
            old(m).wf(),
            old(m).quiescent(),
            old(m).entailed_sound(),
            x < old(m).vars@.len(),
        ensures
            final(m).wf(),
            final(m).vars@.len() == old(m).vars@.len(),
            r ==> final(m).quiescent() && final(m).entailed_sound(),
            r ==> final(m).vars@[x as int].dom.min == c && final(m).vars@[x as int].dom.max == c,
            !old(m).vars@[x as int].dom.contains(c as int) ==> !r,
            final(m).vars_narrowed_from(*old(m)),
            keeps_props(*old(m), *final(m)),
            final(m).props@.len() == old(m).props@.len(),
            forall|asn: Seq<int>|
                #[trigger] old(m).in_doms(asn) && old(m).sat(asn) && asn[x as int] == c
                    ==> final(m).in_doms(asn),
            (exists|asn: Seq<int>|
                #[trigger] old(m).in_doms(asn) && old(m).sat(asn) && asn[x as int] == c) ==> r,
    {
        let ghost om = *old(m);
        let ok1 = crate::ltxy::LeXC::new(m, x, c);
        if !ok1 {
            return false;
        }
        let ghost mid = *m;
        let ok2 = crate::ltxy::GeXC::new(m, x, c);
        proof {
            // while an assignment picking `c` for `x` exists, neither
            // cut can fail
            if !ok2 && exists|asn: Seq<int>|
                #[trigger] om.in_doms(asn) && om.sat(asn) && asn[x as int] == c {
                let asn = choose|asn: Seq<int>|
                    #[trigger] om.in_doms(asn) && om.sat(asn) && asn[x as int] == c;
                assert(mid.in_doms(asn));
                Mod::lemma_sat_prefix(om, mid, asn);
                assert(false);
            }
            Mod::lemma_narrowed_trans(om, mid, *m);
        }
        if !ok2 {
            return false;
        }
        proof {
            // an assignment that picks `c` for `x` survives both cuts
            assert forall|asn: Seq<int>|
                #[trigger] om.in_doms(asn) && om.sat(asn) && asn[x as int] == c implies
                m.in_doms(asn) by {
                assert(mid.in_doms(asn));
                Mod::lemma_sat_prefix(om, mid, asn);
            }
            Mod::lemma_narrowed_trans(om, mid, *m);
            // the first posting capped the maximum at `c`, the second
            // raised the minimum to `c`; a well-formed domain in
            // between is pinned
            assert(mid.vars@[x as int].dom.max <= c);
            assert(m.vars@[x as int].dom.max <= c);
            m.vars@[x as int].dom.lemma_bounds_contained();
        }
        true
    }
}

impl NeqXYCxy {
    /// Posts the disequality propagator `x != y + c`.
    pub fn new(m: &mut Mod, x: usize, y: usize, c: i64) -> (r: (usize, bool))
        requires
            old(m).wf(),
            old(m).quiescent(),
            old(m).entailed_sound(),
            x < old(m).vars@.len(),
            y < old(m).vars@.len(),
            x != y,
        ensures
            final(m).wf(),
            r.0 == old(m).props@.len(),
            final(m).vars@.len() == old(m).vars@.len(),
            final(m).props@.len() == old(m).props@.len() + 1,
            keeps_props(*old(m), *final(m)),
            final(m).vars_narrowed_from(*old(m)),
            final(m).props@[r.0 as int].kind == PropKind::NeqXYCxy,
            final(m).props@[r.0 as int].x == x,
            final(m).props@[r.0 as int].y == y,
            final(m).props@[r.0 as int].c == c,
            r.1 ==> final(m).quiescent() && final(m).entailed_sound(),
            r.1 ==> ({
                let dx = final(m).vars@[x as int].dom;
                let dy = final(m).vars@[y as int].dom;
                dx.min == dx.max && dy.min == dy.max ==> dx.min as int != dy.min + c
            }),
            forall|asn: Seq<int>|
                #[trigger] old(m).in_doms(asn) && old(m).sat(asn) && asn[x as int] != asn[y as int]
                    + c ==> final(m).in_doms(asn),
            (exists|asn: Seq<int>|
                #[trigger] old(m).in_doms(asn) && old(m).sat(asn) && asn[x as int]
                    != asn[y as int] + c) ==> r.1,
    {
        let (id, ok) = m.add_prop(PropKind::NeqXYCxy, x, y, c);
        proof {
            if ok {
                let mm = *m;
                let dx = mm.vars@[x as int].dom;
                let dy = mm.vars@[y as int].dom;
                dx.lemma_bounds_contained();
                dy.lemma_bounds_contained();
                if mm.props@[id as int].entailed {
                    assert(mm.prop_resolved(id as int));
                } else {
                    assert(mm.prop_stable(id as int));
                }
            }
        }
        (id, ok)
    }
}

impl NeqXY {
    /// X != Y, posted as `x != y + 0`.
    pub fn new(m: &mut Mod, x: usize, y: usize) -> (r: bool)
        requires
            old(m).wf(),
            old(m).quiescent(),
            old(m).entailed_sound(),
            x < old(m).vars@.len(),
            y < old(m).vars@.len(),
            x != y,
        ensures
            final(m).wf(),
            final(m).vars@.len() == old(m).vars@.len(),
            final(m).props@.len() == old(m).props@.len() + 1,
            keeps_props(*old(m), *final(m)),
            final(m).vars_narrowed_from(*old(m)),
            final(m).props@[old(m).props@.len() as int].kind == PropKind::NeqXYCxy,
            final(m).props@[old(m).props@.len() as int].x == x,
            final(m).props@[old(m).props@.len() as int].y == y,
            final(m).props@[old(m).props@.len() as int].c == 0,
            r ==> final(m).quiescent() && final(m).entailed_sound(),
            r ==> ({
                let dx = final(m).vars@[x as int].dom;
                let dy = final(m).vars@[y as int].dom;
                dx.min == dx.max && dy.min == dy.max ==> dx.min != dy.min
            }),
            forall|asn: Seq<int>|
                #[trigger] old(m).in_doms(asn) && old(m).sat(asn) && asn[x as int]
                    != asn[y as int] ==> final(m).in_doms(asn),
            (exists|asn: Seq<int>|
                #[trigger] old(m).in_doms(asn) && old(m).sat(asn) && asn[x as int]
                    != asn[y as int]) ==> r,
    {
        let (_, ok) = NeqXYCxy::new(m, x, y, 0);
        ok
    }
}

impl NeqXYC {
    /// X != Y + C, posted through the single disequality propagator.
    pub fn new(m: &mut Mod, x: usize, y: usize, c: i64) -> (r: bool)
        requires
            old(m).wf(),
            old(m).quiescent(),
            old(m).entailed_sound(),
            x < old(m).vars@.len(),
            y < old(m).vars@.len(),
            x != y,
        ensures
            final(m).wf(),
            final(m).vars@.len() == old(m).vars@.len(),
            final(m).props@.len() == old(m).props@.len() + 1,
            keeps_props(*old(m), *final(m)),
            final(m).vars_narrowed_from(*old(m)),
            final(m).props@[old(m).props@.len() as int].kind == PropKind::NeqXYCxy,
            final(m).props@[old(m).props@.len() as int].x == x,
            final(m).props@[old(m).props@.len() as int].y == y,
            final(m).props@[old(m).props@.len() as int].c == c,
            r ==> final(m).quiescent() && final(m).entailed_sound(),
            r ==> ({
                let dx = final(m).vars@[x as int].dom;
                let dy = final(m).vars@[y as int].dom;
                dx.min == dx.max && dy.min == dy.max ==> dx.min as int != dy.min + c
            }),
            forall|asn: Seq<int>|
                #[trigger] old(m).in_doms(asn) && old(m).sat(asn) && asn[x as int] != asn[y as int]
                    + c ==> final(m).in_doms(asn),
            (exists|asn: Seq<int>|
                #[trigger] old(m).in_doms(asn) && old(m).sat(asn) && asn[x as int]
                    != asn[y as int] + c) ==> r,
    {
        let (_, ok) = NeqXYCxy::new(m, x, y, c);
        ok
    }
}

impl NeqXC {
    /// X != C: strikes `c` from the domain directly, then drains the
    /// wake set of whatever bound event the strike raised.
    pub fn new(m: &mut Mod, x: usize, c: i64) -> (r: bool)
        requires
            old(m).wf(),
            old(m).quiescent(),
            old(m).entailed_sound(),
            x < old(m).vars@.len(),
        ensures
            final(m).wf(),
            final(m).vars@.len() == old(m).vars@.len(),
            final(m).props@.len() == old(m).props@.len(),
            keeps_props(*old(m), *final(m)),
            final(m).vars_narrowed_from(*old(m)),
            r ==> final(m).quiescent() && final(m).entailed_sound(),
            r ==> !final(m).vars@[x as int].dom.contains(c as int),
            old(m).vars@[x as int].dom.min == c && old(m).vars@[x as int].dom.max == c ==> !r,
            forall|asn: Seq<int>|
                #[trigger] old(m).in_doms(asn) && old(m).sat(asn) && asn[x as int] != c
                    ==> final(m).in_doms(asn),
            (exists|asn: Seq<int>|
                #[trigger] old(m).in_doms(asn) && old(m).sat(asn) && asn[x as int] != c) ==> r,
    {
        let ghost om = *old(m);
        let (wake, ok) = m.remove(x, c as i128);
        if !ok {
            proof {
                // the strike failed, so `c` was the last value of `x`:
                // no assignment avoiding it was available
                om.vars@[x as int].dom.lemma_bounds_contained();
                if exists|asn: Seq<int>|
                    #[trigger] om.in_doms(asn) && om.sat(asn) && asn[x as int] != c {
                    let asn = choose|asn: Seq<int>|
                        #[trigger] om.in_doms(asn) && om.sat(asn) && asn[x as int] != c;
                    assert(om.vars@[x as int].dom.contains(asn[x as int]));
                    om.vars@[x as int].dom.lemma_contains_bounds(asn[x as int]);
                    assert(false);
                }
            }
            return false;
        }
        let ghost m1 = *m;
        proof {
            let odw = om.vars@[x as int].dom;
            om.vars@[x as int].dom.lemma_bounds_contained();
            // the wake set covers the events the strike raised
            if c == odw.min && (c as int) < odw.max as int {
                crate::propagate::lemma_wake_entries_valid(om, x as int, Event::Min, wake@);
                crate::propagate::lemma_wake_covers(
                    om.slot(x as int, Event::Min),
                    om.slot(x as int, Event::Ins),
                    wake@,
                );
            } else if c == odw.max && (c as int) > odw.min as int {
                crate::propagate::lemma_wake_entries_valid(om, x as int, Event::Max, wake@);
                crate::propagate::lemma_wake_covers(
                    om.slot(x as int, Event::Max),
                    om.slot(x as int, Event::Ins),
                    wake@,
                );
            }
            Mod::lemma_narrow_keeps_stability(om, m1, x as int, wake@);
            assert forall|q: int|
                0 <= q < m1.props@.len() && !m1.props@[q].entailed && !m1.prop_stable(q) implies
                wake@.contains(q as usize) by {
                assert(om.prop_stable(q));
            }
            assert(m1.vars_narrowed_from(om));
            // an assignment avoiding `c` survives the strike
            assert forall|asn: Seq<int>|
                #[trigger] om.in_doms(asn) && om.sat(asn) && asn[x as int] != c implies
                m1.in_doms(asn) && m1.sat(asn) by {
                Mod::lemma_sat_prefix(om, m1, asn);
            }
        }
        let r = m.propagate_vec(wake);
        proof {
            Mod::lemma_narrowed_trans(om, m1, *m);
        }
        r
    }
}

} // verus!
