//! The ordering constraints: `x < y + c` and everything that reduces
//! to it.

use crate::Event;
use crate::Mod;
use crate::PropKind;
use vstd::prelude::*;

verus! {

/// X < Y
pub struct LtXY;

/// X < Y + C
pub struct LtXYC;

/// X < C
pub struct LtXC;

/// X =< Y
pub struct LeXY;

/// X =< Y + C
pub struct LeXYC;

/// X =< C
pub struct LeXC;

/// X > Y
pub struct GtXY;

/// X > Y + C
pub struct GtXYC;

/// X > C
pub struct GtXC;

/// X >= Y
pub struct GeXY;

/// X >= Y + C
pub struct GeXYC;

/// X >= C
pub struct GeXC;

/// One half of `x < y + c`: the propagator that trims `x`'s upper
/// bound.
pub struct LtXYCx;

/// The other half of `x < y + c`: the propagator that raises `y`'s
/// lower bound.
pub struct LtXYCy;

/// The constraints already posted are untouched: a later posting only
/// appends propagators, it never rewrites an earlier one.
pub open spec fn keeps_props(om: Mod, nm: Mod) -> bool {
    &&& nm.props@.len() >= om.props@.len()
    &&& (forall|q: int|
        0 <= q < om.props@.len() ==> ({
            let np = (#[trigger] nm.props@[q]);
            let op = om.props@[q];
            &&& np.kind == op.kind
            &&& np.x == op.x
            &&& np.y == op.y
            &&& np.c == op.c
        }))
}

/// The two half-propagators of one `x < y + c` posting sit at `i` and
/// `i + 1`.
pub open spec fn lt_halves_at(m: Mod, i: int, x: usize, y: usize, c: i64) -> bool {
    &&& 0 <= i
    &&& i + 2 <= m.props@.len()
    &&& m.props@[i].kind == PropKind::LtXYCx
    &&& m.props@[i].x == x
    &&& m.props@[i].y == y
    &&& m.props@[i].c == c
    &&& m.props@[i + 1].kind == PropKind::LtXYCy
    &&& m.props@[i + 1].x == x
    &&& m.props@[i + 1].y == y
    &&& m.props@[i + 1].c == c
}

/// What one `x < y + c` posting appends, stated for every outcome:
/// first its x-side half, then (unless posting the first half already
/// failed) its y-side half, and nothing else.
pub open spec fn lt_pair_appended(om: Mod, nm: Mod, x: usize, y: usize, c: i64) -> bool {
    &&& om.props@.len() < nm.props@.len() <= om.props@.len() + 2
    &&& nm.props@[om.props@.len() as int].kind == PropKind::LtXYCx
    &&& (forall|q: int|
        om.props@.len() <= q < nm.props@.len() ==> ({
            let np = (#[trigger] nm.props@[q]);
            &&& (np.kind == PropKind::LtXYCx || np.kind == PropKind::LtXYCy)
            &&& np.x == x
            &&& np.y == y
            &&& np.c == c
        }))
}

/// At a fixed point each posted ordering half pins a bound, whether
/// the propagator is still live (stable) or already retired
/// (entailed): posting `x < y + c` leaves `x.max <= y.max + c - 1` and
/// `y.min >= x.min - c + 1`.
pub proof fn lemma_posted_lt_bounds(m: Mod, i: int)
    requires
        m.wf(),
        m.quiescent(),
        m.entailed_sound(),
        0 <= i < m.props@.len(),
    ensures
        m.props@[i].kind == PropKind::LtXYCx ==> m.vars@[m.props@[i].x as int].dom.max as int
            <= m.vars@[m.props@[i].y as int].dom.max + m.props@[i].c - 1,
        m.props@[i].kind == PropKind::LtXYCy ==> m.vars@[m.props@[i].y as int].dom.min as int
            >= m.vars@[m.props@[i].x as int].dom.min - m.props@[i].c + 1,
{
    let p = m.props@[i];
    let dx = m.vars@[p.x as int].dom;
    let dy = m.vars@[p.y as int].dom;
    dx.lemma_bounds_contained();
    dy.lemma_bounds_contained();
    if p.entailed {
        assert(m.prop_resolved(i));
    } else {
        assert(m.prop_stable(i));
    }
}

impl LtXYCx {
    /// Posts the `x`-side half-propagator of `x < y + c` alone.
    pub fn new(m: &mut Mod, x: usize, y: usize, c: i64) -> (r: (usize, bool))
        requires
            old(m).wf(),
            old(m).quiescent(),
            old(m).entailed_sound(),
            x < old(m).vars@.len(),
            y < old(m).vars@.len(),
        ensures
            final(m).wf(),
            r.0 == old(m).props@.len(),
            final(m).vars@.len() == old(m).vars@.len(),
            final(m).props@.len() == old(m).props@.len() + 1,
            r.1 ==> final(m).quiescent() && final(m).entailed_sound(),
            r.1 ==> final(m).vars@[x as int].dom.max as int <= final(m).vars@[y as int].dom.max
                + c - 1,
            final(m).vars_narrowed_from(*old(m)),
            keeps_props(*old(m), *final(m)),
            final(m).props@[r.0 as int].kind == PropKind::LtXYCx,
            final(m).props@[r.0 as int].x == x,
            final(m).props@[r.0 as int].y == y,
            final(m).props@[r.0 as int].c == c,
            forall|asn: Seq<int>|
                #[trigger] old(m).in_doms(asn) && old(m).sat(asn) && (asn[x as int] < asn[y as int]
                    + c) ==> final(m).in_doms(asn),
            (exists|asn: Seq<int>|
                #[trigger] old(m).in_doms(asn) && old(m).sat(asn) && (asn[x as int] < asn[y as int]
                    + c)) ==> r.1,
    {
        let (id, ok) = m.add_prop(PropKind::LtXYCx, x, y, c);
        proof {
            if ok {
                lemma_posted_lt_bounds(*m, id as int);
            }
        }
        (id, ok)
    }
}

impl LtXYCy {
    /// Posts the `y`-side half-propagator of `x < y + c` alone.
    pub fn new(m: &mut Mod, x: usize, y: usize, c: i64) -> (r: (usize, bool))
        requires
            old(m).wf(),
            old(m).quiescent(),
            old(m).entailed_sound(),
            x < old(m).vars@.len(),
            y < old(m).vars@.len(),
        ensures
            final(m).wf(),
            r.0 == old(m).props@.len(),
            final(m).vars@.len() == old(m).vars@.len(),
            final(m).props@.len() == old(m).props@.len() + 1,
            r.1 ==> final(m).quiescent() && final(m).entailed_sound(),
            r.1 ==> final(m).vars@[y as int].dom.min as int >= final(m).vars@[x as int].dom.min
                - c + 1,
            final(m).vars_narrowed_from(*old(m)),
            keeps_props(*old(m), *final(m)),
            final(m).props@[r.0 as int].kind == PropKind::LtXYCy,
            final(m).props@[r.0 as int].x == x,
            final(m).props@[r.0 as int].y == y,
            final(m).props@[r.0 as int].c == c,
            forall|asn: Seq<int>|
                #[trigger] old(m).in_doms(asn) && old(m).sat(asn) && (asn[x as int] < asn[y as int]
                    + c) ==> final(m).in_doms(asn),
            (exists|asn: Seq<int>|
                #[trigger] old(m).in_doms(asn) && old(m).sat(asn) && (asn[x as int] < asn[y as int]
                    + c)) ==> r.1,
    {
        let (id, ok) = m.add_prop(PropKind::LtXYCy, x, y, c);
        proof {
            if ok {
                lemma_posted_lt_bounds(*m, id as int);
            }
        }
        (id, ok)
    }
}

impl LtXYC {
    /// Posts `x < y + c` as its two half-propagators and propagates to
    /// a fixed point.  On success both bounds are consistent:
    /// `x.max <= y.max + c - 1` and `y.min >= x.min - c + 1`.
    pub fn new(m: &mut Mod, x: usize, y: usize, c: i64) -> (r: bool)
        requires
            old(m).wf(),
            old(m).quiescent(),
            old(m).entailed_sound(),
            x < old(m).vars@.len(),
            y < old(m).vars@.len(),
        ensures
            final(m).wf(),
            final(m).vars@.len() == old(m).vars@.len(),
            r ==> final(m).quiescent() && final(m).entailed_sound(),
            r ==> final(m).vars@[x as int].dom.max as int <= final(m).vars@[y as int].dom.max + c
                - 1,
            r ==> final(m).vars@[y as int].dom.min as int >= final(m).vars@[x as int].dom.min - c
                + 1,
            keeps_props(*old(m), *final(m)),
            final(m).vars_narrowed_from(*old(m)),
            lt_pair_appended(*old(m), *final(m), x, y, c),
            r ==> final(m).props@.len() == old(m).props@.len() + 2,
            r ==> lt_halves_at(*final(m), old(m).props@.len() as int, x, y, c),
            forall|asn: Seq<int>|
                #[trigger] old(m).in_doms(asn) && old(m).sat(asn) && (asn[x as int] < asn[y as int]
                    + c) ==> final(m).in_doms(asn),
            (exists|asn: Seq<int>|
                #[trigger] old(m).in_doms(asn) && old(m).sat(asn) && (asn[x as int] < asn[y as int]
                    + c)) ==> r,
    {
        let ghost om = *old(m);
        let ghost n0 = old(m).props@.len() as int;
        let (id1, ok1) = m.add_prop(PropKind::LtXYCx, x, y, c);
        let ghost mid1 = *m;
        if !ok1 {
            proof {
                assert(lt_pair_appended(om, *m, x, y, c));
            }
            return false;
        }
        let (id2, ok2) = m.add_prop(PropKind::LtXYCy, x, y, c);
        proof {
            // frame and shape compose across the two postings
            Mod::lemma_narrowed_trans(om, mid1, *m);
            assert(m.props@[n0].kind == PropKind::LtXYCx && m.props@[n0].x == x && m.props@[n0].y
                == y && m.props@[n0].c == c);
            assert(lt_pair_appended(om, *m, x, y, c));
            // an assignment meeting `x < y + c` survives both postings
            assert forall|asn: Seq<int>|
                #[trigger] om.in_doms(asn) && om.sat(asn) && (asn[x as int] < asn[y as int] + c)
                implies m.in_doms(asn) by {
                assert(mid1.in_doms(asn));
                assert(mid1.props@[n0].kind == PropKind::LtXYCx);
                Mod::lemma_sat_append(om, mid1, asn);
            }
            // while such an assignment exists, neither posting fails
            if !ok2 && exists|asn: Seq<int>|
                #[trigger] om.in_doms(asn) && om.sat(asn) && (asn[x as int] < asn[y as int] + c) {
                let asn = choose|asn: Seq<int>|
                    #[trigger] om.in_doms(asn) && om.sat(asn) && (asn[x as int] < asn[y as int]
                        + c);
                assert(mid1.in_doms(asn));
                assert(mid1.props@[n0].kind == PropKind::LtXYCx);
                Mod::lemma_sat_append(om, mid1, asn);
                assert(false);
            }
        }
        if !ok2 {
            return false;
        }
        proof {
            assert(m.props@[id1 as int].kind == PropKind::LtXYCx);
            lemma_posted_lt_bounds(*m, id1 as int);
            lemma_posted_lt_bounds(*m, id2 as int);
        }
        true
    }
}

impl LtXY {
    /// X < Y, posted as `x < y + 0`.
    pub fn new(m: &mut Mod, x: usize, y: usize) -> (r: bool)
        requires
            old(m).wf(),
            old(m).quiescent(),
            old(m).entailed_sound(),
            x < old(m).vars@.len(),
            y < old(m).vars@.len(),
        ensures
            final(m).wf(),
            final(m).vars@.len() == old(m).vars@.len(),
            r ==> final(m).quiescent() && final(m).entailed_sound(),
            r ==> final(m).vars@[x as int].dom.max < final(m).vars@[y as int].dom.max,
            r ==> final(m).vars@[y as int].dom.min > final(m).vars@[x as int].dom.min,
            keeps_props(*old(m), *final(m)),
            final(m).vars_narrowed_from(*old(m)),
            lt_pair_appended(*old(m), *final(m), x, y, 0),
            r ==> final(m).props@.len() == old(m).props@.len() + 2,
            r ==> lt_halves_at(*final(m), old(m).props@.len() as int, x, y, 0),
            forall|asn: Seq<int>|
                #[trigger] old(m).in_doms(asn) && old(m).sat(asn) && (asn[x as int] < asn[y as int])
                    ==> final(m).in_doms(asn),
            (exists|asn: Seq<int>|
                #[trigger] old(m).in_doms(asn) && old(m).sat(asn) && (asn[x as int] < asn[y as int])) ==> r,
    {
        LtXYC::new(m, x, y, 0)
    }
}

impl LeXY {
    /// X =< Y, posted as `x < y + 1`.
    pub fn new(m: &mut Mod, x: usize, y: usize) -> (r: bool)
        requires
            old(m).wf(),
            old(m).quiescent(),
            old(m).entailed_sound(),
            x < old(m).vars@.len(),
            y < old(m).vars@.len(),
        ensures
            final(m).wf(),
            final(m).vars@.len() == old(m).vars@.len(),
            r ==> final(m).quiescent() && final(m).entailed_sound(),
            r ==> final(m).vars@[x as int].dom.max <= final(m).vars@[y as int].dom.max,
            r ==> final(m).vars@[y as int].dom.min >= final(m).vars@[x as int].dom.min,
            keeps_props(*old(m), *final(m)),
            r ==> lt_halves_at(*final(m), old(m).props@.len() as int, x, y, 1),
            final(m).vars_narrowed_from(*old(m)),
            lt_pair_appended(*old(m), *final(m), x, y, 1),
            r ==> final(m).props@.len() == old(m).props@.len() + 2,
            r ==> lt_halves_at(*final(m), old(m).props@.len() as int, x, y, 1),
            forall|asn: Seq<int>|
                #[trigger] old(m).in_doms(asn) && old(m).sat(asn) && (asn[x as int] <= asn[y as int])
                    ==> final(m).in_doms(asn),
            (exists|asn: Seq<int>|
                #[trigger] old(m).in_doms(asn) && old(m).sat(asn) && (asn[x as int] <= asn[y as int])) ==> r,
    {
        LtXYC::new(m, x, y, 1)
    }
}

impl LeXYC {
    /// X =< Y + C, posted as `x < y + (c + 1)`.
    pub fn new(m: &mut Mod, x: usize, y: usize, c: i64) -> (r: bool)
        requires
            old(m).wf(),
            old(m).quiescent(),
            old(m).entailed_sound(),
            x < old(m).vars@.len(),
            y < old(m).vars@.len(),
            c < i64::MAX,
        ensures
            final(m).wf(),
            final(m).vars@.len() == old(m).vars@.len(),
            r ==> final(m).quiescent() && final(m).entailed_sound(),
            r ==> final(m).vars@[x as int].dom.max as int <= final(m).vars@[y as int].dom.max + c,
            r ==> final(m).vars@[y as int].dom.min as int >= final(m).vars@[x as int].dom.min - c,
            keeps_props(*old(m), *final(m)),
            r ==> lt_halves_at(*final(m), old(m).props@.len() as int, x, y, (c + 1) as i64),
            final(m).vars_narrowed_from(*old(m)),
            lt_pair_appended(*old(m), *final(m), x, y, (c + 1) as i64),
            r ==> final(m).props@.len() == old(m).props@.len() + 2,
            r ==> lt_halves_at(*final(m), old(m).props@.len() as int, x, y, (c + 1) as i64),
            forall|asn: Seq<int>|
                #[trigger] old(m).in_doms(asn) && old(m).sat(asn) && (asn[x as int] <= asn[y as int] + c)
                    ==> final(m).in_doms(asn),
            (exists|asn: Seq<int>|
                #[trigger] old(m).in_doms(asn) && old(m).sat(asn) && (asn[x as int] <= asn[y as int] + c)) ==> r,
    {
        LtXYC::new(m, x, y, c + 1)
    }
}

impl GtXY {
    /// X > Y, posted as `y < x + 0`.
    pub fn new(m: &mut Mod, x: usize, y: usize) -> (r: bool)
        requires
            old(m).wf(),
            old(m).quiescent(),
            old(m).entailed_sound(),
            x < old(m).vars@.len(),
            y < old(m).vars@.len(),
        ensures
            final(m).wf(),
            final(m).vars@.len() == old(m).vars@.len(),
            r ==> final(m).quiescent() && final(m).entailed_sound(),
            r ==> final(m).vars@[y as int].dom.max < final(m).vars@[x as int].dom.max,
            r ==> final(m).vars@[x as int].dom.min > final(m).vars@[y as int].dom.min,
            keeps_props(*old(m), *final(m)),
            final(m).vars_narrowed_from(*old(m)),
            lt_pair_appended(*old(m), *final(m), y, x, 0),
            r ==> final(m).props@.len() == old(m).props@.len() + 2,
            r ==> lt_halves_at(*final(m), old(m).props@.len() as int, y, x, 0),
            forall|asn: Seq<int>|
                #[trigger] old(m).in_doms(asn) && old(m).sat(asn) && (asn[x as int] > asn[y as int])
                    ==> final(m).in_doms(asn),
            (exists|asn: Seq<int>|
                #[trigger] old(m).in_doms(asn) && old(m).sat(asn) && (asn[x as int] > asn[y as int])) ==> r,
    {
        LtXYC::new(m, y, x, 0)
    }
}

impl GtXYC {
    /// X > Y + C, posted as `y < x + (-c)`.
    pub fn new(m: &mut Mod, x: usize, y: usize, c: i64) -> (r: bool)
        requires
            old(m).wf(),
            old(m).quiescent(),
            old(m).entailed_sound(),
            x < old(m).vars@.len(),
            y < old(m).vars@.len(),
            c > i64::MIN,
        ensures
            final(m).wf(),
            final(m).vars@.len() == old(m).vars@.len(),
            r ==> final(m).quiescent() && final(m).entailed_sound(),
            r ==> final(m).vars@[y as int].dom.max as int <= final(m).vars@[x as int].dom.max - c
                - 1,
            r ==> final(m).vars@[x as int].dom.min as int >= final(m).vars@[y as int].dom.min + c
                + 1,
            keeps_props(*old(m), *final(m)),
            final(m).vars_narrowed_from(*old(m)),
            lt_pair_appended(*old(m), *final(m), y, x, (-c) as i64),
            r ==> final(m).props@.len() == old(m).props@.len() + 2,
            r ==> lt_halves_at(*final(m), old(m).props@.len() as int, y, x, (-c) as i64),
            forall|asn: Seq<int>|
                #[trigger] old(m).in_doms(asn) && old(m).sat(asn) && (asn[x as int] > asn[y as int] + c)
                    ==> final(m).in_doms(asn),
            (exists|asn: Seq<int>|
                #[trigger] old(m).in_doms(asn) && old(m).sat(asn) && (asn[x as int] > asn[y as int] + c)) ==> r,
    {
        LtXYC::new(m, y, x, -c)
    }
}

impl GeXY {
    /// X >= Y, posted as `y < x + 1`.
    pub fn new(m: &mut Mod, x: usize, y: usize) -> (r: bool)
        requires
            old(m).wf(),
            old(m).quiescent(),
            old(m).entailed_sound(),
            x < old(m).vars@.len(),
            y < old(m).vars@.len(),
        ensures
            final(m).wf(),
            final(m).vars@.len() == old(m).vars@.len(),
            r ==> final(m).quiescent() && final(m).entailed_sound(),
            r ==> final(m).vars@[y as int].dom.max <= final(m).vars@[x as int].dom.max,
            r ==> final(m).vars@[x as int].dom.min >= final(m).vars@[y as int].dom.min,
            keeps_props(*old(m), *final(m)),
            r ==> lt_halves_at(*final(m), old(m).props@.len() as int, y, x, 1),
            final(m).vars_narrowed_from(*old(m)),
            lt_pair_appended(*old(m), *final(m), y, x, 1),
            r ==> final(m).props@.len() == old(m).props@.len() + 2,
            r ==> lt_halves_at(*final(m), old(m).props@.len() as int, y, x, 1),
            forall|asn: Seq<int>|
                #[trigger] old(m).in_doms(asn) && old(m).sat(asn) && (asn[x as int] >= asn[y as int])
                    ==> final(m).in_doms(asn),
            (exists|asn: Seq<int>|
                #[trigger] old(m).in_doms(asn) && old(m).sat(asn) && (asn[x as int] >= asn[y as int])) ==> r,
    {
        LtXYC::new(m, y, x, 1)
    }
}

impl GeXYC {
    /// X >= Y + C, posted as `y < x + (1 - c)`.
    pub fn new(m: &mut Mod, x: usize, y: usize, c: i64) -> (r: bool)
        requires
            old(m).wf(),
            old(m).quiescent(),
            old(m).entailed_sound(),
            x < old(m).vars@.len(),
            y < old(m).vars@.len(),
            c > i64::MIN + 1,
        ensures
            final(m).wf(),
            final(m).vars@.len() == old(m).vars@.len(),
            r ==> final(m).quiescent() && final(m).entailed_sound(),
            r ==> final(m).vars@[y as int].dom.max as int <= final(m).vars@[x as int].dom.max - c,
            r ==> final(m).vars@[x as int].dom.min as int >= final(m).vars@[y as int].dom.min + c,
            keeps_props(*old(m), *final(m)),
            r ==> lt_halves_at(*final(m), old(m).props@.len() as int, y, x, (1 - c) as i64),
            final(m).vars_narrowed_from(*old(m)),
            lt_pair_appended(*old(m), *final(m), y, x, (1 - c) as i64),
            r ==> final(m).props@.len() == old(m).props@.len() + 2,
            r ==> lt_halves_at(*final(m), old(m).props@.len() as int, y, x, (1 - c) as i64),
            forall|asn: Seq<int>|
                #[trigger] old(m).in_doms(asn) && old(m).sat(asn) && (asn[x as int] >= asn[y as int] + c)
                    ==> final(m).in_doms(asn),
            (exists|asn: Seq<int>|
                #[trigger] old(m).in_doms(asn) && old(m).sat(asn) && (asn[x as int] >= asn[y as int] + c)) ==> r,
    {
        LtXYC::new(m, y, x, 1 - c)
    }
}

impl LtXC {
    /// X < C: a direct upper-bound tightening followed by a full
    /// propagation of its consequences.
    pub fn new(m: &mut Mod, x: usize, c: i64) -> (r: bool)
        requires
            old(m).wf(),
            old(m).quiescent(),
            old(m).entailed_sound(),
            x < old(m).vars@.len(),
        ensures
            final(m).wf(),
            final(m).vars@.len() == old(m).vars@.len(),
            r ==> final(m).quiescent() && final(m).entailed_sound(),
            r ==> (final(m).vars@[x as int].dom.max as int) < c,
            final(m).vars_narrowed_from(*old(m)),
            forall|asn: Seq<int>|
                #[trigger] old(m).in_doms(asn) && old(m).sat(asn) && asn[x as int] < c
                    ==> final(m).in_doms(asn),
            keeps_props(*old(m), *final(m)),
            final(m).props@.len() == old(m).props@.len(),
            (exists|asn: Seq<int>|
                #[trigger] old(m).in_doms(asn) && old(m).sat(asn) && asn[x as int] < c) ==> r,
    {
        tighten_max(m, x, (c as i128) - 1)
    }
}

impl LeXC {
    /// X =< C: a direct upper-bound tightening.
    pub fn new(m: &mut Mod, x: usize, c: i64) -> (r: bool)
        requires
            old(m).wf(),
            old(m).quiescent(),
            old(m).entailed_sound(),
            x < old(m).vars@.len(),
        ensures
            final(m).wf(),
            final(m).vars@.len() == old(m).vars@.len(),
            r ==> final(m).quiescent() && final(m).entailed_sound(),
            r ==> final(m).vars@[x as int].dom.max <= c,
            r && !old(m).vars@[x as int].dom.contains(c as int) ==> final(m).vars@[
                x as int].dom.max < c,
            final(m).vars_narrowed_from(*old(m)),
            forall|asn: Seq<int>|
                #[trigger] old(m).in_doms(asn) && old(m).sat(asn) && asn[x as int] <= c
                    ==> final(m).in_doms(asn),
            keeps_props(*old(m), *final(m)),
            final(m).props@.len() == old(m).props@.len(),
            (exists|asn: Seq<int>|
                #[trigger] old(m).in_doms(asn) && old(m).sat(asn) && asn[x as int] <= c) ==> r,
    {
        tighten_max(m, x, c as i128)
    }
}

impl GtXC {
    /// X > C: a direct lower-bound tightening.
    pub fn new(m: &mut Mod, x: usize, c: i64) -> (r: bool)
        requires
            old(m).wf(),
            old(m).quiescent(),
            old(m).entailed_sound(),
            x < old(m).vars@.len(),
        ensures
            final(m).wf(),
            final(m).vars@.len() == old(m).vars@.len(),
            r ==> final(m).quiescent() && final(m).entailed_sound(),
            r ==> (final(m).vars@[x as int].dom.min as int) > c,
            final(m).vars_narrowed_from(*old(m)),
            forall|asn: Seq<int>|
                #[trigger] old(m).in_doms(asn) && old(m).sat(asn) && asn[x as int] > c
                    ==> final(m).in_doms(asn),
            keeps_props(*old(m), *final(m)),
            final(m).props@.len() == old(m).props@.len(),
            (exists|asn: Seq<int>|
                #[trigger] old(m).in_doms(asn) && old(m).sat(asn) && asn[x as int] > c) ==> r,
    {
        tighten_min(m, x, (c as i128) + 1)
    }
}

impl GeXC {
    /// X >= C: a direct lower-bound tightening.
    pub fn new(m: &mut Mod, x: usize, c: i64) -> (r: bool)
        requires
            old(m).wf(),
            old(m).quiescent(),
            old(m).entailed_sound(),
            x < old(m).vars@.len(),
        ensures
            final(m).wf(),
            final(m).vars@.len() == old(m).vars@.len(),
            r ==> final(m).quiescent() && final(m).entailed_sound(),
            r ==> final(m).vars@[x as int].dom.min >= c,
            (c as int) > old(m).vars@[x as int].dom.max as int ==> !r,
            final(m).vars_narrowed_from(*old(m)),
            forall|asn: Seq<int>|
                #[trigger] old(m).in_doms(asn) && old(m).sat(asn) && asn[x as int] >= c
                    ==> final(m).in_doms(asn),
            keeps_props(*old(m), *final(m)),
            final(m).props@.len() == old(m).props@.len(),
            (exists|asn: Seq<int>|
                #[trigger] old(m).in_doms(asn) && old(m).sat(asn) && asn[x as int] >= c) ==> r,
    {
        tighten_min(m, x, c as i128)
    }
}

/// Lowers one upper bound and drains the resulting wake set.
pub(crate) fn tighten_max(m: &mut Mod, x: usize, v: i128) -> (r: bool)
    requires
        old(m).wf(),
        old(m).quiescent(),
        old(m).entailed_sound(),
        x < old(m).vars@.len(),
    ensures
        final(m).wf(),
        final(m).vars@.len() == old(m).vars@.len(),
        r ==> final(m).quiescent() && final(m).entailed_sound(),
        r ==> final(m).vars@[x as int].dom.max as int <= v,
        final(m).vars_narrowed_from(*old(m)),
        r && !old(m).vars@[x as int].dom.contains(v as int) ==> (final(m).vars@[x as int].dom.max as int)
            < v,
        keeps_props(*old(m), *final(m)),
        final(m).props@.len() == old(m).props@.len(),
        forall|asn: Seq<int>|
            #[trigger] old(m).in_doms(asn) && old(m).sat(asn) && asn[x as int] <= v
                ==> final(m).in_doms(asn),
        (exists|asn: Seq<int>|
            #[trigger] old(m).in_doms(asn) && old(m).sat(asn) && asn[x as int] <= v) ==> r,
{
    let ghost om = *old(m);
    proof {
        om.vars@[x as int].dom.lemma_bounds_contained();
    }
    let cur_max = m.vars[x].dom.get_max();
    if v >= cur_max as i128 {
        return true;
    }
    let (wake, ok) = m.set_max(x, v);
    if !ok {
        proof {
            // the cut failed, so every value of `x` lies above `v`:
            // no assignment below `v` was available to begin with
            if exists|asn: Seq<int>|
                #[trigger] om.in_doms(asn) && om.sat(asn) && asn[x as int] <= v {
                let asn = choose|asn: Seq<int>|
                    #[trigger] om.in_doms(asn) && om.sat(asn) && asn[x as int] <= v;
                assert(om.vars@[x as int].dom.contains(asn[x as int]));
                om.vars@[x as int].dom.lemma_contains_bounds(asn[x as int]);
                assert(false);
            }
        }
        return false;
    }
    let ghost m1 = *m;
    proof {
        crate::propagate::lemma_wake_covers(
            om.slot(x as int, Event::Max),
            om.slot(x as int, Event::Ins),
            wake@,
        );
        Mod::lemma_narrow_keeps_stability(om, m1, x as int, wake@);
        crate::propagate::lemma_wake_entries_valid(om, x as int, Event::Max, wake@);
        assert forall|q: int|
            0 <= q < m1.props@.len() && !m1.props@[q].entailed && !m1.prop_stable(q) implies
            wake@.contains(q as usize) by {
            assert(om.prop_stable(q));
        }
        assert forall|asn: Seq<int>|
            #[trigger] om.in_doms(asn) && om.sat(asn) && asn[x as int] <= v implies m1.in_doms(
            asn,
        ) && m1.sat(asn) by {
            Mod::lemma_sat_prefix(om, m1, asn);
        }
        if exists|asn: Seq<int>|
            #[trigger] om.in_doms(asn) && om.sat(asn) && asn[x as int] <= v {
            let asn = choose|asn: Seq<int>|
                #[trigger] om.in_doms(asn) && om.sat(asn) && asn[x as int] <= v;
            assert(m1.in_doms(asn) && m1.sat(asn));
        }
        assert(m1.vars_narrowed_from(om));
    }
    let r = m.propagate_vec(wake);
    proof {
        Mod::lemma_narrowed_trans(om, m1, *m);
    }
    r
}

/// Raises one lower bound and drains the resulting wake set.
pub(crate) fn tighten_min(m: &mut Mod, x: usize, v: i128) -> (r: bool)
    requires
        old(m).wf(),
        old(m).quiescent(),
        old(m).entailed_sound(),
        x < old(m).vars@.len(),
    ensures
        final(m).wf(),
        final(m).vars@.len() == old(m).vars@.len(),
        r ==> final(m).quiescent() && final(m).entailed_sound(),
        r ==> final(m).vars@[x as int].dom.min as int >= v,
        final(m).vars_narrowed_from(*old(m)),
        r && !old(m).vars@[x as int].dom.contains(v as int) ==> (final(m).vars@[x as int].dom.min as int)
            > v,
        v > old(m).vars@[x as int].dom.max as int ==> !r,
        keeps_props(*old(m), *final(m)),
        final(m).props@.len() == old(m).props@.len(),
        forall|asn: Seq<int>|
            #[trigger] old(m).in_doms(asn) && old(m).sat(asn) && asn[x as int] >= v
                ==> final(m).in_doms(asn),
        (exists|asn: Seq<int>|
            #[trigger] old(m).in_doms(asn) && old(m).sat(asn) && asn[x as int] >= v) ==> r,
{
    let ghost om = *old(m);
    proof {
        om.vars@[x as int].dom.lemma_bounds_contained();
    }
    let cur_min = m.vars[x].dom.get_min();
    if v <= cur_min as i128 {
        return true;
    }
    let (wake, ok) = m.set_min(x, v);
    if !ok {
        proof {
            // the cut failed, so every value of `x` lies below `v`:
            // no assignment above `v` was available to begin with
            if exists|asn: Seq<int>|
                #[trigger] om.in_doms(asn) && om.sat(asn) && asn[x as int] >= v {
                let asn = choose|asn: Seq<int>|
                    #[trigger] om.in_doms(asn) && om.sat(asn) && asn[x as int] >= v;
                assert(om.vars@[x as int].dom.contains(asn[x as int]));
                om.vars@[x as int].dom.lemma_contains_bounds(asn[x as int]);
                assert(false);
            }
        }
        return false;
    }
    let ghost m1 = *m;
    proof {
        crate::propagate::lemma_wake_covers(
            om.slot(x as int, Event::Min),
            om.slot(x as int, Event::Ins),
            wake@,
        );
        Mod::lemma_narrow_keeps_stability(om, m1, x as int, wake@);
        crate::propagate::lemma_wake_entries_valid(om, x as int, Event::Min, wake@);
        assert forall|q: int|
            0 <= q < m1.props@.len() && !m1.props@[q].entailed && !m1.prop_stable(q) implies
            wake@.contains(q as usize) by {
            assert(om.prop_stable(q));
        }
        assert forall|asn: Seq<int>|
            #[trigger] om.in_doms(asn) && om.sat(asn) && asn[x as int] >= v implies m1.in_doms(
            asn,
        ) && m1.sat(asn) by {
            Mod::lemma_sat_prefix(om, m1, asn);
        }
        if exists|asn: Seq<int>|
            #[trigger] om.in_doms(asn) && om.sat(asn) && asn[x as int] >= v {
            let asn = choose|asn: Seq<int>|
                #[trigger] om.in_doms(asn) && om.sat(asn) && asn[x as int] >= v;
            assert(m1.in_doms(asn) && m1.sat(asn));
        }
        assert(m1.vars_narrowed_from(om));
    }
    let r = m.propagate_vec(wake);
    proof {
        Mod::lemma_narrowed_trans(om, m1, *m);
    }
    r
}

} // verus!
