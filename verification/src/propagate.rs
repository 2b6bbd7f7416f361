//! Variable updates, wake sets, and the propagation fixed point.

use crate::Event;
use crate::FDVar;
use crate::Mod;
use crate::Prop;
use crate::PropKind;
use crate::watches;
use crate::enforces;
use crate::lemma_push_contains;
use vstd::prelude::*;

verus! {

/// The sum of the bound widths of all variables.  Every successful
/// bound tightening shrinks it strictly, which bounds the length of any
/// propagation run that does not fail.
pub open spec fn spans(vars: Seq<FDVar>) -> int
    decreases vars.len(),
{
    if vars.len() == 0 {
        0
    } else {
        spans(vars.drop_last()) + vars.last().dom.span()
    }
}

proof fn lemma_spans_nonneg(vars: Seq<FDVar>)
    requires
        forall|i: int| 0 <= i < vars.len() ==> (#[trigger] vars[i]).dom.wf(),
    ensures
        spans(vars) >= 0,
    decreases vars.len(),
{
    if vars.len() > 0 {
        lemma_spans_nonneg(vars.drop_last());
        vars.last().dom.lemma_bounds_contained();
    }
}

proof fn lemma_spans_update(vars: Seq<FDVar>, i: int, fv: FDVar)
    requires
        0 <= i < vars.len(),
    ensures
        spans(vars.update(i, fv)) == spans(vars) - vars[i].dom.span() + fv.dom.span(),
    decreases vars.len(),
{
    let n = vars.len() as int;
    if i == n - 1 {
        assert(vars.update(i, fv).drop_last() =~= vars.drop_last());
        assert(vars.update(i, fv).last() == fv);
    } else {
        assert(vars.update(i, fv).drop_last() =~= vars.drop_last().update(i, fv));
        assert(vars.update(i, fv).last() == vars.last());
        lemma_spans_update(vars.drop_last(), i, fv);
    }
}

/// Membership in the first half of a concatenation carries over.
proof fn lemma_concat_contains(a: Seq<usize>, b: Seq<usize>, q: usize)
    ensures
        a.contains(q) ==> (a + b).contains(q),
        b.contains(q) ==> (a + b).contains(q),
        (a + b).contains(q) ==> a.contains(q) || b.contains(q),
{
    if a.contains(q) {
        let i = choose|i: int| 0 <= i < a.len() && a[i] == q;
        assert((a + b)[i] == q);
    }
    if b.contains(q) {
        let i = choose|i: int| 0 <= i < b.len() && b[i] == q;
        assert((a + b)[a.len() + i] == q);
    }
    if (a + b).contains(q) {
        let i = choose|i: int| 0 <= i < (a + b).len() && (a + b)[i] == q;
        if i < a.len() {
            assert(a[i] == q);
        } else {
            assert(b[i - a.len()] == q);
        }
    }
}

/// The wake set a narrowing returns covers its leading slot, and the
/// trailing slot too when both were taken.
pub(crate) proof fn lemma_wake_covers(a: Seq<usize>, b: Seq<usize>, wake: Seq<usize>)
    requires
        wake == a || wake == a + b,
    ensures
        forall|q: usize| a.contains(q) ==> #[trigger] wake.contains(q),
        wake == a + b ==> (forall|q: usize| b.contains(q) ==> #[trigger] wake.contains(q)),
{
    assert forall|q: usize| a.contains(q) implies #[trigger] wake.contains(q) by {
        if wake == a + b {
            lemma_concat_contains(a, b, q);
        }
    }
    if wake == a + b {
        assert forall|q: usize| b.contains(q) implies #[trigger] wake.contains(q) by {
            lemma_concat_contains(a, b, q);
        }
    }
}

/// All variables exactly as they were.
pub open spec fn vars_unchanged(om: Mod, nm: Mod) -> bool {
    &&& nm.vars@.len() == om.vars@.len()
    &&& (forall|j: int| 0 <= j < om.vars@.len() ==> #[trigger] nm.vars@[j] == om.vars@[j])
}

/// No propagator other than `pid` gained or lost a subscription.
pub open spec fn other_subs_unchanged(om: Mod, nm: Mod, pid: int) -> bool {
    forall|q: usize, v: int, e: Event|
        q as int != pid && 0 <= v < om.vars@.len() ==> ((#[trigger] nm.slot(v, e).contains(q))
            <==> om.slot(v, e).contains(q))
}

/// One run of the x-half of `x < y + c`, arm by arm: an already
/// retired propagator does nothing; on entailment it retires and
/// touches no domain; when `x.max` exceeds `y.max + c - 1` it clamps
/// it to exactly that value and wakes exactly x's Max subscribers
/// (plus its Ins subscribers if `x` just became instantiated), failing
/// exactly when the clamp would empty `x`; otherwise it does nothing.
pub open spec fn ltx_step_spec(om: Mod, nm: Mod, pid: int, wake: Seq<usize>, ok: bool) -> bool {
    let p = om.props@[pid];
    let odx = om.vars@[p.x as int].dom;
    let ody = om.vars@[p.y as int].dom;
    let ndx = nm.vars@[p.x as int].dom;
    let t = ody.max + p.c - 1;
    if p.entailed {
        vars_unchanged(om, nm) && nm.waiting == om.waiting && wake.len() == 0 && ok
    } else if odx.max < ody.min + p.c {
        &&& vars_unchanged(om, nm)
        &&& nm.props@[pid].entailed
        &&& other_subs_unchanged(om, nm, pid)
        &&& wake.len() == 0
        &&& ok
    } else if odx.max > t {
        if t >= odx.min {
            &&& ok
            &&& nm.props@[pid] == p
            &&& nm.waiting == om.waiting
            &&& (forall|j: int|
                0 <= j < om.vars@.len() && j != p.x ==> #[trigger] nm.vars@[j] == om.vars@[j])
            &&& (forall|val: int| ndx.contains(val) <==> (odx.contains(val) && val <= t))
            &&& ndx.max <= t
            &&& wake == (if ndx.min == ndx.max {
                om.slot(p.x as int, Event::Max) + om.slot(p.x as int, Event::Ins)
            } else {
                om.slot(p.x as int, Event::Max)
            })
        } else {
            &&& !ok
            &&& vars_unchanged(om, nm)
            &&& nm.props@[pid] == p
            &&& nm.waiting == om.waiting
            &&& wake.len() == 0
        }
    } else {
        &&& vars_unchanged(om, nm)
        &&& nm.props@[pid] == p
        &&& nm.waiting == om.waiting
        &&& wake.len() == 0
        &&& ok
    }
}

/// One run of the y-half of `x < y + c`: the mirror image of
/// [`ltx_step_spec`], raising `y.min` to exactly `x.min - c + 1` and
/// waking y's Min (and on instantiation Ins) subscribers.
pub open spec fn lty_step_spec(om: Mod, nm: Mod, pid: int, wake: Seq<usize>, ok: bool) -> bool {
    let p = om.props@[pid];
    let odx = om.vars@[p.x as int].dom;
    let ody = om.vars@[p.y as int].dom;
    let ndy = nm.vars@[p.y as int].dom;
    let t = odx.min - p.c + 1;
    if p.entailed {
        vars_unchanged(om, nm) && nm.waiting == om.waiting && wake.len() == 0 && ok
    } else if odx.max < ody.min + p.c {
        &&& vars_unchanged(om, nm)
        &&& nm.props@[pid].entailed
        &&& other_subs_unchanged(om, nm, pid)
        &&& wake.len() == 0
        &&& ok
    } else if ody.min < t {
        if t <= ody.max {
            &&& ok
            &&& nm.props@[pid] == p
            &&& nm.waiting == om.waiting
            &&& (forall|j: int|
                0 <= j < om.vars@.len() && j != p.y ==> #[trigger] nm.vars@[j] == om.vars@[j])
            &&& (forall|val: int| ndy.contains(val) <==> (ody.contains(val) && val >= t))
            &&& ndy.min >= t
            &&& wake == (if ndy.min == ndy.max {
                om.slot(p.y as int, Event::Min) + om.slot(p.y as int, Event::Ins)
            } else {
                om.slot(p.y as int, Event::Min)
            })
        } else {
            &&& !ok
            &&& vars_unchanged(om, nm)
            &&& nm.props@[pid] == p
            &&& nm.waiting == om.waiting
            &&& wake.len() == 0
        }
    } else {
        &&& vars_unchanged(om, nm)
        &&& nm.props@[pid] == p
        &&& nm.waiting == om.waiting
        &&& wake.len() == 0
        &&& ok
    }
}

/// What striking `v` from variable `w` returns: the wake set of the
/// bound event it raised, or nothing for an interior hole.  The lists
/// are read as they stand after the striking propagator retired, so
/// the retired one never wakes itself.
pub open spec fn strike_wake_spec(om: Mod, nm: Mod, w: int, v: int, wake: Seq<usize>) -> bool {
    let od = om.vars@[w].dom;
    let nd = nm.vars@[w].dom;
    if v == od.min && v < od.max {
        wake == (if nd.min == nd.max {
            nm.slot(w, Event::Min) + nm.slot(w, Event::Ins)
        } else {
            nm.slot(w, Event::Min)
        })
    } else if v == od.max && v > od.min {
        wake == (if nd.min == nd.max {
            nm.slot(w, Event::Max) + nm.slot(w, Event::Ins)
        } else {
            nm.slot(w, Event::Max)
        })
    } else {
        wake.len() == 0
    }
}

/// One run of the disequality `x != y + c`: an already retired
/// propagator does nothing; once either side is fixed it retires and
/// strikes the matching value from the other side, failing exactly
/// when that value is the other side's last; with neither side fixed
/// it does nothing.
pub open spec fn neq_step_spec(om: Mod, nm: Mod, pid: int, wake: Seq<usize>, ok: bool) -> bool {
    let p = om.props@[pid];
    let odx = om.vars@[p.x as int].dom;
    let ody = om.vars@[p.y as int].dom;
    let ndx = nm.vars@[p.x as int].dom;
    let ndy = nm.vars@[p.y as int].dom;
    if p.entailed {
        vars_unchanged(om, nm) && nm.waiting == om.waiting && wake.len() == 0 && ok
    } else if odx.min == odx.max {
        let v = odx.min - p.c;
        &&& nm.props@[pid].entailed
        &&& other_subs_unchanged(om, nm, pid)
        &&& (forall|j: int|
            0 <= j < om.vars@.len() && j != p.y ==> #[trigger] nm.vars@[j] == om.vars@[j])
        &&& if v == ody.min && v == ody.max {
            &&& !ok
            &&& vars_unchanged(om, nm)
            &&& wake.len() == 0
        } else {
            &&& ok
            &&& (forall|val: int| ndy.contains(val) <==> (ody.contains(val) && val != v))
            &&& strike_wake_spec(om, nm, p.y as int, v, wake)
        }
    } else if ody.min == ody.max {
        let v = ody.min + p.c;
        &&& nm.props@[pid].entailed
        &&& other_subs_unchanged(om, nm, pid)
        &&& (forall|j: int|
            0 <= j < om.vars@.len() && j != p.x ==> #[trigger] nm.vars@[j] == om.vars@[j])
        &&& if v == odx.min && v == odx.max {
            &&& !ok
            &&& vars_unchanged(om, nm)
            &&& wake.len() == 0
        } else {
            &&& ok
            &&& (forall|val: int| ndx.contains(val) <==> (odx.contains(val) && val != v))
            &&& strike_wake_spec(om, nm, p.x as int, v, wake)
        }
    } else {
        &&& vars_unchanged(om, nm)
        &&& nm.props@[pid] == p
        &&& nm.waiting == om.waiting
        &&& wake.len() == 0
        &&& ok
    }
}

/// Every entry of a wake set drawn from one variable's subscription
/// lists names a propagator.
pub(crate) proof fn lemma_wake_entries_valid(m: Mod, w: int, bound_e: Event, wake: Seq<usize>)
    requires
        m.wf(),
        0 <= w < m.vars@.len(),
        wake == m.slot(w, bound_e) || wake == m.slot(w, bound_e) + m.slot(w, Event::Ins),
    ensures
        forall|k: int| 0 <= k < wake.len() ==> ((#[trigger] wake[k]) as int) < m.props@.len(),
{
    m.lemma_slot_entries_valid(w, bound_e);
    m.lemma_slot_entries_valid(w, Event::Ins);
    assert forall|k: int| 0 <= k < wake.len() implies ((#[trigger] wake[k]) as int)
        < m.props@.len() by {
        let a = m.slot(w, bound_e);
        let b = m.slot(w, Event::Ins);
        if wake == a + b {
            assert(wake[k] == (a + b)[k]);
            if k < a.len() {
                assert((a + b)[k] == a[k]);
            } else {
                assert((a + b)[k] == b[k - a.len()]);
            }
        }
    }
}

impl Mod {
    /// The same model with one variable's domain narrowed.
    pub open spec fn narrowed_from(self, om: Mod, w: int) -> bool {
        &&& self.props == om.props
        &&& self.waiting == om.waiting
        &&& self.vars@.len() == om.vars@.len()
        &&& (forall|j: int| 0 <= j < om.vars@.len() && j != w ==> self.vars@[j] == om.vars@[j])
        &&& self.vars@[w].id == om.vars@[w].id
        &&& self.vars@[w].name == om.vars@[w].name
        &&& self.vars@[w].dom.wf()
        &&& (forall|val: int|
            self.vars@[w].dom.contains(val) ==> #[trigger] om.vars@[w].dom.contains(val))
        &&& self.vars@[w].dom.min >= om.vars@[w].dom.min
        &&& self.vars@[w].dom.max <= om.vars@[w].dom.max
    }

    /// Narrowing one variable and waking every propagator subscribed to
    /// the events that fired keeps all other live propagators stable:
    /// a stable propagator can only be unsettled by an event it watches.
    pub(crate) proof fn lemma_narrow_keeps_stability(om: Mod, mm: Mod, w: int, woken: Seq<usize>)
        requires
            om.wf(),
            0 <= w < om.vars@.len(),
            mm.narrowed_from(om, w),
            mm.vars@[w].dom.min != om.vars@[w].dom.min ==> (forall|q: usize|
                om.slot(w, Event::Min).contains(q) ==> #[trigger] woken.contains(q)),
            mm.vars@[w].dom.max != om.vars@[w].dom.max ==> (forall|q: usize|
                om.slot(w, Event::Max).contains(q) ==> #[trigger] woken.contains(q)),
            (mm.vars@[w].dom.min == mm.vars@[w].dom.max && om.vars@[w].dom.min != om.vars@[
                w].dom.max) ==> (forall|q: usize|
                om.slot(w, Event::Ins).contains(q) ==> #[trigger] woken.contains(q)),
        ensures
            forall|q: int|
                0 <= q < om.props@.len() && !om.props@[q].entailed && om.prop_stable(q)
                    && !woken.contains(q as usize) ==> #[trigger] mm.prop_stable(q),
    {
        let od = om.vars@[w].dom;
        let nd = mm.vars@[w].dom;
        od.lemma_bounds_contained();
        nd.lemma_bounds_contained();
        // an instantiated variable can never change again
        assert(od.min == od.max ==> nd == od || (nd.min == od.min && nd.max == od.max));
        assert forall|q: int|
            0 <= q < om.props@.len() && !om.props@[q].entailed && om.prop_stable(q)
                && !woken.contains(q as usize) implies #[trigger] mm.prop_stable(q) by {
            let p = om.props@[q];
            assert(om.link_wf(q));
            let odx = om.vars@[p.x as int].dom;
            let ody = om.vars@[p.y as int].dom;
            let ndx = mm.vars@[p.x as int].dom;
            let ndy = mm.vars@[p.y as int].dom;
            match p.kind {
                PropKind::LtXYCx => {
                    // breaks only when y's maximum falls, a Max event
                    if p.y == w && ndy.max != ody.max {
                        assert(watches(p, w, Event::Max));
                        assert(om.slot(w, Event::Max).contains(q as usize));
                        assert(false);
                    }
                },
                PropKind::LtXYCy => {
                    // breaks only when x's minimum rises, a Min event
                    if p.x == w && ndx.min != odx.min {
                        assert(watches(p, w, Event::Min));
                        assert(om.slot(w, Event::Min).contains(q as usize));
                        assert(false);
                    }
                },
                PropKind::NeqXYCxy => {
                    // breaks only when one side becomes instantiated,
                    // an Ins event; shrinking domains preserve the rest
                    if ndx.min == ndx.max {
                        if !(odx.min == odx.max) {
                            assert(p.x == w);
                            assert(watches(p, w, Event::Ins));
                            assert(om.slot(w, Event::Ins).contains(q as usize));
                            assert(false);
                        }
                        assert(ndx.min == odx.min);
                        assert(!ody.contains(odx.min - p.c));
                        assert(!ndy.contains(ndx.min - p.c));
                    }
                    if !(ndx.min == ndx.max) && ndy.min == ndy.max {
                        assert(!(odx.min == odx.max));
                        if !(ody.min == ody.max) {
                            assert(p.y == w);
                            assert(watches(p, w, Event::Ins));
                            assert(om.slot(w, Event::Ins).contains(q as usize));
                            assert(false);
                        }
                        assert(ndy.min == ody.min);
                        assert(!odx.contains(ody.min + p.c));
                        assert(!ndx.contains(ndy.min + p.c));
                    }
                },
            }
        }
    }

    /// A rightly retired propagator stays rightly retired when a
    /// domain is narrowed: entailment only ever strengthens.
    pub(crate) proof fn lemma_narrow_keeps_resolved(om: Mod, mm: Mod, w: int)
        requires
            om.base_wf(),
            0 <= w < om.vars@.len(),
            mm.narrowed_from(om, w),
        ensures
            forall|q: int|
                0 <= q < om.props@.len() && om.prop_resolved(q) ==> #[trigger] mm.prop_resolved(
                    q,
                ),
    {
        let od = om.vars@[w].dom;
        let nd = mm.vars@[w].dom;
        od.lemma_bounds_contained();
        nd.lemma_bounds_contained();
        assert(od.min == od.max ==> nd.min == od.min && nd.max == od.max);
        assert forall|q: int|
            0 <= q < om.props@.len() && om.prop_resolved(q) implies #[trigger] mm.prop_resolved(
            q,
        ) by {
            let p = om.props@[q];
            let odx = om.vars@[p.x as int].dom;
            let ody = om.vars@[p.y as int].dom;
            let ndx = mm.vars@[p.x as int].dom;
            let ndy = mm.vars@[p.y as int].dom;
            match p.kind {
                PropKind::LtXYCx => {
                    assert(ndx.max <= odx.max && ndy.min >= ody.min);
                },
                PropKind::LtXYCy => {
                    assert(ndx.max <= odx.max && ndy.min >= ody.min);
                },
                PropKind::NeqXYCxy => {
                    if odx.min == odx.max && !ody.contains(odx.min - p.c) {
                        assert(ndx.min == odx.min && ndx.max == odx.max);
                        assert(!ndy.contains(ndx.min - p.c));
                    } else {
                        assert(ndy.min == ody.min && ndy.max == ody.max);
                        assert(!ndx.contains(ndy.min + p.c));
                    }
                },
            }
        }
    }

    /// Raises the lower bound of variable `x` to `v` and collects the
    /// wake set.  A request at or below the current minimum does
    /// nothing; one above the current maximum is an inconsistency and
    /// reports failure with the model unchanged; otherwise the domain is
    /// narrowed and the `Min` subscribers are woken, together with the
    /// `Ins` subscribers when the variable just became instantiated.
    pub fn set_min(&mut self, x: usize, v: i128) -> (r: (Vec<usize>, bool))
        requires
            old(self).wf(),
            x < old(self).vars@.len(),
        ensures
            final(self).wf(),
            final(self).narrowed_from(*old(self), x as int),
            forall|asn: Seq<int>|
                #[trigger] old(self).in_doms(asn) && asn[x as int] >= v ==> final(self).in_doms(
                    asn,
                ),
            v <= old(self).vars@[x as int].dom.min as int ==> (*final(self) == *old(self) && r.0@
                =~= Seq::<usize>::empty() && r.1),
            (old(self).vars@[x as int].dom.min as int) < v && v > (old(self).vars@[
                x as int].dom.max as int) ==> (*final(self) == *old(self) && r.0@ =~= Seq::<
                usize,
            >::empty() && !r.1),
            (old(self).vars@[x as int].dom.min as int) < v <= (old(self).vars@[
                x as int].dom.max as int) ==> ({
                let od = old(self).vars@[x as int].dom;
                let nd = final(self).vars@[x as int].dom;
                &&& r.1
                &&& nd.max == od.max
                &&& (nd.min as int) >= v
                &&& nd.min > od.min
                &&& (od.contains(v as int) ==> nd.min as int == v)
                &&& (forall|val: int| nd.contains(val) <==> (od.contains(val) && val >= v as int))
                &&& r.0@ == if nd.min == nd.max {
                    old(self).slot(x as int, Event::Min) + old(self).slot(x as int, Event::Ins)
                } else {
                    old(self).slot(x as int, Event::Min)
                }
            }),
    {
        let cur_min = self.vars[x].dom.get_min();
        let cur_max = self.vars[x].dom.get_max();
        if v <= cur_min as i128 {
            return (Vec::new(), true);
        }
        if v > cur_max as i128 {
            return (Vec::new(), false);
        }
        let vi = v as i64;
        let xref = &mut self.vars[x];
        xref.dom.set_min(vi);
        let now_inst = self.vars[x].dom.get_min() == self.vars[x].dom.get_max();
        let mut wake = self.get_waiting(x, Event::Min);
        if now_inst {
            let mut extra = self.get_waiting(x, Event::Ins);
            wake.append(&mut extra);
        }
        proof {
            let om = *old(self);
            let mm = *self;
            assert(mm.vars@[x as int].dom.min as int >= v);
            crate::lemma_wf_after_dom_update(om, mm, x as int);
        }
        (wake, true)
    }

    /// Lowers the upper bound of variable `x` to `v`; the mirror image
    /// of [`Mod::set_min`], waking the `Max` subscribers.
    pub fn set_max(&mut self, x: usize, v: i128) -> (r: (Vec<usize>, bool))
        requires
            old(self).wf(),
            x < old(self).vars@.len(),
        ensures
            final(self).wf(),
            final(self).narrowed_from(*old(self), x as int),
            forall|asn: Seq<int>|
                #[trigger] old(self).in_doms(asn) && asn[x as int] <= v ==> final(self).in_doms(
                    asn,
                ),
            v >= old(self).vars@[x as int].dom.max as int ==> (*final(self) == *old(self) && r.0@
                =~= Seq::<usize>::empty() && r.1),
            (old(self).vars@[x as int].dom.max as int) > v && v < (old(self).vars@[
                x as int].dom.min as int) ==> (*final(self) == *old(self) && r.0@ =~= Seq::<
                usize,
            >::empty() && !r.1),
            (old(self).vars@[x as int].dom.min as int) <= v < (old(self).vars@[
                x as int].dom.max as int) ==> ({
                let od = old(self).vars@[x as int].dom;
                let nd = final(self).vars@[x as int].dom;
                &&& r.1
                &&& nd.min == od.min
                &&& (nd.max as int) <= v
                &&& nd.max < od.max
                &&& (od.contains(v as int) ==> nd.max as int == v)
                &&& (forall|val: int| nd.contains(val) <==> (od.contains(val) && val <= v as int))
                &&& r.0@ == if nd.min == nd.max {
                    old(self).slot(x as int, Event::Max) + old(self).slot(x as int, Event::Ins)
                } else {
                    old(self).slot(x as int, Event::Max)
                }
            }),
    {
        let cur_min = self.vars[x].dom.get_min();
        let cur_max = self.vars[x].dom.get_max();
        if v >= cur_max as i128 {
            return (Vec::new(), true);
        }
        if v < cur_min as i128 {
            return (Vec::new(), false);
        }
        let vi = v as i64;
        let xref = &mut self.vars[x];
        xref.dom.set_max(vi);
        let now_inst = self.vars[x].dom.get_min() == self.vars[x].dom.get_max();
        let mut wake = self.get_waiting(x, Event::Max);
        if now_inst {
            let mut extra = self.get_waiting(x, Event::Ins);
            wake.append(&mut extra);
        }
        proof {
            let om = *old(self);
            let mm = *self;
            assert(mm.vars@[x as int].dom.max as int <= v);
            crate::lemma_wf_after_dom_update(om, mm, x as int);
        }
        (wake, true)
    }

    /// Strikes the single value `v` from variable `x`.  A value at a
    /// bound delegates to the bound tightenings, so their events fire;
    /// an interior value only punches a hole, which no propagator
    /// observes; removing the last remaining value is an inconsistency
    /// and reports failure with the model unchanged.
    pub fn remove(&mut self, x: usize, v: i128) -> (r: (Vec<usize>, bool))
        requires
            old(self).wf(),
            x < old(self).vars@.len(),
        ensures
            final(self).wf(),
            final(self).narrowed_from(*old(self), x as int),
            forall|asn: Seq<int>|
                #[trigger] old(self).in_doms(asn) && asn[x as int] != v ==> final(self).in_doms(
                    asn,
                ),
            v < (old(self).vars@[x as int].dom.min as int) || v > (old(self).vars@[
                x as int].dom.max as int) ==> (*final(self) == *old(self) && r.0@ =~= Seq::<
                usize,
            >::empty() && r.1),
            old(self).vars@[x as int].dom.min as int == v && old(self).vars@[
                x as int].dom.max as int == v ==> (*final(self) == *old(self) && r.0@ =~= Seq::<
                usize,
            >::empty() && !r.1),
            old(self).vars@[x as int].dom.min as int == v && v < (old(self).vars@[
                x as int].dom.max as int) ==> ({
                let od = old(self).vars@[x as int].dom;
                let nd = final(self).vars@[x as int].dom;
                &&& r.1
                &&& nd.max == od.max
                &&& nd.min > od.min
                &&& (forall|val: int| nd.contains(val) <==> (od.contains(val) && val != v as int))
                &&& r.0@ == if nd.min == nd.max {
                    old(self).slot(x as int, Event::Min) + old(self).slot(x as int, Event::Ins)
                } else {
                    old(self).slot(x as int, Event::Min)
                }
            }),
            old(self).vars@[x as int].dom.max as int == v && v > (old(self).vars@[
                x as int].dom.min as int) ==> ({
                let od = old(self).vars@[x as int].dom;
                let nd = final(self).vars@[x as int].dom;
                &&& r.1
                &&& nd.min == od.min
                &&& nd.max < od.max
                &&& (forall|val: int| nd.contains(val) <==> (od.contains(val) && val != v as int))
                &&& r.0@ == if nd.min == nd.max {
                    old(self).slot(x as int, Event::Max) + old(self).slot(x as int, Event::Ins)
                } else {
                    old(self).slot(x as int, Event::Max)
                }
            }),
            (old(self).vars@[x as int].dom.min as int) < v < (old(self).vars@[
                x as int].dom.max as int) ==> ({
                let od = old(self).vars@[x as int].dom;
                let nd = final(self).vars@[x as int].dom;
                &&& r.1
                &&& nd.min == od.min
                &&& nd.max == od.max
                &&& (forall|val: int| nd.contains(val) <==> (od.contains(val) && val != v as int))
                &&& r.0@ =~= Seq::<usize>::empty()
            }),
            !old(self).vars@[x as int].dom.contains(v as int) ==> (r.1 && r.0@ =~= Seq::<
                usize,
            >::empty() && (forall|j: int|
                0 <= j < old(self).vars@.len() ==> final(self).vars@[j] == old(self).vars@[j])),
    {
        let ghost od = old(self).vars@[x as int].dom;
        proof {
            od.lemma_bounds_contained();
        }
        let cur_min = self.vars[x].dom.get_min();
        let cur_max = self.vars[x].dom.get_max();
        if v < cur_min as i128 || v > cur_max as i128 {
            return (Vec::new(), true);
        }
        if v == cur_min as i128 {
            if cur_min == cur_max {
                // the domain holds only `v`; striking it would empty it
                return (Vec::new(), false);
            }
            let (wake, ok) = self.set_min(x, v + 1);
            proof {
                let nd = self.vars@[x as int].dom;
                assert forall|val: int| nd.contains(val) <==> (od.contains(val) && val
                    != v as int) by {
                    if od.contains(val) {
                        od.lemma_contains_bounds(val);
                    }
                }
            }
            return (wake, ok);
        }
        if v == cur_max as i128 {
            let (wake, ok) = self.set_max(x, v - 1);
            proof {
                let nd = self.vars@[x as int].dom;
                assert forall|val: int| nd.contains(val) <==> (od.contains(val) && val
                    != v as int) by {
                    if od.contains(val) {
                        od.lemma_contains_bounds(val);
                    }
                }
            }
            return (wake, ok);
        }
        let vi = v as i64;
        let xref = &mut self.vars[x];
        xref.dom.remove(vi);
        proof {
            crate::lemma_wf_after_dom_update(*old(self), *self, x as int);
        }
        (Vec::new(), true)
    }

    /// Every entry of a sound subscription list names a propagator.
    pub(crate) proof fn lemma_slot_entries_valid(self, v: int, e: Event)
        requires
            self.wf(),
            0 <= v < self.vars@.len(),
        ensures
            forall|k: int|
                0 <= k < self.slot(v, e).len() ==> ((#[trigger] self.slot(v, e)[k]) as int)
                    < self.props@.len(),
    {
        assert(self.slot_wf(v, e));
        assert forall|k: int| 0 <= k < self.slot(v, e).len() implies ((#[trigger] self.slot(
            v,
            e,
        )[k]) as int) < self.props@.len() by {
            assert(self.slot(v, e).contains(self.slot(v, e)[k]));
        }
    }

    /// The difference the one narrowed variable makes to the span sum.
    proof fn lemma_spans_narrow(om: Mod, mm: Mod, w: int)
        requires
            0 <= w < om.vars@.len(),
            mm.narrowed_from(om, w),
        ensures
            spans(mm.vars@) - spans(om.vars@) == mm.vars@[w].dom.span() - om.vars@[w].dom.span(),
    {
        assert(mm.vars@ =~= om.vars@.update(w, mm.vars@[w]));
        lemma_spans_update(om.vars@, w, mm.vars@[w]);
    }

    /// Runs one half of an ordering constraint `x < y + c`: the side
    /// that trims `x`'s upper bound when `y`'s maximum falls.
    #[verifier::rlimit(100)]
    fn step_ltxycx(&mut self, pid: usize) -> (r: (Vec<usize>, bool))
        requires
            old(self).wf(),
            old(self).entailed_sound(),
            pid < old(self).props@.len(),
            old(self).props@[pid as int].kind == PropKind::LtXYCx,
            !old(self).props@[pid as int].entailed,
        ensures
            final(self).wf(),
            final(self).vars@.len() == old(self).vars@.len(),
            final(self).props@.len() == old(self).props@.len(),
            forall|q: int|
                0 <= q < old(self).props@.len() ==> ({
                    let np = (#[trigger] final(self).props@[q]);
                    let op = old(self).props@[q];
                    &&& np.id == op.id
                    &&& np.kind == op.kind
                    &&& np.x == op.x
                    &&& np.y == op.y
                    &&& np.c == op.c
                    &&& (q != pid ==> np.entailed == op.entailed)
                    &&& (op.entailed ==> np.entailed)
                }),
            forall|j: int|
                0 <= j < old(self).vars@.len() ==> ({
                    let nv = (#[trigger] final(self).vars@[j]);
                    let ov = old(self).vars@[j];
                    &&& nv.id == ov.id
                    &&& nv.name == ov.name
                    &&& nv.dom.min >= ov.dom.min
                    &&& nv.dom.max <= ov.dom.max
                    &&& (forall|val: int| nv.dom.contains(val) ==> ov.dom.contains(val))
                }),
            forall|k: int|
                0 <= k < r.0@.len() ==> ((#[trigger] r.0@[k]) as int) < old(self).props@.len(),
            r.1 ==> spans(final(self).vars@) <= spans(old(self).vars@),
            r.1 && r.0@.len() > 0 ==> spans(final(self).vars@) < spans(old(self).vars@),
            r.1 ==> (final(self).prop_stable(pid as int) || r.0@.contains(pid)
                || final(self).props@[pid as int].entailed),
            r.1 ==> (forall|q: int|
                0 <= q < old(self).props@.len() && !old(self).props@[q].entailed
                    && old(self).prop_stable(q) && !r.0@.contains(q as usize)
                    ==> final(self).prop_stable(q)),
            r.1 ==> final(self).entailed_sound(),
            forall|asn: Seq<int>|
                #[trigger] old(self).in_doms(asn) && old(self).sat(asn) ==> final(self).in_doms(
                    asn,
                ),
            (exists|asn: Seq<int>|
                #[trigger] old(self).in_doms(asn) && old(self).sat(asn)) ==> r.1,
            ltx_step_spec(*old(self), *final(self), pid as int, r.0@, r.1),
            old(self).quiescent() ==> (r.1 && r.0@.len() == 0 && (forall|j: int|
                0 <= j < old(self).vars@.len() ==> final(self).vars@[j] == old(self).vars@[j])),
    {
        let p = self.props[pid];
        let ghost om = *old(self);
        let xmax = self.vars[p.x].dom.get_max() as i128;
        let ymin = self.vars[p.y].dom.get_min() as i128;
        let ymax = self.vars[p.y].dom.get_max() as i128;
        let c = p.c as i128;
        if xmax < ymin + c {
            // x < y + c already holds whatever remains: entailed
            proof {
                om.vars@[p.y as int].dom.lemma_bounds_contained();
            }
            self.unregister(pid);
            proof {
                assert(self.prop_stable(pid as int));
            }
            (Vec::new(), true)
        } else if xmax > ymax + c - 1 {
            let (wake, ok) = self.set_max(p.x, ymax + c - 1);
            proof {
                // a satisfying assignment stays inside the cut: its
                // x-value is below y's maximum plus the offset
                assert forall|asn: Seq<int>|
                    #[trigger] om.in_doms(asn) && om.sat(asn) implies self.in_doms(asn) by {
                    assert(om.vars@[p.y as int].dom.contains(asn[p.y as int]));
                    om.vars@[p.y as int].dom.lemma_contains_bounds(asn[p.y as int]);
                    assert(asn[p.x as int] < asn[p.y as int] + p.c);
                    assert(asn[p.x as int] <= ymax + c - 1);
                }
                // a failed cut would contradict any surviving solution
                if !ok && exists|asn: Seq<int>| #[trigger] om.in_doms(asn) && om.sat(asn) {
                    let asn = choose|asn: Seq<int>| #[trigger] om.in_doms(asn) && om.sat(asn);
                    assert(om.vars@[p.y as int].dom.contains(asn[p.y as int]));
                    om.vars@[p.y as int].dom.lemma_contains_bounds(asn[p.y as int]);
                    assert(om.vars@[p.x as int].dom.contains(asn[p.x as int]));
                    om.vars@[p.x as int].dom.lemma_contains_bounds(asn[p.x as int]);
                    assert(asn[p.x as int] < asn[p.y as int] + p.c);
                    assert(false);
                }
                if om.quiescent() {
                    assert(om.prop_stable(pid as int));
                    assert(false);
                }
                if ok {
                    let mm = *self;
                    let t = ymax + c - 1;
                    lemma_wake_covers(
                        om.slot(p.x as int, Event::Max),
                        om.slot(p.x as int, Event::Ins),
                        wake@,
                    );
                    Mod::lemma_narrow_keeps_stability(om, mm, p.x as int, wake@);
                    lemma_wake_entries_valid(om, p.x as int, Event::Max, wake@);
                    assert forall|q: usize| om.slot(p.x as int, Event::Max).contains(
                        q,
                    ) implies #[trigger] wake@.contains(q) by {
                        lemma_concat_contains(
                            om.slot(p.x as int, Event::Max),
                            om.slot(p.x as int, Event::Ins),
                            q,
                        );
                    }
                    Mod::lemma_spans_narrow(om, mm, p.x as int);
                    // the propagator itself is settled, unless it
                    // relates a variable to itself and was woken
                    if p.y != p.x {
                        assert(mm.vars@[p.y as int] == om.vars@[p.y as int]);
                        assert(mm.prop_stable(pid as int));
                    } else {
                        assert(om.link_wf(pid as int));
                        assert(watches(om.props@[pid as int], p.x as int, Event::Max));
                        assert(om.slot(p.x as int, Event::Max).contains(pid));
                        assert(wake@.contains(pid));
                    }
                }
            }
            (wake, ok)
        } else {
            proof {
                assert(self.prop_stable(pid as int));
            }
            (Vec::new(), true)
        }
    }

    /// Runs the other half of `x < y + c`: the side that raises `y`'s
    /// lower bound when `x`'s minimum rises.
    #[verifier::rlimit(100)]
    fn step_ltxycy(&mut self, pid: usize) -> (r: (Vec<usize>, bool))
        requires
            old(self).wf(),
            old(self).entailed_sound(),
            pid < old(self).props@.len(),
            old(self).props@[pid as int].kind == PropKind::LtXYCy,
            !old(self).props@[pid as int].entailed,
        ensures
            final(self).wf(),
            final(self).vars@.len() == old(self).vars@.len(),
            final(self).props@.len() == old(self).props@.len(),
            forall|q: int|
                0 <= q < old(self).props@.len() ==> ({
                    let np = (#[trigger] final(self).props@[q]);
                    let op = old(self).props@[q];
                    &&& np.id == op.id
                    &&& np.kind == op.kind
                    &&& np.x == op.x
                    &&& np.y == op.y
                    &&& np.c == op.c
                    &&& (q != pid ==> np.entailed == op.entailed)
                    &&& (op.entailed ==> np.entailed)
                }),
            forall|j: int|
                0 <= j < old(self).vars@.len() ==> ({
                    let nv = (#[trigger] final(self).vars@[j]);
                    let ov = old(self).vars@[j];
                    &&& nv.id == ov.id
                    &&& nv.name == ov.name
                    &&& nv.dom.min >= ov.dom.min
                    &&& nv.dom.max <= ov.dom.max
                    &&& (forall|val: int| nv.dom.contains(val) ==> ov.dom.contains(val))
                }),
            forall|k: int|
                0 <= k < r.0@.len() ==> ((#[trigger] r.0@[k]) as int) < old(self).props@.len(),
            r.1 ==> spans(final(self).vars@) <= spans(old(self).vars@),
            r.1 && r.0@.len() > 0 ==> spans(final(self).vars@) < spans(old(self).vars@),
            r.1 ==> (final(self).prop_stable(pid as int) || r.0@.contains(pid)
                || final(self).props@[pid as int].entailed),
            r.1 ==> (forall|q: int|
                0 <= q < old(self).props@.len() && !old(self).props@[q].entailed
                    && old(self).prop_stable(q) && !r.0@.contains(q as usize)
                    ==> final(self).prop_stable(q)),
            r.1 ==> final(self).entailed_sound(),
            forall|asn: Seq<int>|
                #[trigger] old(self).in_doms(asn) && old(self).sat(asn) ==> final(self).in_doms(
                    asn,
                ),
            (exists|asn: Seq<int>|
                #[trigger] old(self).in_doms(asn) && old(self).sat(asn)) ==> r.1,
            lty_step_spec(*old(self), *final(self), pid as int, r.0@, r.1),
            old(self).quiescent() ==> (r.1 && r.0@.len() == 0 && (forall|j: int|
                0 <= j < old(self).vars@.len() ==> final(self).vars@[j] == old(self).vars@[j])),
    {
        let p = self.props[pid];
        let ghost om = *old(self);
        let xmax = self.vars[p.x].dom.get_max() as i128;
        let xmin = self.vars[p.x].dom.get_min() as i128;
        let ymin = self.vars[p.y].dom.get_min() as i128;
        let c = p.c as i128;
        if xmax < ymin + c {
            proof {
                om.vars@[p.x as int].dom.lemma_bounds_contained();
                om.vars@[p.y as int].dom.lemma_bounds_contained();
            }
            self.unregister(pid);
            proof {
                assert(self.prop_stable(pid as int));
            }
            (Vec::new(), true)
        } else if ymin < xmin - c + 1 {
            let (wake, ok) = self.set_min(p.y, xmin - c + 1);
            proof {
                // a satisfying assignment stays inside the cut: its
                // y-value is above x's minimum minus the offset
                assert forall|asn: Seq<int>|
                    #[trigger] om.in_doms(asn) && om.sat(asn) implies self.in_doms(asn) by {
                    assert(om.vars@[p.x as int].dom.contains(asn[p.x as int]));
                    om.vars@[p.x as int].dom.lemma_contains_bounds(asn[p.x as int]);
                    assert(asn[p.x as int] < asn[p.y as int] + p.c);
                    assert(asn[p.y as int] >= xmin - c + 1);
                }
                // a failed cut would contradict any surviving solution
                if !ok && exists|asn: Seq<int>| #[trigger] om.in_doms(asn) && om.sat(asn) {
                    let asn = choose|asn: Seq<int>| #[trigger] om.in_doms(asn) && om.sat(asn);
                    assert(om.vars@[p.x as int].dom.contains(asn[p.x as int]));
                    om.vars@[p.x as int].dom.lemma_contains_bounds(asn[p.x as int]);
                    assert(om.vars@[p.y as int].dom.contains(asn[p.y as int]));
                    om.vars@[p.y as int].dom.lemma_contains_bounds(asn[p.y as int]);
                    assert(asn[p.x as int] < asn[p.y as int] + p.c);
                    assert(false);
                }
                if om.quiescent() {
                    assert(om.prop_stable(pid as int));
                    assert(false);
                }
                if ok {
                    let mm = *self;
                    lemma_wake_covers(
                        om.slot(p.y as int, Event::Min),
                        om.slot(p.y as int, Event::Ins),
                        wake@,
                    );
                    Mod::lemma_narrow_keeps_stability(om, mm, p.y as int, wake@);
                    lemma_wake_entries_valid(om, p.y as int, Event::Min, wake@);
                    assert forall|q: usize| om.slot(p.y as int, Event::Min).contains(
                        q,
                    ) implies #[trigger] wake@.contains(q) by {
                        lemma_concat_contains(
                            om.slot(p.y as int, Event::Min),
                            om.slot(p.y as int, Event::Ins),
                            q,
                        );
                    }
                    Mod::lemma_spans_narrow(om, mm, p.y as int);
                    if p.x != p.y {
                        assert(mm.vars@[p.x as int] == om.vars@[p.x as int]);
                        assert(mm.prop_stable(pid as int));
                    } else {
                        assert(om.link_wf(pid as int));
                        assert(watches(om.props@[pid as int], p.y as int, Event::Min));
                        assert(om.slot(p.y as int, Event::Min).contains(pid));
                        assert(wake@.contains(pid));
                    }
                }
            }
            (wake, ok)
        } else {
            proof {
                assert(self.prop_stable(pid as int));
            }
            (Vec::new(), true)
        }
    }

    /// Runs a disequality `x != y + c`: once either side is fixed, the
    /// matching value is struck from the other and the propagator is
    /// entailed for good.
    #[verifier::rlimit(100)]
    fn step_neqxycxy(&mut self, pid: usize) -> (r: (Vec<usize>, bool))
        requires
            old(self).wf(),
            old(self).entailed_sound(),
            pid < old(self).props@.len(),
            old(self).props@[pid as int].kind == PropKind::NeqXYCxy,
            !old(self).props@[pid as int].entailed,
        ensures
            final(self).wf(),
            final(self).vars@.len() == old(self).vars@.len(),
            final(self).props@.len() == old(self).props@.len(),
            forall|q: int|
                0 <= q < old(self).props@.len() ==> ({
                    let np = (#[trigger] final(self).props@[q]);
                    let op = old(self).props@[q];
                    &&& np.id == op.id
                    &&& np.kind == op.kind
                    &&& np.x == op.x
                    &&& np.y == op.y
                    &&& np.c == op.c
                    &&& (q != pid ==> np.entailed == op.entailed)
                    &&& (op.entailed ==> np.entailed)
                }),
            forall|j: int|
                0 <= j < old(self).vars@.len() ==> ({
                    let nv = (#[trigger] final(self).vars@[j]);
                    let ov = old(self).vars@[j];
                    &&& nv.id == ov.id
                    &&& nv.name == ov.name
                    &&& nv.dom.min >= ov.dom.min
                    &&& nv.dom.max <= ov.dom.max
                    &&& (forall|val: int| nv.dom.contains(val) ==> ov.dom.contains(val))
                }),
            forall|k: int|
                0 <= k < r.0@.len() ==> ((#[trigger] r.0@[k]) as int) < old(self).props@.len(),
            r.1 ==> spans(final(self).vars@) <= spans(old(self).vars@),
            r.1 && r.0@.len() > 0 ==> spans(final(self).vars@) < spans(old(self).vars@),
            r.1 ==> (final(self).prop_stable(pid as int) || r.0@.contains(pid)
                || final(self).props@[pid as int].entailed),
            r.1 ==> (forall|q: int|
                0 <= q < old(self).props@.len() && !old(self).props@[q].entailed
                    && old(self).prop_stable(q) && !r.0@.contains(q as usize)
                    ==> final(self).prop_stable(q)),
            r.1 ==> final(self).entailed_sound(),
            forall|asn: Seq<int>|
                #[trigger] old(self).in_doms(asn) && old(self).sat(asn) ==> final(self).in_doms(
                    asn,
                ),
            (exists|asn: Seq<int>|
                #[trigger] old(self).in_doms(asn) && old(self).sat(asn)) ==> r.1,
            neq_step_spec(*old(self), *final(self), pid as int, r.0@, r.1),
            old(self).quiescent() ==> (r.1 && r.0@.len() == 0 && (forall|j: int|
                0 <= j < old(self).vars@.len() ==> final(self).vars@[j] == old(self).vars@[j])),
    {
        let p = self.props[pid];
        let ghost om = *old(self);
        let xmin = self.vars[p.x].dom.get_min();
        let xmax = self.vars[p.x].dom.get_max();
        let ymin = self.vars[p.y].dom.get_min();
        let ymax = self.vars[p.y].dom.get_max();
        if xmin == xmax {
            // x is fixed: strike its value from y and retire
            self.unregister(pid);
            let ghost m1 = *self;
            let (wake, ok) = self.remove(p.y, xmin as i128 - p.c as i128);
            proof {
                let mm = *self;
                let v = xmin as i128 - p.c as i128;
                om.vars@[p.y as int].dom.lemma_bounds_contained();
                // the striking left every other subscription in place
                assert(self.waiting == m1.waiting);
                assert forall|v2: int, e: Event| 0 <= v2 < om.vars@.len() implies #[trigger] mm.slot(
                    v2,
                    e,
                ) == m1.slot(v2, e) by {}
                assert forall|q: usize, v2: int, e: Event|
                    q as int != pid as int && 0 <= v2 < om.vars@.len() implies ((
                #[trigger] mm.slot(v2, e).contains(q)) <==> om.slot(v2, e).contains(q)) by {
                    assert(mm.slot(v2, e) == m1.slot(v2, e));
                    assert(m1.slot(v2, e).contains(q) <==> om.slot(v2, e).contains(q));
                }
                // the struck value's characterization also holds when it
                // was not present at all
                if (v as int) < om.vars@[p.y as int].dom.min as int || (v as int)
                    > om.vars@[p.y as int].dom.max as int {
                    assert forall|val: int| self.vars@[p.y as int].dom.contains(val) <==> (
                    om.vars@[p.y as int].dom.contains(val) && val != v as int) by {
                        if om.vars@[p.y as int].dom.contains(v as int) {
                            om.vars@[p.y as int].dom.lemma_contains_bounds(v as int);
                        }
                    }
                }

                // a satisfying assignment never uses the struck value:
                // its x-value is the fixed one
                assert forall|asn: Seq<int>|
                    #[trigger] om.in_doms(asn) && om.sat(asn) implies mm.in_doms(asn) by {
                    assert(om.vars@[p.x as int].dom.contains(asn[p.x as int]));
                    om.vars@[p.x as int].dom.lemma_contains_bounds(asn[p.x as int]);
                    assert(asn[p.x as int] == xmin as int);
                    assert(asn[p.x as int] != asn[p.y as int] + p.c);
                    assert(m1.in_doms(asn));
                    assert(asn[p.y as int] != v as int);
                }
                // striking the last value would contradict any
                // surviving solution
                if !ok && exists|asn: Seq<int>| #[trigger] om.in_doms(asn) && om.sat(asn) {
                    let asn = choose|asn: Seq<int>| #[trigger] om.in_doms(asn) && om.sat(asn);
                    assert(om.vars@[p.x as int].dom.contains(asn[p.x as int]));
                    om.vars@[p.x as int].dom.lemma_contains_bounds(asn[p.x as int]);
                    assert(om.vars@[p.y as int].dom.contains(asn[p.y as int]));
                    om.vars@[p.y as int].dom.lemma_contains_bounds(asn[p.y as int]);
                    assert(asn[p.x as int] != asn[p.y as int] + p.c);
                    assert(false);
                }
                if om.quiescent() {
                    assert(om.prop_stable(pid as int));
                    assert(!om.vars@[p.y as int].dom.contains(v as int));
                }
                if ok {
                    let odw = m1.vars@[p.y as int].dom;
                    if v == odw.min as int && v < odw.max as int {
                        lemma_wake_covers(
                            m1.slot(p.y as int, Event::Min),
                            m1.slot(p.y as int, Event::Ins),
                            wake@,
                        );
                    } else if v == odw.max as int && v > odw.min as int {
                        lemma_wake_covers(
                            m1.slot(p.y as int, Event::Max),
                            m1.slot(p.y as int, Event::Ins),
                            wake@,
                        );
                    }
                    Mod::lemma_narrow_keeps_stability(m1, mm, p.y as int, wake@);
                    if v == odw.min as int && v < odw.max as int {
                        lemma_wake_entries_valid(m1, p.y as int, Event::Min, wake@);
                    } else if v == odw.max as int && v > odw.min as int {
                        lemma_wake_entries_valid(m1, p.y as int, Event::Max, wake@);
                    }
                    Mod::lemma_spans_narrow(m1, mm, p.y as int);
                    assert forall|q: int|
                        0 <= q < om.props@.len() && !om.props@[q].entailed
                            && om.prop_stable(q) && !wake@.contains(q as usize) && q
                            != pid implies mm.prop_stable(q) by {
                        assert(m1.prop_stable(q) == om.prop_stable(q));
                    }
                }
            }
            (wake, ok)
        } else if ymin == ymax {
            // y is fixed: strike the matching value from x
            self.unregister(pid);
            let ghost m1 = *self;
            let (wake, ok) = self.remove(p.x, ymin as i128 + p.c as i128);
            proof {
                let mm = *self;
                let v = ymin as i128 + p.c as i128;
                om.vars@[p.x as int].dom.lemma_bounds_contained();
                // the striking left every other subscription in place
                assert(self.waiting == m1.waiting);
                assert forall|v2: int, e: Event| 0 <= v2 < om.vars@.len() implies #[trigger] mm.slot(
                    v2,
                    e,
                ) == m1.slot(v2, e) by {}
                assert forall|q: usize, v2: int, e: Event|
                    q as int != pid as int && 0 <= v2 < om.vars@.len() implies ((
                #[trigger] mm.slot(v2, e).contains(q)) <==> om.slot(v2, e).contains(q)) by {
                    assert(mm.slot(v2, e) == m1.slot(v2, e));
                    assert(m1.slot(v2, e).contains(q) <==> om.slot(v2, e).contains(q));
                }
                // the struck value's characterization also holds when it
                // was not present at all
                if (v as int) < om.vars@[p.x as int].dom.min as int || (v as int)
                    > om.vars@[p.x as int].dom.max as int {
                    assert forall|val: int| self.vars@[p.x as int].dom.contains(val) <==> (
                    om.vars@[p.x as int].dom.contains(val) && val != v as int) by {
                        if om.vars@[p.x as int].dom.contains(v as int) {
                            om.vars@[p.x as int].dom.lemma_contains_bounds(v as int);
                        }
                    }
                }

                // a satisfying assignment never uses the struck value:
                // its y-value is the fixed one
                assert forall|asn: Seq<int>|
                    #[trigger] om.in_doms(asn) && om.sat(asn) implies mm.in_doms(asn) by {
                    assert(om.vars@[p.y as int].dom.contains(asn[p.y as int]));
                    om.vars@[p.y as int].dom.lemma_contains_bounds(asn[p.y as int]);
                    assert(asn[p.y as int] == ymin as int);
                    assert(asn[p.x as int] != asn[p.y as int] + p.c);
                    assert(m1.in_doms(asn));
                    assert(asn[p.x as int] != v as int);
                }
                // striking the last value would contradict any
                // surviving solution
                if !ok && exists|asn: Seq<int>| #[trigger] om.in_doms(asn) && om.sat(asn) {
                    let asn = choose|asn: Seq<int>| #[trigger] om.in_doms(asn) && om.sat(asn);
                    assert(om.vars@[p.y as int].dom.contains(asn[p.y as int]));
                    om.vars@[p.y as int].dom.lemma_contains_bounds(asn[p.y as int]);
                    assert(om.vars@[p.x as int].dom.contains(asn[p.x as int]));
                    om.vars@[p.x as int].dom.lemma_contains_bounds(asn[p.x as int]);
                    assert(asn[p.x as int] != asn[p.y as int] + p.c);
                    assert(false);
                }
                if om.quiescent() {
                    assert(om.prop_stable(pid as int));
                    assert(!om.vars@[p.x as int].dom.contains(v as int));
                }
                if ok {
                    let odw = m1.vars@[p.x as int].dom;
                    if v == odw.min as int && v < odw.max as int {
                        lemma_wake_covers(
                            m1.slot(p.x as int, Event::Min),
                            m1.slot(p.x as int, Event::Ins),
                            wake@,
                        );
                    } else if v == odw.max as int && v > odw.min as int {
                        lemma_wake_covers(
                            m1.slot(p.x as int, Event::Max),
                            m1.slot(p.x as int, Event::Ins),
                            wake@,
                        );
                    }
                    Mod::lemma_narrow_keeps_stability(m1, mm, p.x as int, wake@);
                    if v == odw.min as int && v < odw.max as int {
                        lemma_wake_entries_valid(m1, p.x as int, Event::Min, wake@);
                    } else if v == odw.max as int && v > odw.min as int {
                        lemma_wake_entries_valid(m1, p.x as int, Event::Max, wake@);
                    }
                    Mod::lemma_spans_narrow(m1, mm, p.x as int);
                    assert forall|q: int|
                        0 <= q < om.props@.len() && !om.props@[q].entailed
                            && om.prop_stable(q) && !wake@.contains(q as usize) && q
                            != pid implies mm.prop_stable(q) by {
                        assert(m1.prop_stable(q) == om.prop_stable(q));
                    }
                }
            }
            (wake, ok)
        } else {
            // neither side is fixed: nothing to do yet
            proof {
                assert(self.prop_stable(pid as int));
            }
            (Vec::new(), true)
        }
    }

    /// Runs the propagator `pid` once: it may detect entailment and
    /// retire itself, or narrow one bound of one variable, handing back
    /// the propagators subscribed to the events that fired.  The flag
    /// reports consistency: it is false exactly when a required
    /// tightening would have emptied a domain, in which case the model
    /// is left as it was and the caller abandons the propagation run.
    pub fn step(&mut self, pid: usize) -> (r: (Vec<usize>, bool))
        requires
            old(self).wf(),
            old(self).entailed_sound(),
            pid < old(self).props@.len(),
        ensures
            final(self).wf(),
            final(self).vars@.len() == old(self).vars@.len(),
            final(self).props@.len() == old(self).props@.len(),
            forall|q: int|
                0 <= q < old(self).props@.len() ==> ({
                    let np = (#[trigger] final(self).props@[q]);
                    let op = old(self).props@[q];
                    &&& np.id == op.id
                    &&& np.kind == op.kind
                    &&& np.x == op.x
                    &&& np.y == op.y
                    &&& np.c == op.c
                    &&& (q != pid ==> np.entailed == op.entailed)
                    &&& (op.entailed ==> np.entailed)
                }),
            forall|j: int|
                0 <= j < old(self).vars@.len() ==> ({
                    let nv = (#[trigger] final(self).vars@[j]);
                    let ov = old(self).vars@[j];
                    &&& nv.id == ov.id
                    &&& nv.name == ov.name
                    &&& nv.dom.min >= ov.dom.min
                    &&& nv.dom.max <= ov.dom.max
                    &&& (forall|val: int| nv.dom.contains(val) ==> ov.dom.contains(val))
                }),
            forall|k: int|
                0 <= k < r.0@.len() ==> ((#[trigger] r.0@[k]) as int) < old(self).props@.len(),
            r.1 ==> spans(final(self).vars@) <= spans(old(self).vars@),
            r.1 && r.0@.len() > 0 ==> spans(final(self).vars@) < spans(old(self).vars@),
            r.1 ==> (final(self).prop_stable(pid as int) || r.0@.contains(pid)
                || final(self).props@[pid as int].entailed),
            r.1 ==> (forall|q: int|
                0 <= q < old(self).props@.len() && !old(self).props@[q].entailed
                    && old(self).prop_stable(q) && !r.0@.contains(q as usize)
                    ==> final(self).prop_stable(q)),
            r.1 ==> final(self).entailed_sound(),
            forall|asn: Seq<int>|
                #[trigger] old(self).in_doms(asn) && old(self).sat(asn) ==> final(self).in_doms(
                    asn,
                ),
            (exists|asn: Seq<int>|
                #[trigger] old(self).in_doms(asn) && old(self).sat(asn)) ==> r.1,
            old(self).props@[pid as int].kind == PropKind::LtXYCx ==> ltx_step_spec(
                *old(self),
                *final(self),
                pid as int,
                r.0@,
                r.1,
            ),
            old(self).props@[pid as int].kind == PropKind::LtXYCy ==> lty_step_spec(
                *old(self),
                *final(self),
                pid as int,
                r.0@,
                r.1,
            ),
            old(self).props@[pid as int].kind == PropKind::NeqXYCxy ==> neq_step_spec(
                *old(self),
                *final(self),
                pid as int,
                r.0@,
                r.1,
            ),
            old(self).quiescent() ==> (r.1 && r.0@.len() == 0 && (forall|j: int|
                0 <= j < old(self).vars@.len() ==> final(self).vars@[j] == old(self).vars@[j])),
    {
        let p = self.props[pid];
        if p.entailed {
            // an already retired propagator has nothing left to do
            return (Vec::new(), true);
        }
        match p.kind {
            PropKind::LtXYCx => self.step_ltxycx(pid),
            PropKind::LtXYCy => self.step_ltxycy(pid),
            PropKind::NeqXYCxy => self.step_neqxycxy(pid),
        }
    }

    /// Drains a work list of propagators depth-first until none is
    /// left.  The list must hold every live propagator that still has
    /// work to do; on success that is true of nobody, so the model is
    /// at a fixed point.  A failed tightening abandons the run at once.
    #[verifier::rlimit(100)]
    fn drain(&mut self, init: Vec<usize>) -> (r: bool)
        requires
            old(self).wf(),
            old(self).entailed_sound(),
            forall|k: int|
                0 <= k < init@.len() ==> ((#[trigger] init@[k]) as int) < old(self).props@.len(),
            forall|q: int|
                0 <= q < old(self).props@.len() && !old(self).props@[q].entailed && !old(
                    self,
                ).prop_stable(q) ==> init@.contains(q as usize),
        ensures
            final(self).wf(),
            final(self).vars@.len() == old(self).vars@.len(),
            final(self).props@.len() == old(self).props@.len(),
            forall|q: int|
                0 <= q < old(self).props@.len() ==> ({
                    let np = (#[trigger] final(self).props@[q]);
                    let op = old(self).props@[q];
                    &&& np.id == op.id
                    &&& np.kind == op.kind
                    &&& np.x == op.x
                    &&& np.y == op.y
                    &&& np.c == op.c
                    &&& (op.entailed ==> np.entailed)
                }),
            forall|j: int|
                0 <= j < old(self).vars@.len() ==> ({
                    let nv = (#[trigger] final(self).vars@[j]);
                    let ov = old(self).vars@[j];
                    &&& nv.id == ov.id
                    &&& nv.name == ov.name
                    &&& nv.dom.min >= ov.dom.min
                    &&& nv.dom.max <= ov.dom.max
                    &&& (forall|val: int| nv.dom.contains(val) ==> ov.dom.contains(val))
                }),
            r ==> final(self).quiescent(),
            r ==> final(self).entailed_sound(),
            forall|asn: Seq<int>|
                #[trigger] old(self).in_doms(asn) && old(self).sat(asn) ==> final(self).in_doms(
                    asn,
                ),
            (exists|asn: Seq<int>|
                #[trigger] old(self).in_doms(asn) && old(self).sat(asn)) ==> r,
            old(self).quiescent() ==> (r && (forall|j: int|
                0 <= j < old(self).vars@.len() ==> final(self).vars@[j] == old(self).vars@[j])),
    {
        let ghost om = *old(self);
        let mut stack = init;
        loop
            invariant
                om == *old(self),
                self.wf(),
                self.entailed_sound(),
                self.vars@.len() == om.vars@.len(),
                self.props@.len() == om.props@.len(),
                forall|k: int|
                    0 <= k < stack@.len() ==> ((#[trigger] stack@[k]) as int)
                        < om.props@.len(),
                forall|q: int|
                    0 <= q < om.props@.len() && !self.props@[q].entailed && !self.prop_stable(q)
                        ==> stack@.contains(q as usize),
                forall|q: int|
                    0 <= q < om.props@.len() ==> ({
                        let np = (#[trigger] self.props@[q]);
                        let op = om.props@[q];
                        &&& np.id == op.id
                        &&& np.kind == op.kind
                        &&& np.x == op.x
                        &&& np.y == op.y
                        &&& np.c == op.c
                        &&& (op.entailed ==> np.entailed)
                    }),
                forall|j: int|
                    0 <= j < om.vars@.len() ==> ({
                        let nv = (#[trigger] self.vars@[j]);
                        let ov = om.vars@[j];
                        &&& nv.id == ov.id
                        &&& nv.name == ov.name
                        &&& nv.dom.min >= ov.dom.min
                        &&& nv.dom.max <= ov.dom.max
                        &&& (forall|val: int| nv.dom.contains(val) ==> ov.dom.contains(val))
                    }),
                forall|asn: Seq<int>|
                    #[trigger] om.in_doms(asn) && om.sat(asn) ==> self.in_doms(asn),
                om.quiescent() ==> (forall|j: int|
                    0 <= j < om.vars@.len() ==> self.vars@[j] == om.vars@[j]),
            ensures
                self.wf(),
                self.entailed_sound(),
                stack@.len() == 0,
                self.vars@.len() == om.vars@.len(),
                self.props@.len() == om.props@.len(),
                forall|q: int|
                    0 <= q < om.props@.len() && !self.props@[q].entailed && !self.prop_stable(q)
                        ==> stack@.contains(q as usize),
                forall|q: int|
                    0 <= q < om.props@.len() ==> ({
                        let np = (#[trigger] self.props@[q]);
                        let op = om.props@[q];
                        &&& np.id == op.id
                        &&& np.kind == op.kind
                        &&& np.x == op.x
                        &&& np.y == op.y
                        &&& np.c == op.c
                        &&& (op.entailed ==> np.entailed)
                    }),
                forall|j: int|
                    0 <= j < om.vars@.len() ==> ({
                        let nv = (#[trigger] self.vars@[j]);
                        let ov = om.vars@[j];
                        &&& nv.id == ov.id
                        &&& nv.name == ov.name
                        &&& nv.dom.min >= ov.dom.min
                        &&& nv.dom.max <= ov.dom.max
                        &&& (forall|val: int| nv.dom.contains(val) ==> ov.dom.contains(val))
                    }),
                forall|asn: Seq<int>|
                    #[trigger] om.in_doms(asn) && om.sat(asn) ==> self.in_doms(asn),
                om.quiescent() ==> (forall|j: int|
                    0 <= j < om.vars@.len() ==> self.vars@[j] == om.vars@[j]),
            decreases spans(self.vars@), stack@.len(),
        {
            if stack.len() == 0 {
                break ;
            }
            proof {
                lemma_spans_nonneg(self.vars@);
            }
            let ghost pre = *self;
            let ghost stack_full = stack@;
            let pid = stack.pop().unwrap();
            let ghost sbase = stack@;
            proof {
                assert(stack_full =~= sbase.push(pid));
            }
            let (wake, ok) = self.step(pid);
            proof {
                // a satisfying assignment survives this step too
                assert forall|asn: Seq<int>|
                    #[trigger] om.in_doms(asn) && om.sat(asn) implies self.in_doms(asn) by {
                    assert(pre.in_doms(asn));
                    Mod::lemma_sat_prefix(om, pre, asn);
                }
                // and while one exists, no step can fail
                if !ok && exists|asn: Seq<int>| #[trigger] om.in_doms(asn) && om.sat(asn) {
                    let asn = choose|asn: Seq<int>| #[trigger] om.in_doms(asn) && om.sat(asn);
                    assert(pre.in_doms(asn));
                    Mod::lemma_sat_prefix(om, pre, asn);
                    assert(false);
                }
            }
            if !ok {
                proof {
                    let mm = *self;
                    assert forall|j: int| 0 <= j < om.vars@.len() implies ({
                        let nv = (#[trigger] mm.vars@[j]);
                        let ov = om.vars@[j];
                        &&& nv.id == ov.id
                        &&& nv.name == ov.name
                        &&& nv.dom.min >= ov.dom.min
                        &&& nv.dom.max <= ov.dom.max
                        &&& (forall|val: int| nv.dom.contains(val) ==> ov.dom.contains(val))
                    }) by {
                        assert(pre.vars@[j].dom.min >= om.vars@[j].dom.min);
                    }
                    if om.quiescent() {
                        // a model at a fixed point never fails
                        assert forall|q: int|
                            0 <= q < pre.props@.len() && !(#[trigger] pre.props@[q]).entailed implies
                            pre.prop_stable(q) by {
                            assert(!om.props@[q].entailed);
                            assert(om.prop_stable(q));
                        }
                        assert(pre.quiescent());
                        assert(false);
                    }
                }
                return false;
            }
            // push the woken propagators in reverse, so the first woken
            // one is handled next: depth-first order
            let n = wake.len();
            let mut i = n;
            while i > 0
                invariant
                    i <= n,
                    n == wake@.len(),
                    stack@.len() == sbase.len() + (n - i),
                    forall|k: int|
                        0 <= k < wake@.len() ==> ((#[trigger] wake@[k]) as int)
                            < pre.props@.len(),
                    forall|k: int|
                        0 <= k < sbase.len() ==> ((#[trigger] sbase[k]) as int)
                            < pre.props@.len(),
                    forall|q: usize| sbase.contains(q) ==> #[trigger] stack@.contains(q),
                    forall|j: int| i <= j < n ==> stack@.contains(#[trigger] wake@[j]),
                    forall|k: int|
                        0 <= k < stack@.len() ==> ((#[trigger] stack@[k]) as int)
                            < pre.props@.len(),
                decreases i,
            {
                i = i - 1;
                let ghost before = stack@;
                stack.push(wake[i]);
                proof {
                    assert forall|q: usize| before.contains(q) implies #[trigger] stack@.contains(
                        q,
                    ) by {
                        lemma_push_contains(before, wake@[i as int], q);
                    }
                    lemma_push_contains(before, wake@[i as int], wake@[i as int]);
                    assert forall|k: int|
                        0 <= k < stack@.len() implies ((#[trigger] stack@[k]) as int)
                        < pre.props@.len() by {
                        if k < before.len() {
                            assert(stack@[k] == before[k]);
                        }
                    }
                }
            }
            proof {
                let mm = *self;
                // everything that still has work to do is on the stack
                assert forall|q: int|
                    0 <= q < om.props@.len() && !mm.props@[q].entailed && !mm.prop_stable(
                        q,
                    ) implies stack@.contains(q as usize) by {
                    assert(!pre.props@[q].entailed);
                    if pre.prop_stable(q) {
                        assert(wake@.contains(q as usize));
                        let j = choose|j: int| 0 <= j < wake@.len() && wake@[j] == q as usize;
                        assert(stack@.contains(wake@[j]));
                    } else {
                        assert(stack_full.contains(q as usize));
                        let k = choose|k: int| 0 <= k < stack_full.len() && stack_full[k] == (
                        q as usize);
                        if k < sbase.len() {
                            assert(sbase.contains(q as usize));
                        } else {
                            assert(q == pid as int);
                            assert(mm.prop_stable(pid as int) || wake@.contains(pid)
                                || mm.props@[pid as int].entailed);
                            let j = choose|j: int| 0 <= j < wake@.len() && wake@[j] == pid;
                            assert(stack@.contains(wake@[j]));
                        }
                    }
                }
                // under quiescence nothing ever changes
                if om.quiescent() {
                    assert forall|q: int|
                        0 <= q < pre.props@.len() && !(#[trigger] pre.props@[q]).entailed implies
                        pre.prop_stable(q) by {
                        assert(!om.props@[q].entailed);
                        assert(om.prop_stable(q));
                    }
                    assert(pre.quiescent());
                }
                // the measure falls: a narrowing shrank some span, and
                // otherwise the stack got shorter
                lemma_spans_nonneg(mm.vars@);
            }
        }
        proof {
            if om.quiescent() {
                assert forall|q: int|
                    0 <= q < om.props@.len() && !(#[trigger] self.props@[q]).entailed implies
                    self.prop_stable(q) by {
                    assert(!om.props@[q].entailed);
                    assert(om.prop_stable(q));
                }
            }
        }
        true
    }

    /// Runs the propagator `id` and transitively everything it wakes,
    /// depth-first, until a fixed point is reached or a tightening
    /// fails.  On success every live propagator is stable, so running
    /// any of them again would change nothing; and a model already at a
    /// fixed point is left untouched.
    pub fn propagate(&mut self, id: usize) -> (r: bool)
        requires
            old(self).wf(),
            old(self).entailed_sound(),
            id < old(self).props@.len(),
            forall|q: int|
                0 <= q < old(self).props@.len() && !old(self).props@[q].entailed && q != id
                    ==> old(self).prop_stable(q),
        ensures
            final(self).wf(),
            final(self).vars@.len() == old(self).vars@.len(),
            final(self).props@.len() == old(self).props@.len(),
            forall|q: int|
                0 <= q < old(self).props@.len() ==> ({
                    let np = (#[trigger] final(self).props@[q]);
                    let op = old(self).props@[q];
                    &&& np.id == op.id
                    &&& np.kind == op.kind
                    &&& np.x == op.x
                    &&& np.y == op.y
                    &&& np.c == op.c
                    &&& (op.entailed ==> np.entailed)
                }),
            forall|j: int|
                0 <= j < old(self).vars@.len() ==> ({
                    let nv = (#[trigger] final(self).vars@[j]);
                    let ov = old(self).vars@[j];
                    &&& nv.id == ov.id
                    &&& nv.name == ov.name
                    &&& nv.dom.min >= ov.dom.min
                    &&& nv.dom.max <= ov.dom.max
                    &&& (forall|val: int| nv.dom.contains(val) ==> ov.dom.contains(val))
                }),
            r ==> final(self).quiescent(),
            r ==> final(self).entailed_sound(),
            forall|asn: Seq<int>|
                #[trigger] old(self).in_doms(asn) && old(self).sat(asn) ==> final(self).in_doms(
                    asn,
                ),
            (exists|asn: Seq<int>|
                #[trigger] old(self).in_doms(asn) && old(self).sat(asn)) ==> r,
            old(self).quiescent() ==> (r && (forall|j: int|
                0 <= j < old(self).vars@.len() ==> final(self).vars@[j] == old(self).vars@[j])),
    {
        let mut init: Vec<usize> = Vec::new();
        init.push(id);
        proof {
            assert(init@[0] == id);
            assert forall|q: int|
                0 <= q < old(self).props@.len() && !old(self).props@[q].entailed && !old(
                    self,
                ).prop_stable(q) implies init@.contains(q as usize) by {
                assert(q == id as int);
            }
        }
        self.drain(init)
    }

    /// Runs each listed propagator in turn, depth-first, as
    /// [`Mod::propagate`] does for one.
    pub fn propagate_vec(&mut self, ids: Vec<usize>) -> (r: bool)
        requires
            old(self).wf(),
            old(self).entailed_sound(),
            forall|k: int|
                0 <= k < ids@.len() ==> ((#[trigger] ids@[k]) as int) < old(self).props@.len(),
            forall|q: int|
                0 <= q < old(self).props@.len() && !old(self).props@[q].entailed && !old(
                    self,
                ).prop_stable(q) ==> ids@.contains(q as usize),
        ensures
            final(self).wf(),
            final(self).vars@.len() == old(self).vars@.len(),
            final(self).props@.len() == old(self).props@.len(),
            forall|q: int|
                0 <= q < old(self).props@.len() ==> ({
                    let np = (#[trigger] final(self).props@[q]);
                    let op = old(self).props@[q];
                    &&& np.id == op.id
                    &&& np.kind == op.kind
                    &&& np.x == op.x
                    &&& np.y == op.y
                    &&& np.c == op.c
                    &&& (op.entailed ==> np.entailed)
                }),
            forall|j: int|
                0 <= j < old(self).vars@.len() ==> ({
                    let nv = (#[trigger] final(self).vars@[j]);
                    let ov = old(self).vars@[j];
                    &&& nv.id == ov.id
                    &&& nv.name == ov.name
                    &&& nv.dom.min >= ov.dom.min
                    &&& nv.dom.max <= ov.dom.max
                    &&& (forall|val: int| nv.dom.contains(val) ==> ov.dom.contains(val))
                }),
            r ==> final(self).quiescent(),
            r ==> final(self).entailed_sound(),
            forall|asn: Seq<int>|
                #[trigger] old(self).in_doms(asn) && old(self).sat(asn) ==> final(self).in_doms(
                    asn,
                ),
            (exists|asn: Seq<int>|
                #[trigger] old(self).in_doms(asn) && old(self).sat(asn)) ==> r,
            final(self).vars_narrowed_from(*old(self)),
            old(self).quiescent() ==> (r && (forall|j: int|
                0 <= j < old(self).vars@.len() ==> final(self).vars@[j] == old(self).vars@[j])),
    {
        // seed the work stack in reverse, so the first listed
        // propagator runs first
        let n = ids.len();
        let mut init: Vec<usize> = Vec::new();
        let mut i = n;
        while i > 0
            invariant
                i <= n,
                n == ids@.len(),
                forall|k: int|
                    0 <= k < ids@.len() ==> ((#[trigger] ids@[k]) as int) < old(
                        self,
                    ).props@.len(),
                forall|j: int| i <= j < n ==> init@.contains(#[trigger] ids@[j]),
                forall|k: int|
                    0 <= k < init@.len() ==> ((#[trigger] init@[k]) as int) < old(
                        self,
                    ).props@.len(),
            decreases i,
        {
            i = i - 1;
            let ghost before = init@;
            init.push(ids[i]);
            proof {
                assert forall|j: int| i <= j < n implies init@.contains(#[trigger] ids@[j]) by {
                    lemma_push_contains(before, ids@[i as int], ids@[j]);
                }
                assert forall|k: int|
                    0 <= k < init@.len() implies ((#[trigger] init@[k]) as int) < old(
                    self,
                ).props@.len() by {
                    if k < before.len() {
                        assert(init@[k] == before[k]);
                    }
                }
            }
        }
        let r = self.drain(init);
        proof {
            assert(self.vars_narrowed_from(*old(self)));
        }
        r
    }

    /// Stores a new propagator under the next dense identifier,
    /// installs its subscriptions, and runs it to a fixed point.
    /// Returns the identifier and whether the model is still
    /// consistent.
    pub fn add_prop(&mut self, kind: PropKind, x: usize, y: usize, c: i64) -> (r: (usize, bool))
        requires
            old(self).wf(),
            old(self).quiescent(),
            old(self).entailed_sound(),
            x < old(self).vars@.len(),
            y < old(self).vars@.len(),
            kind == PropKind::NeqXYCxy ==> x != y,
        ensures
            final(self).wf(),
            r.0 == old(self).props@.len(),
            final(self).props@.len() == old(self).props@.len() + 1,
            final(self).vars@.len() == old(self).vars@.len(),
            final(self).props@[r.0 as int].kind == kind,
            final(self).props@[r.0 as int].x == x,
            final(self).props@[r.0 as int].y == y,
            final(self).props@[r.0 as int].c == c,
            forall|q: int|
                0 <= q < old(self).props@.len() ==> ({
                    let np = (#[trigger] final(self).props@[q]);
                    let op = old(self).props@[q];
                    &&& np.id == op.id
                    &&& np.kind == op.kind
                    &&& np.x == op.x
                    &&& np.y == op.y
                    &&& np.c == op.c
                    &&& (op.entailed ==> np.entailed)
                }),
            forall|j: int|
                0 <= j < old(self).vars@.len() ==> ({
                    let nv = (#[trigger] final(self).vars@[j]);
                    let ov = old(self).vars@[j];
                    &&& nv.id == ov.id
                    &&& nv.name == ov.name
                    &&& nv.dom.min >= ov.dom.min
                    &&& nv.dom.max <= ov.dom.max
                    &&& (forall|val: int| nv.dom.contains(val) ==> ov.dom.contains(val))
                }),
            r.1 ==> final(self).quiescent(),
            r.1 ==> final(self).entailed_sound(),
            forall|asn: Seq<int>|
                #[trigger] old(self).in_doms(asn) && final(self).sat(asn)
                    ==> final(self).in_doms(asn),
            (exists|asn: Seq<int>|
                #[trigger] old(self).in_doms(asn) && final(self).sat(asn)) ==> r.1,
            final(self).vars_narrowed_from(*old(self)),
            forall|asn: Seq<int>|
                #[trigger] old(self).in_doms(asn) && old(self).sat(asn) && enforces(
                    kind,
                    x,
                    y,
                    c,
                    asn,
                ) ==> final(self).in_doms(asn),
            (exists|asn: Seq<int>|
                #[trigger] old(self).in_doms(asn) && old(self).sat(asn) && enforces(
                    kind,
                    x,
                    y,
                    c,
                    asn,
                )) ==> r.1,
    {
        let id = self.props.len();
        self.props.push(Prop { id, kind, x, y, c, entailed: false });
        let ghost om = *old(self);
        let ghost m1 = *self;
        proof {
            assert forall|v: int, e: Event| 0 <= v < m1.vars@.len() implies #[trigger] m1.slot_wf(
                v,
                e,
            ) by {
                assert(om.slot_wf(v, e));
                assert(m1.slot(v, e) == om.slot(v, e));
                assert forall|q: usize| #[trigger] m1.slot(v, e).contains(q) implies (q as int)
                    < m1.props@.len() && watches(m1.props@[q as int], v, e) by {
                    assert(om.slot(v, e).contains(q));
                }
            }
            assert forall|q: int|
                0 <= q < m1.props@.len() && q != id implies #[trigger] m1.link_wf(q) by {
                assert(om.link_wf(q));
                let p2 = m1.props@[q];
                assert(p2 == om.props@[q]);
                if p2.entailed {
                    assert forall|v: int, e: Event|
                        0 <= v < m1.vars@.len() implies !(#[trigger] m1.slot(v, e)).contains(
                        q as usize,
                    ) by {
                        assert(m1.slot(v, e) == om.slot(v, e));
                    }
                } else {
                    assert forall|v: int, e: Event|
                        0 <= v < m1.vars@.len() && watches(p2, v, e) implies (#[trigger] m1.slot(
                        v,
                        e,
                    )).contains(q as usize) by {
                        assert(m1.slot(v, e) == om.slot(v, e));
                    }
                }
            }
            assert forall|v: int, e: Event| 0 <= v < m1.vars@.len() implies !(#[trigger] m1.slot(
                v,
                e,
            )).contains(id) by {
                if m1.slot(v, e).contains(id) {
                    assert(om.slot(v, e).contains(id));
                    assert(om.slot_wf(v, e));
                }
            }
        }
        self.register(id);
        proof {
            let m2 = *self;
            assert forall|q: int|
                0 <= q < m2.props@.len() && !m2.props@[q].entailed && q != id implies
                m2.prop_stable(q) by {
                assert(om.prop_stable(q));
                assert(m2.vars@[m2.props@[q].x as int] == om.vars@[om.props@[q].x as int]);
                assert(m2.vars@[m2.props@[q].y as int] == om.vars@[om.props@[q].y as int]);
            }
        }
        let ghost m2 = *self;
        let ok = self.propagate(id);
        proof {
            // any assignment satisfying the final constraints already
            // satisfied them when propagation started
            assert forall|asn: Seq<int>|
                #[trigger] old(self).in_doms(asn) && self.sat(asn) implies self.in_doms(asn) by {
                assert(m2.in_doms(asn));
                Mod::lemma_sat_prefix(*self, m2, asn);
            }
            // and while such an assignment exists, propagation succeeds
            if !ok && exists|asn: Seq<int>|
                #[trigger] old(self).in_doms(asn) && self.sat(asn) {
                let asn = choose|asn: Seq<int>|
                    #[trigger] old(self).in_doms(asn) && self.sat(asn);
                assert(m2.in_doms(asn));
                Mod::lemma_sat_prefix(*self, m2, asn);
                assert(false);
            }
            // the same, phrased over the state before this posting and
            // the formula the new propagator enforces
            assert forall|asn: Seq<int>|
                #[trigger] old(self).in_doms(asn) && old(self).sat(asn) && enforces(
                kind,
                x,
                y,
                c,
                asn,
            ) implies m2.in_doms(asn) && m2.sat(asn) by {
                assert(m2.props@[id as int].kind == kind);
                Mod::lemma_sat_append(*old(self), m2, asn);
            }
            if !ok && exists|asn: Seq<int>|
                #[trigger] old(self).in_doms(asn) && old(self).sat(asn) && enforces(
                kind,
                x,
                y,
                c,
                asn,
            ) {
                let asn = choose|asn: Seq<int>|
                    #[trigger] old(self).in_doms(asn) && old(self).sat(asn) && enforces(
                    kind,
                    x,
                    y,
                    c,
                    asn,
                );
                assert(m2.in_doms(asn) && m2.sat(asn));
                assert(false);
            }
            assert(self.vars_narrowed_from(*old(self)));
        }
        (id, ok)
    }
}

} // verus!
