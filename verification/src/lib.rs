//! A finite-domain constraint propagation kernel.
//!
//! A [`Mod`] owns integer variables and constraint propagators.  Each
//! variable carries a [`domain::Domain`]: a finite, nonempty set of
//! integers kept as a sorted list of disjoint closed intervals.  Posting
//! a constraint installs one or more propagators; each subscribes to the
//! domain-change events it cares about, and whenever a domain is
//! narrowed the subscribed propagators are re-run until no propagator
//! can narrow any domain further.
//!
//! The contracts pin down the behaviour of that loop: posting reports
//! success exactly as long as no required tightening would empty a
//! domain, a successful run ends at a fixed point ([`Mod::quiescent`])
//! whose bounds satisfy every posted constraint, narrowing never
//! discards an assignment that satisfies all constraints
//! ([`Mod::in_doms`], [`Mod::sat`]), and a model already at a fixed
//! point is never changed by further propagation.

pub mod domain;
pub mod eqxy;
pub mod ltxy;
pub mod propagate;

use crate::domain::Domain;
use vstd::prelude::*;

verus! {

/// A domain-change event class on one variable.
///
/// `Ins` fires in addition to `Min` or `Max` when an update leaves the
/// variable with a single value.
#[derive(Clone, Copy, PartialEq, Eq, Structural, Debug)]
pub enum Event {
    Min,
    Max,
    Ins,
}

/// The propagators waiting on each event class of one variable.
pub struct Waiting {
    pub on_min: Vec<usize>,
    pub on_max: Vec<usize>,
    pub on_ins: Vec<usize>,
}

/// A finite-domain variable: a dense identifier, a name for rendering,
/// and the domain itself.
pub struct FDVar {
    pub id: usize,
    pub name: String,
    pub dom: Domain,
}

/// Factory for registering a fresh [`FDVar`] in a model.
pub struct Var;

/// The concrete propagator kinds: the two halves of `x < y + c`, and
/// the disequality `x != y + c`.
#[derive(Clone, Copy, PartialEq, Eq, Structural, Debug)]
pub enum PropKind {
    LtXYCx,
    LtXYCy,
    NeqXYCxy,
}

/// One propagator: a dense identifier, its kind, the two variables it
/// relates and the constant offset.  `entailed` is set once the
/// constraint is satisfied for good; the propagator is then
/// unsubscribed and inert.
#[derive(Clone, Copy, PartialEq, Eq, Structural, Debug)]
pub struct Prop {
    pub id: usize,
    pub kind: PropKind,
    pub x: usize,
    pub y: usize,
    pub c: i64,
    pub entailed: bool,
}

/// The model: it owns the variables, the propagators, and the
/// subscription index from (variable, event) to waiting propagators.
pub struct Mod {
    pub vars: Vec<FDVar>,
    pub props: Vec<Prop>,
    pub waiting: Vec<Waiting>,
}

/// Factory for an empty [`Mod`].
pub struct Model;

/// The events a propagator subscribes to: the `x` half of `x < y + c`
/// watches `y`'s upper bound, the `y` half watches `x`'s lower bound,
/// and the disequality watches both variables for instantiation.
pub open spec fn watches(p: Prop, v: int, e: Event) -> bool {
    match p.kind {
        PropKind::LtXYCx => v == p.y && e == Event::Max,
        PropKind::LtXYCy => v == p.x && e == Event::Min,
        PropKind::NeqXYCxy => (v == p.x || v == p.y) && e == Event::Ins,
    }
}

/// The formula one propagator kind enforces, as a predicate on
/// assignments: both ordering halves demand `x < y + c`, the
/// disequality demands `x != y + c`.
pub open spec fn enforces(kind: PropKind, x: usize, y: usize, c: i64, asn: Seq<int>) -> bool {
    match kind {
        PropKind::LtXYCx => asn[x as int] < asn[y as int] + c,
        PropKind::LtXYCy => asn[x as int] < asn[y as int] + c,
        PropKind::NeqXYCxy => asn[x as int] != asn[y as int] + c,
    }
}

impl Mod {
    /// The subscription list for one (variable, event) pair.
    pub open spec fn slot(self, v: int, e: Event) -> Seq<usize> {
        match e {
            Event::Min => self.waiting@[v].on_min@,
            Event::Max => self.waiting@[v].on_max@,
            Event::Ins => self.waiting@[v].on_ins@,
        }
    }

    /// Identifiers are dense, domains well-formed, and every propagator
    /// refers to registered variables.
    pub open spec fn base_wf(self) -> bool {
        &&& self.waiting@.len() == self.vars@.len()
        &&& (forall|i: int|
            0 <= i < self.vars@.len() ==> (#[trigger] self.vars@[i]).id == i
                && self.vars@[i].dom.wf())
        &&& (forall|p: int|
            0 <= p < self.props@.len() ==> (#[trigger] self.props@[p]).id == p
                && self.props@[p].x < self.vars@.len() && self.props@[p].y < self.vars@.len())
    }

    /// One subscription list is sound: every entry names an existing
    /// propagator that watches this slot, and no entry repeats.
    pub open spec fn slot_wf(self, v: int, e: Event) -> bool {
        &&& (forall|q: usize|
            #[trigger] self.slot(v, e).contains(q) ==> (q as int) < self.props@.len() && watches(
                self.props@[q as int],
                v,
                e,
            ))
        &&& self.slot(v, e).no_duplicates()
    }

    pub open spec fn subs_wf(self) -> bool {
        forall|v: int, e: Event| 0 <= v < self.vars@.len() ==> #[trigger] self.slot_wf(v, e)
    }

    /// An entailed propagator sits in no subscription list; a live one
    /// sits in every list it watches.
    pub open spec fn link_wf(self, pid: int) -> bool {
        let p = self.props@[pid];
        if p.entailed {
            forall|v: int, e: Event|
                0 <= v < self.vars@.len() ==> !(#[trigger] self.slot(v, e)).contains(pid as usize)
        } else {
            forall|v: int, e: Event|
                0 <= v < self.vars@.len() && watches(p, v, e) ==> (#[trigger] self.slot(
                    v,
                    e,
                )).contains(pid as usize)
        }
    }

    /// Everything but the subscription state of the one propagator
    /// `pid`; a freshly pushed propagator satisfies this before its
    /// subscriptions are installed.
    pub open spec fn wf_except(self, pid: int) -> bool {
        &&& self.base_wf()
        &&& self.subs_wf()
        &&& (forall|q: int| 0 <= q < self.props@.len() && q != pid ==> #[trigger] self.link_wf(q))
    }

    /// The model invariant, maintained between all public operations.
    pub open spec fn wf(self) -> bool {
        &&& self.base_wf()
        &&& self.subs_wf()
        &&& (forall|q: int| 0 <= q < self.props@.len() ==> #[trigger] self.link_wf(q))
    }

    /// Running this propagator now would neither narrow a domain nor
    /// wake anything: for an ordering half, the bound it enforces
    /// already holds; for a disequality, the value it would strike is
    /// already gone.
    pub open spec fn prop_stable(self, pid: int) -> bool {
        let p = self.props@[pid];
        let dx = self.vars@[p.x as int].dom;
        let dy = self.vars@[p.y as int].dom;
        match p.kind {
            PropKind::LtXYCx => dx.max <= dy.max + p.c - 1,
            PropKind::LtXYCy => dy.min >= dx.min - p.c + 1,
            PropKind::NeqXYCxy => {
                &&& (dx.min == dx.max ==> !dy.contains(dx.min - p.c))
                &&& (!(dx.min == dx.max) && dy.min == dy.max ==> !dx.contains(dy.min + p.c))
            },
        }
    }

    /// An assignment of one value to every variable, each value lying
    /// in its variable's current domain.
    pub open spec fn in_doms(self, asn: Seq<int>) -> bool {
        &&& asn.len() == self.vars@.len()
        &&& (forall|v: int|
            0 <= v < self.vars@.len() ==> (#[trigger] self.vars@[v]).dom.contains(asn[v]))
    }

    /// The assignment satisfies every constraint ever posted, live or
    /// retired: each ordering half demands `x < y + c`, the
    /// disequality demands `x != y + c`.
    pub open spec fn sat(self, asn: Seq<int>) -> bool {
        forall|p: int|
            0 <= p < self.props@.len() ==> ({
                let pr = (#[trigger] self.props@[p]);
                match pr.kind {
                    PropKind::LtXYCx => asn[pr.x as int] < asn[pr.y as int] + pr.c,
                    PropKind::LtXYCy => asn[pr.x as int] < asn[pr.y as int] + pr.c,
                    PropKind::NeqXYCxy => asn[pr.x as int] != asn[pr.y as int] + pr.c,
                }
            })
    }

    /// Every variable keeps its identity while its domain only
    /// shrinks: the frame of every propagation step and every posting.
    pub open spec fn vars_narrowed_from(self, om: Mod) -> bool {
        &&& self.vars@.len() == om.vars@.len()
        &&& (forall|j: int|
            0 <= j < om.vars@.len() ==> ({
                let nv = (#[trigger] self.vars@[j]);
                let ov = om.vars@[j];
                &&& nv.id == ov.id
                &&& nv.name == ov.name
                &&& nv.dom.min >= ov.dom.min
                &&& nv.dom.max <= ov.dom.max
                &&& (forall|val: int| nv.dom.contains(val) ==> ov.dom.contains(val))
            }))
    }

    /// A fixed point: no active propagator has anything left to do.
    pub open spec fn quiescent(self) -> bool {
        forall|p: int|
            0 <= p < self.props@.len() && !(#[trigger] self.props@[p]).entailed
                ==> self.prop_stable(p)
    }

    /// The grounds on which a propagator is retired: its constraint
    /// holds of the current domains and keeps holding however they
    /// shrink further.
    pub open spec fn prop_resolved(self, pid: int) -> bool {
        let p = self.props@[pid];
        let dx = self.vars@[p.x as int].dom;
        let dy = self.vars@[p.y as int].dom;
        match p.kind {
            PropKind::LtXYCx => dx.max < dy.min + p.c,
            PropKind::LtXYCy => dx.max < dy.min + p.c,
            PropKind::NeqXYCxy => {
                ||| (dx.min == dx.max && !dy.contains(dx.min - p.c))
                ||| (dy.min == dy.max && !dx.contains(dy.min + p.c))
            },
        }
    }

    /// Every retired propagator was rightly retired.  Together with a
    /// fixed point this pins the bounds: each ordering constraint is
    /// bound-consistent whether its propagators are live or retired.
    pub open spec fn entailed_sound(self) -> bool {
        forall|p: int|
            0 <= p < self.props@.len() && (#[trigger] self.props@[p]).entailed
                ==> self.prop_resolved(p)
    }

    /// Every variable's bounds are ordered, and a variable is
    /// instantiated exactly when they meet: the well-formed domain
    /// between them is never empty.
    pub proof fn lemma_var_bounds(self, v: int)
        requires
            self.wf(),
            0 <= v < self.vars@.len(),
        ensures
            self.vars@[v].dom.min <= self.vars@[v].dom.max,
            self.vars@[v].dom.contains(self.vars@[v].dom.min as int),
            self.vars@[v].dom.contains(self.vars@[v].dom.max as int),
    {
        self.vars@[v].dom.lemma_bounds_contained();
    }

    /// A retired propagator appears in no subscription list, so it can
    /// never be woken again.
    pub proof fn lemma_entailed_unsubscribed(self, pid: int, v: int, e: Event)
        requires
            self.wf(),
            0 <= pid < self.props@.len(),
            self.props@[pid].entailed,
            0 <= v < self.vars@.len(),
        ensures
            !self.slot(v, e).contains(pid as usize),
    {
        assert(self.link_wf(pid));
    }

    /// Satisfaction restricts to any model whose propagators are a
    /// prefix of the given one with the same constraint fields.
    pub proof fn lemma_sat_prefix(big: Mod, small: Mod, asn: Seq<int>)
        requires
            big.sat(asn),
            small.props@.len() <= big.props@.len(),
            forall|q: int|
                0 <= q < small.props@.len() ==> ({
                    let sp = (#[trigger] small.props@[q]);
                    let bp = big.props@[q];
                    sp.kind == bp.kind && sp.x == bp.x && sp.y == bp.y && sp.c == bp.c
                }),
        ensures
            small.sat(asn),
    {
        assert forall|p: int| 0 <= p < small.props@.len() implies ({
            let pr = (#[trigger] small.props@[p]);
            match pr.kind {
                PropKind::LtXYCx => asn[pr.x as int] < asn[pr.y as int] + pr.c,
                PropKind::LtXYCy => asn[pr.x as int] < asn[pr.y as int] + pr.c,
                PropKind::NeqXYCxy => asn[pr.x as int] != asn[pr.y as int] + pr.c,
            }
        }) by {
            assert(big.props@[p] == big.props@[p]);
            let bp = big.props@[p];
            assert(match bp.kind {
                PropKind::LtXYCx => asn[bp.x as int] < asn[bp.y as int] + bp.c,
                PropKind::LtXYCy => asn[bp.x as int] < asn[bp.y as int] + bp.c,
                PropKind::NeqXYCxy => asn[bp.x as int] != asn[bp.y as int] + bp.c,
            });
        }
    }

    /// Satisfaction extends to a model with extra propagators, as long
    /// as the assignment meets each new propagator's formula and the
    /// old ones keep their constraint fields.
    pub proof fn lemma_sat_append(om: Mod, nm: Mod, asn: Seq<int>)
        requires
            om.sat(asn),
            om.props@.len() <= nm.props@.len(),
            forall|q: int|
                0 <= q < om.props@.len() ==> ({
                    let np = (#[trigger] nm.props@[q]);
                    let op = om.props@[q];
                    np.kind == op.kind && np.x == op.x && np.y == op.y && np.c == op.c
                }),
            forall|q: int|
                om.props@.len() <= q < nm.props@.len() ==> ({
                    let np = (#[trigger] nm.props@[q]);
                    enforces(np.kind, np.x, np.y, np.c, asn)
                }),
        ensures
            nm.sat(asn),
    {
        assert forall|p: int| 0 <= p < nm.props@.len() implies ({
            let pr = (#[trigger] nm.props@[p]);
            match pr.kind {
                PropKind::LtXYCx => asn[pr.x as int] < asn[pr.y as int] + pr.c,
                PropKind::LtXYCy => asn[pr.x as int] < asn[pr.y as int] + pr.c,
                PropKind::NeqXYCxy => asn[pr.x as int] != asn[pr.y as int] + pr.c,
            }
        }) by {
            if p < om.props@.len() {
                let op = om.props@[p];
                assert(match op.kind {
                    PropKind::LtXYCx => asn[op.x as int] < asn[op.y as int] + op.c,
                    PropKind::LtXYCy => asn[op.x as int] < asn[op.y as int] + op.c,
                    PropKind::NeqXYCxy => asn[op.x as int] != asn[op.y as int] + op.c,
                });
            }
        }
    }

    /// Narrowing composes: two shrink-only passes make one.
    pub proof fn lemma_narrowed_trans(a: Mod, b: Mod, c: Mod)
        requires
            b.vars_narrowed_from(a),
            c.vars_narrowed_from(b),
        ensures
            c.vars_narrowed_from(a),
    {
        assert forall|j: int| 0 <= j < a.vars@.len() implies ({
            let nv = (#[trigger] c.vars@[j]);
            let ov = a.vars@[j];
            &&& nv.id == ov.id
            &&& nv.name == ov.name
            &&& nv.dom.min >= ov.dom.min
            &&& nv.dom.max <= ov.dom.max
            &&& (forall|val: int| nv.dom.contains(val) ==> ov.dom.contains(val))
        }) by {
            assert(b.vars@[j].dom.min >= a.vars@[j].dom.min);
            assert(c.vars@[j].dom.min >= b.vars@[j].dom.min);
        }
    }

    pub fn num_vars(&self) -> (r: usize)
        ensures
            r == self.vars@.len(),
    {
        self.vars.len()
    }

    pub fn num_props(&self) -> (r: usize)
        ensures
            r == self.props@.len(),
    {
        self.props.len()
    }

    /// Read access to a variable by its identifier.
    pub fn var(&self, v: usize) -> (r: &FDVar)
        requires
            v < self.vars@.len(),
        ensures
            *r == self.vars@[v as int],
    {
        &self.vars[v]
    }

    /// Read access to a propagator by its identifier.
    pub fn prop(&self, p: usize) -> (r: &Prop)
        requires
            p < self.props@.len(),
        ensures
            *r == self.props@[p as int],
    {
        &self.props[p]
    }
}

/// A model stays well-formed when one variable's domain is replaced by
/// another well-formed domain: the subscription index never mentions
/// domain contents.
pub proof fn lemma_wf_after_dom_update(om: Mod, mm: Mod, x: int)
    requires
        om.wf(),
        0 <= x < om.vars@.len(),
        mm.waiting == om.waiting,
        mm.props == om.props,
        mm.vars@.len() == om.vars@.len(),
        forall|j: int| 0 <= j < om.vars@.len() && j != x ==> mm.vars@[j] == om.vars@[j],
        mm.vars@[x].id == om.vars@[x].id,
        mm.vars@[x].dom.wf(),
    ensures
        mm.wf(),
{
    assert forall|v: int, e: Event| 0 <= v < mm.vars@.len() implies #[trigger] mm.slot_wf(
        v,
        e,
    ) by {
        assert(om.slot_wf(v, e));
        assert(mm.slot(v, e) == om.slot(v, e));
    }
    assert forall|q: int| 0 <= q < mm.props@.len() implies #[trigger] mm.link_wf(q) by {
        assert(om.link_wf(q));
        assert forall|v: int, e: Event| 0 <= v < mm.vars@.len() implies #[trigger] mm.slot(v, e)
            == om.slot(v, e) by {}
    }
}

/// Appending a fresh element extends the membership of a list by it.
pub(crate) proof fn lemma_push_contains(s: Seq<usize>, x: usize, q: usize)
    ensures
        s.push(x).contains(q) <==> (s.contains(q) || q == x),
        s.no_duplicates() && !s.contains(x) ==> s.push(x).no_duplicates(),
{
    if s.contains(q) {
        let i = choose|i: int| 0 <= i < s.len() && s[i] == q;
        assert(s.push(x)[i] == q);
    }
    assert(s.push(x)[s.len() as int] == x);
    if s.push(x).contains(q) && q != x {
        let i = choose|i: int| 0 <= i < s.push(x).len() && s.push(x)[i] == q;
        assert(s[i] == q);
    }
    if s.no_duplicates() && !s.contains(x) {
        assert forall|i: int, j: int|
            0 <= i < s.push(x).len() && 0 <= j < s.push(x).len() && i != j implies s.push(x)[i]
            != s.push(x)[j] by {
            if i < s.len() && j < s.len() {
            } else if i < s.len() {
                assert(s.push(x)[i] == s[i]);
                assert(s.contains(s[i]));
            } else if j < s.len() {
                assert(s.push(x)[j] == s[j]);
                assert(s.contains(s[j]));
            }
        }
    }
}

/// Removes the first occurrence of `pid`, which under no-duplicates is
/// its only occurrence.
fn remove_first(list: &mut Vec<usize>, pid: usize)
    requires
        old(list)@.no_duplicates(),
    ensures
        final(list)@ == old(list)@.remove_value(pid),
        final(list)@.no_duplicates(),
        !final(list)@.contains(pid),
        forall|q: usize| q != pid ==> (final(list)@.contains(q) <==> old(list)@.contains(q)),
        forall|q: usize| final(list)@.contains(q) ==> old(list)@.contains(q),
        !old(list)@.contains(pid) ==> final(list)@ == old(list)@,
{
    let n = list.len();
    let mut i: usize = 0;
    while i < n && list[i] != pid
        invariant
            n == list@.len(),
            i <= n,
            forall|j: int| 0 <= j < i ==> list@[j] != pid,
        decreases n - i,
    {
        i = i + 1;
    }
    if i < n {
        let ghost pre = list@;
        list.remove(i);
        proof {
            pre.remove_ensures(i as int);
            assert(pre[i as int] == pid);
            // `i` is the first occurrence, so this is removal by value
            pre.index_of_first_ensures(pid);
            assert(pre.contains(pid));
            let fi = pre.index_of_first(pid).unwrap();
            if fi < i as int {
                assert(pre[fi] != pid);
            } else if fi > i as int {
                assert(pre[i as int] != pid);
            }
            assert(pre.remove_value(pid) == pre.remove(i as int));
            assert forall|q: usize| #[trigger] list@.contains(q) implies pre.contains(q) by {
                let k = choose|k: int| 0 <= k < list@.len() && list@[k] == q;
                if k < i {
                    assert(pre[k] == q);
                } else {
                    assert(pre[k + 1] == q);
                }
            }
            assert forall|q: usize| q != pid && pre.contains(q) implies list@.contains(q) by {
                let k = choose|k: int| 0 <= k < pre.len() && pre[k] == q;
                if k < i {
                    assert(list@[k] == q);
                } else {
                    assert(k != i);
                    assert(list@[k - 1] == q);
                }
            }
            assert forall|k1: int, k2: int|
                0 <= k1 < list@.len() && 0 <= k2 < list@.len() && k1 != k2 implies list@[k1]
                != list@[k2] by {
                let m1: int = if k1 < i { k1 } else { k1 + 1 };
                let m2: int = if k2 < i { k2 } else { k2 + 1 };
                assert(list@[k1] == pre[m1] && list@[k2] == pre[m2]);
            }
            if list@.contains(pid) {
                let k = choose|k: int| 0 <= k < list@.len() && list@[k] == pid;
                let mk: int = if k < i { k } else { k + 1 };
                assert(pre[mk] == pid);
                assert(mk != i);
            }
        }
    } else {
        proof {
            if list@.contains(pid) {
                let k = choose|k: int| 0 <= k < list@.len() && list@[k] == pid;
            }
            list@.index_of_first_ensures(pid);
        }
    }
}

impl Mod {
    /// Appends `propagator` to the subscription list of `(var, event)`.
    pub fn add_waiting(&mut self, var: usize, event: Event, propagator: usize)
        requires
            var < old(self).waiting@.len(),
        ensures
            final(self).vars == old(self).vars,
            final(self).props == old(self).props,
            final(self).waiting@.len() == old(self).waiting@.len(),
            final(self).slot(var as int, event) == old(self).slot(var as int, event).push(
                propagator,
            ),
            forall|v2: int, e2: Event|
                0 <= v2 < old(self).waiting@.len() && !(v2 == var && e2 == event)
                    ==> #[trigger] final(self).slot(v2, e2) == old(self).slot(v2, e2),
    {
        match event {
            Event::Min => self.waiting[var].on_min.push(propagator),
            Event::Max => self.waiting[var].on_max.push(propagator),
            Event::Ins => self.waiting[var].on_ins.push(propagator),
        }
        proof {
            assert forall|v2: int, e2: Event|
                0 <= v2 < old(self).waiting@.len() && !(v2 == var && e2 == event) implies
                #[trigger] self.slot(v2, e2) == old(self).slot(v2, e2) by {
                if v2 != var {
                    assert(self.waiting@[v2] == old(self).waiting@[v2]);
                }
            }
        }
    }

    /// Removes the first subscription of `propagator` on `(var, event)`.
    pub fn del_waiting(&mut self, var: usize, event: Event, propagator: usize)
        requires
            var < old(self).waiting@.len(),
            old(self).slot(var as int, event).no_duplicates(),
        ensures
            final(self).vars == old(self).vars,
            final(self).props == old(self).props,
            final(self).waiting@.len() == old(self).waiting@.len(),
            final(self).slot(var as int, event) == old(self).slot(var as int,
                event,
            ).remove_value(propagator),
            final(self).slot(var as int, event).no_duplicates(),
            !final(self).slot(var as int, event).contains(propagator),
            forall|q: usize|
                q != propagator ==> (final(self).slot(var as int, event).contains(q) <==> old(
                    self,
                ).slot(var as int, event).contains(q)),
            forall|q: usize|
                final(self).slot(var as int, event).contains(q) ==> old(self).slot(
                    var as int,
                    event,
                ).contains(q),
            forall|v2: int, e2: Event|
                0 <= v2 < old(self).waiting@.len() && !(v2 == var && e2 == event)
                    ==> #[trigger] final(self).slot(v2, e2) == old(self).slot(v2, e2),
    {
        match event {
            Event::Min => remove_first(&mut self.waiting[var].on_min, propagator),
            Event::Max => remove_first(&mut self.waiting[var].on_max, propagator),
            Event::Ins => remove_first(&mut self.waiting[var].on_ins, propagator),
        }
        proof {
            assert forall|v2: int, e2: Event|
                0 <= v2 < old(self).waiting@.len() && !(v2 == var && e2 == event) implies
                #[trigger] self.slot(v2, e2) == old(self).slot(v2, e2) by {
                if v2 != var {
                    assert(self.waiting@[v2] == old(self).waiting@[v2]);
                }
            }
        }
    }

    /// Installs the subscriptions of a freshly pushed propagator, which
    /// completes the model invariant for it.
    pub fn register(&mut self, pid: usize)
        requires
            old(self).wf_except(pid as int),
            pid < old(self).props@.len(),
            !old(self).props@[pid as int].entailed,
            old(self).props@[pid as int].kind == PropKind::NeqXYCxy ==> old(self).props@[
                pid as int].x != old(self).props@[pid as int].y,
            forall|v: int, e: Event|
                0 <= v < old(self).vars@.len() ==> !(#[trigger] old(self).slot(v, e)).contains(
                    pid,
                ),
        ensures
            final(self).wf(),
            final(self).vars == old(self).vars,
            final(self).props == old(self).props,
            forall|v: int, e: Event|
                0 <= v < old(self).vars@.len() ==> #[trigger] final(self).slot(v, e) == (
                if watches(old(self).props@[pid as int], v, e) {
                    old(self).slot(v, e).push(pid)
                } else {
                    old(self).slot(v, e)
                }),
            forall|q: usize, v: int, e: Event|
                q != pid && 0 <= v < old(self).vars@.len() ==> ((#[trigger] final(self).slot(
                    v,
                    e,
                ).contains(q)) <==> old(self).slot(v, e).contains(q)),
    {
        let p = self.props[pid];
        let ghost om = *old(self);
        match p.kind {
            PropKind::LtXYCx => {
                self.add_waiting(p.y, Event::Max, pid);
            },
            PropKind::LtXYCy => {
                self.add_waiting(p.x, Event::Min, pid);
            },
            PropKind::NeqXYCxy => {
                self.add_waiting(p.y, Event::Ins, pid);
                self.add_waiting(p.x, Event::Ins, pid);
            },
        }
        proof {
            let mm = *self;
            // every watched slot gained exactly `pid` at its end, and
            // no other slot changed
            assert forall|v: int, e: Event| 0 <= v < om.vars@.len() implies #[trigger] mm.slot(
                v,
                e,
            ) == (if watches(om.props@[pid as int], v, e) {
                om.slot(v, e).push(pid)
            } else {
                om.slot(v, e)
            }) by {}
            assert forall|v: int, e: Event, q: usize|
                0 <= v < om.vars@.len() implies ((#[trigger] mm.slot(v, e).contains(q)) <==> (
            om.slot(v, e).contains(q) || (q == pid && watches(om.props@[pid as int], v, e)))) by {
                lemma_push_contains(om.slot(v, e), pid, q);
                if mm.slot(v, e) == om.slot(v, e).push(pid) {
                    assert(watches(om.props@[pid as int], v, e));
                }
            }
            assert forall|v: int, e: Event| 0 <= v < mm.vars@.len() implies #[trigger] mm.slot_wf(
                v,
                e,
            ) by {
                assert(om.slot_wf(v, e));
                lemma_push_contains(om.slot(v, e), pid, pid);
                assert forall|q: usize| #[trigger] mm.slot(v, e).contains(q) implies (q as int)
                    < mm.props@.len() && watches(mm.props@[q as int], v, e) by {}
            }
            assert forall|q: int| 0 <= q < mm.props@.len() implies #[trigger] mm.link_wf(q) by {
                if q != pid {
                    assert(om.link_wf(q));
                }
            }
        }
    }

    /// Retires an entailed propagator: marks it and removes every
    /// subscription, so it can never be woken again.
    pub fn unregister(&mut self, pid: usize)
        requires
            old(self).wf(),
            pid < old(self).props@.len(),
        ensures
            final(self).wf(),
            final(self).vars == old(self).vars,
            final(self).props@.len() == old(self).props@.len(),
            forall|q: int|
                0 <= q < old(self).props@.len() && q != pid ==> final(self).props@[q] == old(
                    self,
                ).props@[q],
            final(self).props@[pid as int].entailed,
            final(self).props@[pid as int].id == old(self).props@[pid as int].id,
            final(self).props@[pid as int].kind == old(self).props@[pid as int].kind,
            final(self).props@[pid as int].x == old(self).props@[pid as int].x,
            final(self).props@[pid as int].y == old(self).props@[pid as int].y,
            final(self).props@[pid as int].c == old(self).props@[pid as int].c,
            forall|v: int, e: Event|
                0 <= v < old(self).vars@.len() ==> !(#[trigger] final(self).slot(v, e)).contains(
                    pid,
                ),
            forall|q: usize, v: int, e: Event|
                q != pid && 0 <= v < old(self).vars@.len() ==> ((#[trigger] final(self).slot(
                    v,
                    e,
                ).contains(q)) <==> old(self).slot(v, e).contains(q)),
    {
        let p = self.props[pid];
        self.props[pid] = Prop {
            id: p.id,
            kind: p.kind,
            x: p.x,
            y: p.y,
            c: p.c,
            entailed: true,
        };
        let ghost om = *old(self);
        let ghost m1 = *self;
        proof {
            assert forall|v: int, e: Event| 0 <= v < m1.vars@.len() implies m1.slot_wf(v, e) by {
                assert(om.slot_wf(v, e));
                assert forall|q: usize| #[trigger] m1.slot(v, e).contains(q) implies (q as int)
                    < m1.props@.len() && watches(m1.props@[q as int], v, e) by {
                    assert(om.slot(v, e).contains(q));
                    assert(watches(om.props@[q as int], v, e));
                }
            }
        }
        match p.kind {
            PropKind::LtXYCx => {
                proof {
                    assert(m1.slot_wf(p.y as int, Event::Max));
                }
                self.del_waiting(p.y, Event::Max, pid);
            },
            PropKind::LtXYCy => {
                proof {
                    assert(m1.slot_wf(p.x as int, Event::Min));
                }
                self.del_waiting(p.x, Event::Min, pid);
            },
            PropKind::NeqXYCxy => {
                proof {
                    assert(m1.slot_wf(p.y as int, Event::Ins));
                }
                self.del_waiting(p.y, Event::Ins, pid);
                proof {
                    if p.x != p.y {
                        assert(m1.slot_wf(p.x as int, Event::Ins));
                        assert(self.slot(p.x as int, Event::Ins) == m1.slot(
                            p.x as int,
                            Event::Ins,
                        ));
                    }
                }
                self.del_waiting(p.x, Event::Ins, pid);
            },
        }
        proof {
            let mm = *self;
            // subscriptions of every other propagator are untouched
            assert forall|q: usize, v: int, e: Event|
                q != pid && 0 <= v < om.vars@.len() implies ((#[trigger] mm.slot(v, e).contains(
                q,
            )) <==> om.slot(v, e).contains(q)) by {
                assert(m1.slot(v, e) == om.slot(v, e));
            }
            // and `pid` itself is in no list: its watched slots were
            // cleared, and a sound list never held it elsewhere
            assert forall|v: int, e: Event| 0 <= v < mm.vars@.len() implies !(#[trigger] mm.slot(
                v,
                e,
            )).contains(pid) by {
                assert(om.slot_wf(v, e));
                if !watches(om.props@[pid as int], v, e) {
                    if mm.slot(v, e).contains(pid) {
                        assert(om.slot(v, e).contains(pid));
                        assert(watches(om.props@[pid as int], v, e));
                    }
                }
            }
            assert forall|v: int, e: Event| 0 <= v < mm.vars@.len() implies #[trigger] mm.slot_wf(
                v,
                e,
            ) by {
                assert(om.slot_wf(v, e));
                assert forall|q: usize| #[trigger] mm.slot(v, e).contains(q) implies (q as int)
                    < mm.props@.len() && watches(mm.props@[q as int], v, e) by {
                    if q != pid {
                        assert(om.slot(v, e).contains(q));
                        assert(watches(om.props@[q as int], v, e));
                    }
                }
            }
            assert forall|q: int| 0 <= q < mm.props@.len() implies #[trigger] mm.link_wf(q) by {
                if q != pid {
                    assert(om.link_wf(q));
                    assert(mm.props@[q] == om.props@[q]);
                    let p2 = mm.props@[q];
                    if p2.entailed {
                        assert forall|v: int, e: Event| 0 <= v < mm.vars@.len() implies !(
                        #[trigger] mm.slot(v, e)).contains(q as usize) by {
                            assert(!om.slot(v, e).contains(q as usize));
                        }
                    } else {
                        assert forall|v: int, e: Event|
                            0 <= v < mm.vars@.len() && watches(p2, v, e) implies (#[trigger] mm.slot(
                            v,
                            e,
                        )).contains(q as usize) by {
                            assert(om.slot(v, e).contains(q as usize));
                        }
                    }
                }
            }
        }
    }

    /// A copy of the subscription list of `(var, event)`: the wake set
    /// the event produces.
    pub fn get_waiting(&self, var: usize, event: Event) -> (r: Vec<usize>)
        requires
            var < self.waiting@.len(),
        ensures
            r@ == self.slot(var as int, event),
    {
        let list = match event {
            Event::Min => &self.waiting[var].on_min,
            Event::Max => &self.waiting[var].on_max,
            Event::Ins => &self.waiting[var].on_ins,
        };
        let n = list.len();
        let mut out: Vec<usize> = Vec::new();
        let mut i: usize = 0;
        while i < n
            invariant
                n == list@.len(),
                i <= n,
                out@ == list@.subrange(0, i as int),
            decreases n - i,
        {
            out.push(list[i]);
            i = i + 1;
            proof {
                assert(out@ =~= list@.subrange(0, i as int));
            }
        }
        proof {
            assert(out@ =~= list@);
        }
        out
    }
}

impl FDVar {
    pub fn min(&self) -> (r: i64)
        ensures
            r == self.dom.min,
    {
        self.dom.get_min()
    }

    pub fn max(&self) -> (r: i64)
        ensures
            r == self.dom.max,
    {
        self.dom.get_max()
    }

    /// A variable is instantiated once a single value remains.
    pub fn is_instanciated(&self) -> (r: bool)
        ensures
            r == (self.dom.min == self.dom.max),
    {
        self.dom.get_min() == self.dom.get_max()
    }
}

impl Model {
    /// An empty model: no variables, no propagators, no subscriptions.
    pub fn new() -> (m: Mod)
        ensures
            m.wf(),
            m.quiescent(),
            m.entailed_sound(),
            m.vars@.len() == 0,
            m.props@.len() == 0,
    {
        Mod { vars: Vec::new(), props: Vec::new(), waiting: Vec::new() }
    }
}

impl Var {
    /// Registers a fresh variable with domain `[min, max]` under the
    /// next dense identifier and returns that identifier.
    pub fn new(m: &mut Mod, min: i64, max: i64, name: &str) -> (r: usize)
        requires
            old(m).wf(),
            min <= max,
        ensures
            final(m).wf(),
            r == old(m).vars@.len(),
            final(m).vars@.len() == old(m).vars@.len() + 1,
            forall|i: int| 0 <= i < old(m).vars@.len() ==> final(m).vars@[i] == old(m).vars@[i],
            final(m).vars@[r as int].id == r,
            final(m).vars@[r as int].name@ == name@,
            final(m).vars@[r as int].dom.min == min,
            final(m).vars@[r as int].dom.max == max,
            forall|x: int| final(m).vars@[r as int].dom.contains(x) <==> min <= x <= max,
            final(m).props@ == old(m).props@,
            forall|v: int, e: Event|
                0 <= v < old(m).vars@.len() ==> #[trigger] final(m).slot(v, e) == old(m).slot(
                    v,
                    e,
                ),
            old(m).quiescent() ==> final(m).quiescent(),
            old(m).entailed_sound() ==> final(m).entailed_sound(),
    {
        let id = m.vars.len();
        let v = FDVar { id, name: name.to_owned(), dom: Domain::new(min, max) };
        m.vars.push(v);
        m.waiting.push(Waiting { on_min: Vec::new(), on_max: Vec::new(), on_ins: Vec::new() });
        proof {
            let mm = *m;
            let om = *old(m);
            assert forall|v2: int, e: Event| 0 <= v2 < om.vars@.len() implies #[trigger] mm.slot(
                v2,
                e,
            ) == om.slot(v2, e) by {
                assert(mm.waiting@[v2] == om.waiting@[v2]);
            }
            assert forall|v2: int, e: Event| 0 <= v2 < mm.vars@.len() implies #[trigger] mm.slot_wf(
                v2,
                e,
            ) by {
                if v2 < om.vars@.len() {
                    assert(om.slot_wf(v2, e));
                    assert(mm.slot(v2, e) == om.slot(v2, e));
                } else {
                    assert(mm.slot(v2, e).len() == 0);
                }
            }
            assert forall|q: int| 0 <= q < mm.props@.len() implies #[trigger] mm.link_wf(q) by {
                assert(om.link_wf(q));
                let p = mm.props@[q];
                if p.entailed {
                    assert forall|v2: int, e: Event| 0 <= v2 < mm.vars@.len() implies !(
                    #[trigger] mm.slot(v2, e)).contains(q as usize) by {
                        if v2 < om.vars@.len() {
                            assert(mm.slot(v2, e) == om.slot(v2, e));
                        } else {
                            assert(mm.slot(v2, e).len() == 0);
                        }
                    }
                } else {
                    assert forall|v2: int, e: Event|
                        0 <= v2 < mm.vars@.len() && watches(p, v2, e) implies (#[trigger] mm.slot(
                        v2,
                        e,
                    )).contains(q as usize) by {
                        assert(v2 < om.vars@.len());
                        assert(mm.slot(v2, e) == om.slot(v2, e));
                    }
                }
            }
            if om.quiescent() {
                assert forall|p: int|
                    0 <= p < mm.props@.len() && !(#[trigger] mm.props@[p]).entailed implies
                    mm.prop_stable(p) by {
                    assert(om.prop_stable(p));
                    assert(mm.vars@[mm.props@[p].x as int] == om.vars@[om.props@[p].x as int]);
                    assert(mm.vars@[mm.props@[p].y as int] == om.vars@[om.props@[p].y as int]);
                }
            }
            if om.entailed_sound() {
                assert forall|p: int|
                    0 <= p < mm.props@.len() && (#[trigger] mm.props@[p]).entailed implies
                    mm.prop_resolved(p) by {
                    assert(om.prop_resolved(p));
                    assert(mm.vars@[mm.props@[p].x as int] == om.vars@[om.props@[p].x as int]);
                    assert(mm.vars@[mm.props@[p].y as int] == om.vars@[om.props@[p].y as int]);
                }
            }
        }
        id
    }
}

} // verus!
