//! The firing-rule evaluator.  Given a marking and one transition's
//! precomputed input/output place lists, it decides whether the transition
//! is enabled and, if so, computes the resulting marking.  Firing is
//! transactional: a disabled transition leaves the marking untouched and is
//! simply skipped.  As a side effect the boundedness accumulator is raised
//! for every output place whose token count was increased before the
//! attempt was decided, and the liveness accumulator marks a transition
//! that fired as at least `L1`.

use crate::marking::{Marking, MarkingFn, PlaceId, Tokens};
use crate::net::{lemma_io_places_in_range, tios_match, Arc, PetriNet, TransitionIO, TransitionId};
use crate::props::{bound_max_spec, live_max_spec, Bound, Boundedness, Live, Liveness};
use vstd::prelude::*;

verus! {

/// Consume the input arcs one after the other: subtract each arc's weight
/// from its source place, and fail (the transition is disabled) as soon as
/// a place holds fewer tokens than the arc requires.
pub open spec fn take_inputs(net: &PetriNet, t: int, ins: Seq<PlaceId>, m: Map<int, nat>) -> Option<
    Map<int, nat>,
>
    decreases ins.len(),
{
    if ins.len() == 0 {
        Some(m)
    } else {
        let p = ins[0].0 as int;
        let w = net.weight_pt(p, t);
        if w <= m[p] {
            take_inputs(net, t, ins.drop_first(), m.insert(p, (m[p] - w) as nat))
        } else {
            None
        }
    }
}

/// Produce on the output arcs one after the other: add each arc's weight to
/// its target place, and fail (the transition is disabled) as soon as a
/// place would be pushed beyond its capacity.
pub open spec fn put_outputs(net: &PetriNet, t: int, outs: Seq<PlaceId>, m: Map<int, nat>) -> Option<
    Map<int, nat>,
>
    decreases outs.len(),
{
    if outs.len() == 0 {
        Some(m)
    } else {
        let p = outs[0].0 as int;
        let w = net.weight_tp(t, p);
        let c = net.cap_of(p);
        if w <= c && m[p] <= c - w {
            put_outputs(net, t, outs.drop_first(), m.insert(p, (m[p] + w) as nat))
        } else {
            None
        }
    }
}

/// Fire transition `t` from marking `m`: `Some` resulting marking if the
/// transition is enabled, `None` if it is disabled.
pub open spec fn fire(net: &PetriNet, m: Map<int, nat>, t: int) -> Option<Map<int, nat>> {
    match take_inputs(net, t, net.inputs_of(t), m) {
        Some(m1) => put_outputs(net, t, net.outputs_of(t), m1),
        None => None,
    }
}

/// The boundedness entries after the output phase of one firing attempt:
/// each output place processed before the attempt was decided raises its
/// entry to the new token count.
pub open spec fn put_outputs_bounds(
    net: &PetriNet,
    t: int,
    outs: Seq<PlaceId>,
    m: Map<int, nat>,
    b: Seq<Bound>,
) -> Seq<Bound>
    decreases outs.len(),
{
    if outs.len() == 0 {
        b
    } else {
        let p = outs[0].0 as int;
        let w = net.weight_tp(t, p);
        let c = net.cap_of(p);
        if w <= c && m[p] <= c - w {
            let nt = (m[p] + w) as nat;
            let b1 = b.update(p, bound_max_spec(b[p], Bound::Bounded(Tokens(nt as usize))));
            put_outputs_bounds(net, t, outs.drop_first(), m.insert(p, nt), b1)
        } else {
            b
        }
    }
}

/// The boundedness entries after one firing attempt of transition `t` from
/// marking `m`; a transition whose input phase already fails leaves them
/// unchanged.
pub open spec fn fire_bounds(net: &PetriNet, m: Map<int, nat>, t: int, b: Seq<Bound>) -> Seq<
    Bound,
> {
    match take_inputs(net, t, net.inputs_of(t), m) {
        Some(m1) => put_outputs_bounds(net, t, net.outputs_of(t), m1, b),
        None => b,
    }
}

/// The liveness entries after one firing attempt: a transition that fired
/// is at least `L1`.
pub open spec fn fire_live(net: &PetriNet, m: Map<int, nat>, t: int, l: Seq<Live>) -> Seq<Live> {
    if fire(net, m, t).is_some() {
        l.update(t, live_max_spec(l[t], Live::L1))
    } else {
        l
    }
}

/// The (transition, resulting marking) pairs of all enabled transitions
/// with id below `upto`, in transition order.
pub open spec fn fire_list(net: &PetriNet, m: Map<int, nat>, upto: int) -> Seq<
    (TransitionId, Map<int, nat>),
>
    decreases upto,
{
    if upto <= 0 {
        Seq::empty()
    } else {
        let pre = fire_list(net, m, upto - 1);
        match fire(net, m, upto - 1) {
            Some(m2) => pre.push((TransitionId((upto - 1) as usize), m2)),
            None => pre,
        }
    }
}

/// The boundedness entries after attempting every transition with id below
/// `upto` from marking `m`, in transition order.
pub open spec fn bounds_list(net: &PetriNet, m: Map<int, nat>, upto: int, b: Seq<Bound>) -> Seq<
    Bound,
>
    decreases upto,
{
    if upto <= 0 {
        b
    } else {
        fire_bounds(net, m, upto - 1, bounds_list(net, m, upto - 1, b))
    }
}

/// The liveness entries after attempting every transition with id below
/// `upto` from marking `m`, in transition order.
pub open spec fn live_list(net: &PetriNet, m: Map<int, nat>, upto: int, l: Seq<Live>) -> Seq<Live>
    decreases upto,
{
    if upto <= 0 {
        l
    } else {
        fire_live(net, m, upto - 1, live_list(net, m, upto - 1, l))
    }
}

/// The output phase never changes the number of boundedness entries.
pub proof fn lemma_put_outputs_bounds_len(
    net: &PetriNet,
    t: int,
    outs: Seq<PlaceId>,
    m: Map<int, nat>,
    b: Seq<Bound>,
)
    requires
        forall|k: int| 0 <= k < outs.len() ==> (#[trigger] outs[k]).0 < b.len(),
    ensures
        put_outputs_bounds(net, t, outs, m, b).len() == b.len(),
    decreases outs.len(),
{
    if outs.len() > 0 {
        let p = outs[0].0 as int;
        let w = net.weight_tp(t, p);
        let c = net.cap_of(p);
        if w <= c && m[p] <= c - w {
            let nt = (m[p] + w) as nat;
            let b1 = b.update(p, bound_max_spec(b[p], Bound::Bounded(Tokens(nt as usize))));
            assert(forall|k: int|
                0 <= k < outs.drop_first().len() ==> (#[trigger] outs.drop_first()[k]).0
                    < b1.len());
            lemma_put_outputs_bounds_len(net, t, outs.drop_first(), m.insert(p, nt), b1);
        }
    }
}

/// A whole round of firing attempts never changes the number of
/// boundedness entries.
pub proof fn lemma_bounds_list_len(net: &PetriNet, m: Map<int, nat>, upto: int, b: Seq<Bound>)
    requires
        net.wf(),
        b.len() == net.n_places(),
    ensures
        bounds_list(net, m, upto, b).len() == b.len(),
    decreases upto,
{
    if upto > 0 {
        lemma_bounds_list_len(net, m, upto - 1, b);
        let pre = bounds_list(net, m, upto - 1, b);
        lemma_io_places_in_range(net.arcs@, upto - 1, net.n_places(), net.n_transitions());
        match take_inputs(net, upto - 1, net.inputs_of(upto - 1), m) {
            Some(m1) => {
                lemma_put_outputs_bounds_len(net, upto - 1, net.outputs_of(upto - 1), m1, pre);
            },
            None => {},
        }
    }
}

/// A whole round of firing attempts never changes the number of liveness
/// entries.
pub proof fn lemma_live_list_len(net: &PetriNet, m: Map<int, nat>, upto: int, l: Seq<Live>)
    requires
        upto <= l.len(),
    ensures
        live_list(net, m, upto, l).len() == l.len(),
    decreases upto,
{
    if upto > 0 {
        lemma_live_list_len(net, m, upto - 1, l);
    }
}

/// An executable marking stands for an abstract one: it is canonical, its
/// counts are the abstract counts, and it only marks declared places.
pub open spec fn abstracts(em: Marking, m: Map<int, nat>, n_places: int) -> bool {
    &&& em.wf()
    &&& em@ == m
    &&& em.places_below(n_places)
}

impl PetriNet {
    /// Attempt to fire the one transition described by `tio` from
    /// `marking`.  Returns the resulting marking if the transition is
    /// enabled, and raises the boundedness accumulator exactly for the
    /// output places processed before the attempt was decided.
    #[verifier::loop_isolation(false)]
    #[verifier::rlimit(100)]
    fn fire_transition(
        &self,
        tio: &TransitionIO,
        marking: &Marking,
        boundedness: &mut Boundedness,
        Ghost(t): Ghost<int>,
    ) -> (res: Option<Marking>)
        requires
            self.wf(),
            0 <= t < self.n_transitions(),
            tio.matches_net(self, t),
            marking.wf(),
            marking.places_below(self.n_places()),
            old(boundedness)@.len() == self.n_places(),
        ensures
            final(boundedness)@ == fire_bounds(self, marking@, t, old(boundedness)@),
            res.is_some() == fire(self, marking@, t).is_some(),
            res matches Some(r) ==> fire(self, marking@, t) == Some(r@) && r.wf()
                && r.places_below(self.n_places()),
    {
        proof {
            lemma_io_places_in_range(self.arcs@, t, self.n_places(), self.n_transitions());
        }
        let ghost m0 = marking@;
        let ghost b0 = boundedness@;
        let mut m = marking.clone();
        proof {
            crate::marking::lemma_same_entries(marking, &m);
            assert(m.places_below(self.n_places()));
            assert(tio.inputs@.skip(0) =~= tio.inputs@);
        }
        let mut ok = true;
        let mut i: usize = 0;
        while ok && i < tio.inputs.len()
            invariant
                i <= tio.inputs@.len(),
                m.wf(),
                m.places_below(self.n_places()),
                boundedness@ == b0,
                ok ==> take_inputs(self, t, tio.inputs@.skip(i as int), m@) == take_inputs(
                    self,
                    t,
                    self.inputs_of(t),
                    m0,
                ),
                !ok ==> take_inputs(self, t, self.inputs_of(t), m0) is None,
            decreases tio.inputs@.len() - i + (if ok { 1int } else { 0int }),
        {
            let p = tio.inputs[i];
            let w = self.weights.get_or_default(&Arc::PlaceTransition(p, tio.id));
            let cur = m.get(&p);
            proof {
                assert(tio.inputs@.skip(i as int)[0] == tio.inputs@[i as int]);
                assert(tio.inputs@.skip(i as int).drop_first() =~= tio.inputs@.skip(i as int + 1));
                assert(PlaceId(p.0 as usize) == p);
                assert(TransitionId(t as usize) == tio.id);
                assert(w.0 == self.weight_pt(p.0 as int, t));
                crate::marking::lemma_view_index(&m, p.0 as int);
            }
            if w.0 <= cur.0 {
                let ghost m_before = m;
                m.set(p, Tokens(cur.0 - w.0));
                proof {
                    crate::marking::lemma_view_insert(
                        &m_before,
                        &m,
                        p.0 as int,
                        (cur.0 - w.0) as nat,
                    );
                }
                i += 1;
            } else {
                ok = false;
            }
        }
        if ok {
            proof {
                assert(tio.inputs@.skip(tio.inputs@.len() as int).len() == 0);
                assert(take_inputs(self, t, self.inputs_of(t), m0) == Some(m@));
                assert(tio.outputs@.skip(0) =~= tio.outputs@);
            }
            let ghost m1 = m@;
            let mut j: usize = 0;
            while ok && j < tio.outputs.len()
                invariant
                    j <= tio.outputs@.len(),
                    m.wf(),
                    m.places_below(self.n_places()),
                    boundedness@.len() == self.n_places(),
                    ok ==> put_outputs(self, t, tio.outputs@.skip(j as int), m@) == put_outputs(
                        self,
                        t,
                        self.outputs_of(t),
                        m1,
                    ),
                    ok ==> put_outputs_bounds(
                        self,
                        t,
                        self.outputs_of(t),
                        m1,
                        b0,
                    ) == put_outputs_bounds(self, t, tio.outputs@.skip(j as int), m@, boundedness@),
                    !ok ==> put_outputs(self, t, self.outputs_of(t), m1) is None,
                    !ok ==> boundedness@ == put_outputs_bounds(self, t, self.outputs_of(t), m1, b0),
                decreases tio.outputs@.len() - j + (if ok { 1int } else { 0int }),
            {
                let p = tio.outputs[j];
                let w = self.weights.get_or_default(&Arc::TransitionPlace(tio.id, p));
                let cap = self.capacities.get_or_default(&p);
                let cur = m.get(&p);
                proof {
                    assert(tio.outputs@.skip(j as int)[0] == tio.outputs@[j as int]);
                    assert(tio.outputs@.skip(j as int).drop_first() =~= tio.outputs@.skip(
                        j as int + 1,
                    ));
                    assert(PlaceId(p.0 as usize) == p);
                    assert(TransitionId(t as usize) == tio.id);
                    assert(w.0 == self.weight_tp(t, p.0 as int));
                    assert(cap.0 == self.cap_of(p.0 as int));
                    crate::marking::lemma_view_index(&m, p.0 as int);
                    assert(tio.outputs@[j as int] == self.outputs_of(t)[j as int]);
                    assert(p.0 < self.n_places());
                }
                if w.0 <= cap.0 && cur.0 <= cap.0 - w.0 {
                    let nt = cur.0 + w.0;
                    let ghost m_before = m;
                    m.set(p, Tokens(nt));
                    boundedness.update(p, Bound::Bounded(Tokens(nt)));
                    proof {
                        crate::marking::lemma_view_insert(&m_before, &m, p.0 as int, nt as nat);
                    }
                    j += 1;
                } else {
                    ok = false;
                }
            }
            if ok {
                proof {
                    assert(tio.outputs@.skip(tio.outputs@.len() as int).len() == 0);
                }
                Some(m)
            } else {
                None
            }
        } else {
            None
        }
    }

    /// Fire every enabled transition of the net from `marking` and return
    /// the (transition, resulting marking) pairs in transition order.
    /// Disabled transitions fail silently and contribute nothing.  The
    /// boundedness and liveness accumulators are updated along the way.
    #[verifier::loop_isolation(false)]
    pub fn fire_transitions(
        &self,
        tios: &Vec<TransitionIO>,
        marking: &Marking,
        boundedness: &mut Boundedness,
        liveness: &mut Liveness,
    ) -> (results: Vec<(TransitionId, Marking)>)
        requires
            self.wf(),
            tios_match(tios@, self),
            marking.wf(),
            marking.places_below(self.n_places()),
            old(boundedness)@.len() == self.n_places(),
            old(liveness)@.len() == self.n_transitions(),
        ensures
            final(boundedness)@ == bounds_list(
                self,
                marking@,
                self.n_transitions(),
                old(boundedness)@,
            ),
            final(liveness)@ == live_list(self, marking@, self.n_transitions(), old(liveness)@),
            results@.len() == fire_list(self, marking@, self.n_transitions()).len(),
            forall|k: int|
                0 <= k < results@.len() ==> {
                    let fl = fire_list(self, marking@, self.n_transitions());
                    &&& (#[trigger] results@[k]).0 == fl[k].0
                    &&& abstracts(results@[k].1, fl[k].1, self.n_places())
                },
    {
        let ghost b0 = boundedness@;
        let ghost l0 = liveness@;
        let mut results: Vec<(TransitionId, Marking)> = Vec::new();
        let mut t: usize = 0;
        while t < tios.len()
            invariant
                t <= tios@.len(),
                boundedness@ == bounds_list(self, marking@, t as int, b0),
                boundedness@.len() == self.n_places(),
                liveness@ == live_list(self, marking@, t as int, l0),
                liveness@.len() == self.n_transitions(),
                results@.len() == fire_list(self, marking@, t as int).len(),
                forall|k: int|
                    0 <= k < results@.len() ==> {
                        let fl = fire_list(self, marking@, t as int);
                        &&& (#[trigger] results@[k]).0 == fl[k].0
                        &&& abstracts(results@[k].1, fl[k].1, self.n_places())
                    },
            decreases tios@.len() - t,
        {
            let tio = &tios[t];
            let ghost fl_pre = fire_list(self, marking@, t as int);
            let res = self.fire_transition(tio, marking, boundedness, Ghost(t as int));
            proof {
                lemma_io_places_in_range(self.arcs@, t as int, self.n_places(), self.n_transitions());
                lemma_put_outputs_bounds_len(
                    self,
                    t as int,
                    self.outputs_of(t as int),
                    m_after_inputs(self, t as int, marking@),
                    bounds_list(self, marking@, t as int, b0),
                );
            }
            match res {
                Some(new_marking) => {
                    liveness.update(tio.id, Live::L1);
                    results.push((tio.id, new_marking));
                    proof {
                        let fl = fire_list(self, marking@, t as int + 1);
                        assert(fl == fl_pre.push(
                            (TransitionId(t), fire(self, marking@, t as int).unwrap()),
                        ));
                        assert forall|k: int| 0 <= k < results@.len() implies {
                            &&& (#[trigger] results@[k]).0 == fl[k].0
                            &&& abstracts(results@[k].1, fl[k].1, self.n_places())
                        } by {
                            if k < results@.len() - 1 {
                                assert(fl[k] == fl_pre[k]);
                            } else {
                                assert(fl[k] == (
                                    TransitionId(t),
                                    fire(self, marking@, t as int).unwrap(),
                                ));
                            }
                        }
                    }
                },
                None => {
                    proof {
                        assert(fire_list(self, marking@, t as int + 1) == fl_pre);
                        assert(live_list(self, marking@, t as int + 1, l0) == liveness@);
                    }
                },
            }
            t += 1;
        }
        results
    }
}

/// The marking after the input phase of transition `t`, when that phase
/// succeeds; used only to name the argument of the length lemma.
pub open spec fn m_after_inputs(net: &PetriNet, t: int, m: Map<int, nat>) -> Map<int, nat> {
    match take_inputs(net, t, net.inputs_of(t), m) {
        Some(m1) => m1,
        None => m,
    }
}

} // verus!
