//! The net description: places, transitions, weighted arcs, place
//! capacities and the initial marking, together with the precomputed
//! per-transition adjacency (`TransitionIO`) that the firing rule reads.

use crate::marking::{Marking, PlaceId, Tokens};
use vstd::prelude::*;

verus! {

/// Identity of a transition: a dense, zero-based index assigned once at net
/// construction.
#[derive(Debug, Clone, Copy, PartialEq, Eq, Hash, Structural)]
pub struct TransitionId(pub usize);

/// An arc of the net, either from a place into a transition or from a
/// transition out to a place.
#[derive(Debug, Clone, Copy, PartialEq, Eq, Hash, Structural)]
pub enum Arc {
    PlaceTransition(PlaceId, TransitionId),
    TransitionPlace(TransitionId, PlaceId),
}

/// A transition together with its display name.
#[derive(Debug)]
pub struct Transition {
    pub id: TransitionId,
    pub name: String,
}

/// The weight that a pair list assigns to an arc: the first matching pair
/// wins, and an arc without a pair has the default weight 1.
pub open spec fn weight_lookup(pairs: Seq<(Arc, usize)>, a: Arc) -> nat
    decreases pairs.len(),
{
    if pairs.len() == 0 {
        1
    } else if pairs[0].0 == a {
        pairs[0].1 as nat
    } else {
        weight_lookup(pairs.drop_first(), a)
    }
}

/// Arc weights: a lookup from arc to positive token weight, defaulting to 1
/// for arcs that are not listed.
#[derive(Debug)]
pub struct Weights {
    pub pairs: Vec<(Arc, usize)>,
}

impl Weights {
    /// The weight of arc `a`.
    pub open spec fn weight_of(&self, a: Arc) -> nat {
        weight_lookup(self.pairs@, a)
    }

    /// All listed weights are positive.
    pub open spec fn wf(&self) -> bool {
        forall|i: int| 0 <= i < self.pairs@.len() ==> (#[trigger] self.pairs@[i]).1 > 0
    }

    /// An empty weight table: every arc has the default weight 1.
    pub fn empty() -> (w: Weights)
        ensures
            w.wf(),
            forall|a: Arc| w.weight_of(a) == 1,
    {
        Weights { pairs: Vec::new() }
    }

    /// The weight of arc `a`, defaulting to 1 if the arc is not listed.
    pub fn get_or_default(&self, a: &Arc) -> (t: Tokens)
        ensures
            t.0 == self.weight_of(*a),
    {
        let mut i: usize = 0;
        proof {
            assert(self.pairs@.skip(0) =~= self.pairs@);
        }
        while i < self.pairs.len()
            invariant
                i <= self.pairs.len(),
                weight_lookup(self.pairs@.skip(i as int), *a) == self.weight_of(*a),
            decreases self.pairs.len() - i,
        {
            let (arc, w) = self.pairs[i];
            proof {
                assert(self.pairs@.skip(i as int)[0] == self.pairs@[i as int]);
                assert(self.pairs@.skip(i as int).drop_first() =~= self.pairs@.skip(i as int + 1));
            }
            if arc == *a {
                return Tokens(w);
            }
            i += 1;
        }
        proof {
            assert(self.pairs@.skip(self.pairs@.len() as int).len() == 0);
        }
        Tokens(1)
    }
}

/// The capacity that a pair list assigns to a place: the first matching
/// pair wins, and a place without a pair is unrestricted (`usize::MAX`).
pub open spec fn cap_lookup(pairs: Seq<(PlaceId, usize)>, p: int) -> nat
    decreases pairs.len(),
{
    if pairs.len() == 0 {
        usize::MAX as nat
    } else if pairs[0].0.0 as int == p {
        pairs[0].1 as nat
    } else {
        cap_lookup(pairs.drop_first(), p)
    }
}

/// Place capacities: a lookup from place to maximum token count, defaulting
/// to unlimited (`usize::MAX`) for places that are not listed.
#[derive(Debug)]
pub struct Capacities {
    pub pairs: Vec<(PlaceId, usize)>,
}

impl Capacities {
    /// The capacity of place `p`.
    pub open spec fn cap_of(&self, p: int) -> nat {
        cap_lookup(self.pairs@, p)
    }

    /// An empty capacity table: every place is unrestricted.
    pub fn empty() -> (c: Capacities)
        ensures
            forall|p: int| c.cap_of(p) == usize::MAX as nat,
    {
        Capacities { pairs: Vec::new() }
    }

    /// The capacity of place `id`, defaulting to `usize::MAX` if the place
    /// is not listed.
    pub fn get_or_default(&self, id: &PlaceId) -> (t: Tokens)
        ensures
            t.0 == self.cap_of(id.0 as int),
    {
        let mut i: usize = 0;
        proof {
            assert(self.pairs@.skip(0) =~= self.pairs@);
        }
        while i < self.pairs.len()
            invariant
                i <= self.pairs.len(),
                cap_lookup(self.pairs@.skip(i as int), id.0 as int) == self.cap_of(id.0 as int),
            decreases self.pairs.len() - i,
        {
            let (place, c) = self.pairs[i];
            proof {
                assert(self.pairs@.skip(i as int)[0] == self.pairs@[i as int]);
                assert(self.pairs@.skip(i as int).drop_first() =~= self.pairs@.skip(i as int + 1));
            }
            if place.0 == id.0 {
                return Tokens(c);
            }
            i += 1;
        }
        proof {
            assert(self.pairs@.skip(self.pairs@.len() as int).len() == 0);
        }
        Tokens(usize::MAX)
    }
}

/// The input places of transition `t`: the sources of all
/// place-to-transition arcs into `t`, in arc order.
pub open spec fn arcs_inputs(arcs: Seq<Arc>, t: int) -> Seq<PlaceId>
    decreases arcs.len(),
{
    if arcs.len() == 0 {
        Seq::empty()
    } else {
        let rest = arcs_inputs(arcs.drop_last(), t);
        match arcs.last() {
            Arc::PlaceTransition(p, tt) => if tt.0 as int == t {
                rest.push(p)
            } else {
                rest
            },
            Arc::TransitionPlace(_, _) => rest,
        }
    }
}

/// The output places of transition `t`: the targets of all
/// transition-to-place arcs out of `t`, in arc order.
pub open spec fn arcs_outputs(arcs: Seq<Arc>, t: int) -> Seq<PlaceId>
    decreases arcs.len(),
{
    if arcs.len() == 0 {
        Seq::empty()
    } else {
        let rest = arcs_outputs(arcs.drop_last(), t);
        match arcs.last() {
            Arc::PlaceTransition(_, _) => rest,
            Arc::TransitionPlace(tt, p) => if tt.0 as int == t {
                rest.push(p)
            } else {
                rest
            },
        }
    }
}

/// A Petri net: ordered places and transitions with dense zero-based
/// identifiers, an arc list, weight and capacity lookups, and the initial
/// marking.
#[derive(Debug)]
pub struct PetriNet {
    pub places: Vec<PlaceId>,
    pub transitions: Vec<Transition>,
    pub arcs: Vec<Arc>,
    pub weights: Weights,
    pub capacities: Capacities,
    pub initial_marking: Marking,
}

impl PetriNet {
    pub open spec fn n_places(&self) -> int {
        self.places@.len() as int
    }

    pub open spec fn n_transitions(&self) -> int {
        self.transitions@.len() as int
    }

    /// Every arc of the net joins a declared place and a declared
    /// transition.
    pub open spec fn arcs_in_range(&self) -> bool {
        forall|i: int| 0 <= i < self.arcs@.len() ==> match #[trigger] self.arcs@[i] {
            Arc::PlaceTransition(p, t) => p.0 < self.n_places() && t.0 < self.n_transitions(),
            Arc::TransitionPlace(t, p) => p.0 < self.n_places() && t.0 < self.n_transitions(),
        }
    }

    /// A well-formed net description: identifiers are dense zero-based
    /// indices, arcs stay in range, weights are positive, and the initial
    /// marking is canonical and only marks declared places.
    pub open spec fn wf(&self) -> bool {
        &&& forall|i: int| 0 <= i < self.n_places() ==> (#[trigger] self.places@[i]).0 == i
        &&& forall|i: int|
            0 <= i < self.n_transitions() ==> (#[trigger] self.transitions@[i]).id.0 == i
        &&& self.arcs_in_range()
        &&& self.weights.wf()
        &&& self.initial_marking.wf()
        &&& self.initial_marking.places_below(self.n_places())
    }

    /// The weight of the arc from place `p` into transition `t`.
    pub open spec fn weight_pt(&self, p: int, t: int) -> nat {
        self.weights.weight_of(Arc::PlaceTransition(PlaceId(p as usize), TransitionId(t as usize)))
    }

    /// The weight of the arc from transition `t` out to place `p`.
    pub open spec fn weight_tp(&self, t: int, p: int) -> nat {
        self.weights.weight_of(Arc::TransitionPlace(TransitionId(t as usize), PlaceId(p as usize)))
    }

    /// The capacity of place `p`.
    pub open spec fn cap_of(&self, p: int) -> nat {
        self.capacities.cap_of(p)
    }

    /// The input places of transition `t`, in arc order.
    pub open spec fn inputs_of(&self, t: int) -> Seq<PlaceId> {
        arcs_inputs(self.arcs@, t)
    }

    /// The output places of transition `t`, in arc order.
    pub open spec fn outputs_of(&self, t: int) -> Seq<PlaceId> {
        arcs_outputs(self.arcs@, t)
    }

    /// Create one `TransitionIO` per transition for efficient firing.  The
    /// index of each entry equals the id of its transition.
    pub fn transition_io(&self) -> (tios: Vec<TransitionIO>)
        requires
            self.wf(),
        ensures
            tios_match(tios@, self),
    {
        let mut tios: Vec<TransitionIO> = Vec::new();
        let mut t: usize = 0;
        while t < self.transitions.len()
            invariant
                self.wf(),
                t <= self.transitions.len(),
                tios@.len() == t,
                forall|k: int| 0 <= k < t ==> (#[trigger] tios@[k]).matches_net(self, k),
            decreases self.transitions.len() - t,
        {
            let id = self.transitions[t].id;
            let mut inputs: Vec<PlaceId> = Vec::new();
            let mut outputs: Vec<PlaceId> = Vec::new();
            let mut a: usize = 0;
            while a < self.arcs.len()
                invariant
                    self.wf(),
                    t < self.transitions.len(),
                    id == self.transitions@[t as int].id,
                    a <= self.arcs.len(),
                    inputs@ == arcs_inputs(self.arcs@.take(a as int), id.0 as int),
                    outputs@ == arcs_outputs(self.arcs@.take(a as int), id.0 as int),
                decreases self.arcs.len() - a,
            {
                proof {
                    assert(self.arcs@.take(a as int + 1).drop_last() =~= self.arcs@.take(a as int));
                    assert(self.arcs@.take(a as int + 1).last() == self.arcs@[a as int]);
                }
                match self.arcs[a] {
                    Arc::PlaceTransition(source, target) => {
                        if target.0 == id.0 {
                            inputs.push(source);
                        }
                    },
                    Arc::TransitionPlace(source, target) => {
                        if source.0 == id.0 {
                            outputs.push(target);
                        }
                    },
                }
                a += 1;
            }
            proof {
                assert(self.arcs@.take(self.arcs@.len() as int) =~= self.arcs@);
            }
            tios.push(TransitionIO { id, inputs, outputs });
            t += 1;
        }
        tios
    }
}

/// A transition id together with the ids of its input places and of its
/// output places, precomputed from the arc list for efficient checking of
/// whether the transition can fire from a given marking.
#[derive(Debug)]
pub struct TransitionIO {
    pub id: TransitionId,
    pub inputs: Vec<PlaceId>,
    pub outputs: Vec<PlaceId>,
}

impl TransitionIO {
    /// This entry is the precomputed adjacency of transition `t` of `net`.
    pub open spec fn matches_net(&self, net: &PetriNet, t: int) -> bool {
        &&& self.id.0 as int == t
        &&& self.inputs@ == net.inputs_of(t)
        &&& self.outputs@ == net.outputs_of(t)
    }
}

/// The adjacency list covers every transition of the net, in id order.
pub open spec fn tios_match(tios: Seq<TransitionIO>, net: &PetriNet) -> bool {
    &&& tios.len() == net.n_transitions()
    &&& forall|t: int| 0 <= t < tios.len() ==> (#[trigger] tios[t]).matches_net(net, t)
}

/// Arc places stay below the place count: the input and output lists of a
/// well-formed net's transitions only mention declared places.
pub proof fn lemma_io_places_in_range(arcs: Seq<Arc>, t: int, n_places: int, n_transitions: int)
    requires
        forall|i: int| 0 <= i < arcs.len() ==> match #[trigger] arcs[i] {
            Arc::PlaceTransition(p, tt) => p.0 < n_places && tt.0 < n_transitions,
            Arc::TransitionPlace(tt, p) => p.0 < n_places && tt.0 < n_transitions,
        },
    ensures
        forall|j: int|
            0 <= j < arcs_inputs(arcs, t).len() ==> (#[trigger] arcs_inputs(arcs, t)[j]).0
                < n_places,
        forall|j: int|
            0 <= j < arcs_outputs(arcs, t).len() ==> (#[trigger] arcs_outputs(arcs, t)[j]).0
                < n_places,
    decreases arcs.len(),
{
    if arcs.len() > 0 {
        lemma_io_places_in_range(arcs.drop_last(), t, n_places, n_transitions);
        assert(arcs[arcs.len() - 1] == arcs.last());
        let rest_in = arcs_inputs(arcs.drop_last(), t);
        let whole_in = arcs_inputs(arcs, t);
        assert forall|j: int| 0 <= j < whole_in.len() implies (#[trigger] whole_in[j]).0
            < n_places by {
            if j < rest_in.len() {
                assert(whole_in[j] == rest_in[j]);
            } else {
                assert(whole_in[j] == whole_in.last());
            }
        }
        let rest_out = arcs_outputs(arcs.drop_last(), t);
        let whole_out = arcs_outputs(arcs, t);
        assert forall|j: int| 0 <= j < whole_out.len() implies (#[trigger] whole_out[j]).0
            < n_places by {
            if j < rest_out.len() {
                assert(whole_out[j] == rest_out[j]);
            } else {
                assert(whole_out[j] == whole_out.last());
            }
        }
    }
}

} // verus!
