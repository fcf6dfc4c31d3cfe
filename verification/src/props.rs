//! The boundedness and liveness accumulators: monotone lattices updated as
//! a side effect of firing attempts during the search.  Each entry only
//! ever increases, so after the run they reflect the maximum observed value
//! across the whole explored state space.

use crate::marking::{PlaceId, Tokens};
use crate::net::PetriNet;
use vstd::pervasive::VecAdditionalExecFns;
use vstd::prelude::*;

verus! {

/// A place's observed capacity class: bounded by a concrete token count, or
/// unbounded.
#[derive(Debug, Clone, Copy, PartialEq, Eq, Hash, Structural)]
pub enum Bound {
    Bounded(Tokens),
    Unbounded,
}

/// The ordering of bounds: any bounded class lies below `Unbounded`, and
/// bounded classes compare by their token count.
pub open spec fn bound_le(a: Bound, b: Bound) -> bool {
    match (a, b) {
        (Bound::Bounded(x), Bound::Bounded(y)) => x.0 <= y.0,
        (Bound::Bounded(_), Bound::Unbounded) => true,
        (Bound::Unbounded, Bound::Bounded(_)) => false,
        (Bound::Unbounded, Bound::Unbounded) => true,
    }
}

/// The join of two bounds in the `bound_le` ordering.
pub open spec fn bound_max_spec(a: Bound, b: Bound) -> Bound {
    if bound_le(a, b) {
        b
    } else {
        a
    }
}

/// The larger of two bounds.
pub fn bound_max(a: Bound, b: Bound) -> (r: Bound)
    ensures
        r == bound_max_spec(a, b),
{
    match (a, b) {
        (Bound::Bounded(x), Bound::Bounded(y)) => if x.0 <= y.0 {
            Bound::Bounded(y)
        } else {
            Bound::Bounded(x)
        },
        (Bound::Unbounded, _) => Bound::Unbounded,
        (_, Bound::Unbounded) => Bound::Unbounded,
    }
}

impl PartialOrd for Bound {
    /// Bounds are totally ordered: bounded classes by token count, and
    /// every bounded class below `Unbounded`.
    fn partial_cmp(&self, other: &Self) -> (r: Option<core::cmp::Ordering>) {
        Some(
            match (self, other) {
                (Bound::Bounded(x), Bound::Bounded(y)) => if x.0 < y.0 {
                    core::cmp::Ordering::Less
                } else if x.0 == y.0 {
                    core::cmp::Ordering::Equal
                } else {
                    core::cmp::Ordering::Greater
                },
                (Bound::Unbounded, Bound::Unbounded) => core::cmp::Ordering::Equal,
                (Bound::Bounded(_), Bound::Unbounded) => core::cmp::Ordering::Less,
                (Bound::Unbounded, Bound::Bounded(_)) => core::cmp::Ordering::Greater,
            },
        )
    }
}

impl vstd::std_specs::cmp::PartialOrdSpecImpl for Bound {
    open spec fn obeys_partial_cmp_spec() -> bool {
        true
    }

    open spec fn partial_cmp_spec(&self, other: &Bound) -> Option<core::cmp::Ordering> {
        Some(
            match (*self, *other) {
                (Bound::Bounded(x), Bound::Bounded(y)) => if x.0 < y.0 {
                    core::cmp::Ordering::Less
                } else if x.0 == y.0 {
                    core::cmp::Ordering::Equal
                } else {
                    core::cmp::Ordering::Greater
                },
                (Bound::Unbounded, Bound::Unbounded) => core::cmp::Ordering::Equal,
                (Bound::Bounded(_), Bound::Unbounded) => core::cmp::Ordering::Less,
                (Bound::Unbounded, Bound::Bounded(_)) => core::cmp::Ordering::Greater,
            },
        )
    }
}

/// The maximum number of tokens observed on each place (index = place id)
/// at any point of the search.
#[derive(Debug)]
pub struct Boundedness(pub Vec<Bound>);

impl View for Boundedness {
    type V = Seq<Bound>;

    open spec fn view(&self) -> Seq<Bound> {
        self.0@
    }
}

impl Boundedness {
    /// Create a new accumulator with one entry per place, seeded with the
    /// token counts of the net's initial marking.
    pub fn new(net: &PetriNet) -> (b: Boundedness)
        requires
            net.wf(),
        ensures
            b@.len() == net.n_places(),
            forall|p: int|
                0 <= p < net.n_places() ==> b@[p] == Bound::Bounded(
                    Tokens(net.initial_marking.count(p) as usize),
                ),
    {
        let mut v: Vec<Bound> = Vec::new();
        let n = net.places.len();
        while v.len() < n
            invariant
                v@.len() <= n,
                forall|p: int| 0 <= p < v@.len() ==> v@[p] == Bound::Bounded(Tokens(0)),
            decreases n - v@.len(),
        {
            v.push(Bound::Bounded(Tokens(0)));
        }
        // Seed the accumulator with the initial marking
        let entries = &net.initial_marking.entries;
        let mut i: usize = 0;
        while i < entries.len()
            invariant
                net.wf(),
                entries == &net.initial_marking.entries,
                i <= entries@.len(),
                v@.len() == net.n_places(),
                forall|j: int|
                    0 <= j < i ==> v@[(#[trigger] entries@[j]).0 as int] == Bound::Bounded(
                        Tokens(entries@[j].1),
                    ),
                forall|p: int|
                    0 <= p < v@.len() && (forall|j: int|
                        0 <= j < i ==> (#[trigger] entries@[j]).0 != p) ==> v@[p]
                        == Bound::Bounded(Tokens(0)),
            decreases entries@.len() - i,
        {
            let (place, tokens) = entries[i];
            proof {
                crate::marking::lemma_count_at_index(entries@, i as int);
                assert(net.initial_marking.count(place as int) == tokens);
                assert(place < net.n_places());
            }
            v.set(place, Bound::Bounded(Tokens(tokens)));
            proof {
                assert forall|j: int|
                    0 <= j < i + 1 implies v@[(#[trigger] entries@[j]).0 as int] == Bound::Bounded(
                    Tokens(entries@[j].1),
                ) by {
                    if j < i {
                        assert(entries@[j].0 != entries@[i as int].0);
                    }
                }
            }
            i += 1;
        }
        let b = Boundedness(v);
        proof {
            assert forall|p: int|
                0 <= p < net.n_places() implies b@[p] == Bound::Bounded(
                Tokens(net.initial_marking.count(p) as usize),
            ) by {
                if crate::marking::has_place(entries@, p) {
                    let j = crate::marking::place_index(entries@, p);
                    crate::marking::lemma_count_at_index(entries@, j);
                } else {
                    assert(forall|j: int|
                        0 <= j < entries@.len() ==> (#[trigger] entries@[j]).0 != p);
                    crate::marking::lemma_count_absent(entries@, p);
                }
            }
        }
        b
    }

    /// Raise the bound recorded for a place to the join of the old value
    /// and `bound`; the entry never decreases.
    pub fn update(&mut self, place_id: PlaceId, bound: Bound)
        requires
            place_id.0 < old(self)@.len(),
        ensures
            final(self)@ == old(self)@.update(
                place_id.0 as int,
                bound_max_spec(old(self)@[place_id.0 as int], bound),
            ),
            bound_le(old(self)@[place_id.0 as int], final(self)@[place_id.0 as int]),
    {
        let cur = self.0[place_id.0];
        let m = bound_max(cur, bound);
        self.0.set(place_id.0, m);
    }
}

/// Transition liveness classes, ordered from "can never fire" up to "fires
/// forever".
#[derive(Debug, Clone, Copy, PartialEq, Eq, Hash, Structural)]
pub enum Live {
    /// Can never fire
    L0,
    /// Fires a finite and deterministic number of times
    L1,
    /// Fires a finite but non-deterministic number of times
    L2,
    /// Fires a non-deterministically finite or infinite number of times
    L3,
    /// Fires a deterministically infinite number of times
    L4,
}

/// The rank of a liveness class in the ordering L0 < L1 < L2 < L3 < L4.
pub open spec fn live_rank(l: Live) -> int {
    match l {
        Live::L0 => 0,
        Live::L1 => 1,
        Live::L2 => 2,
        Live::L3 => 3,
        Live::L4 => 4,
    }
}

/// The ordering of liveness classes.
pub open spec fn live_le(a: Live, b: Live) -> bool {
    live_rank(a) <= live_rank(b)
}

/// The join of two liveness classes.
pub open spec fn live_max_spec(a: Live, b: Live) -> Live {
    if live_le(a, b) {
        b
    } else {
        a
    }
}

/// The rank of a liveness class, as an executable value.
pub fn live_rank_exec(l: Live) -> (r: usize)
    ensures
        r == live_rank(l),
{
    match l {
        Live::L0 => 0,
        Live::L1 => 1,
        Live::L2 => 2,
        Live::L3 => 3,
        Live::L4 => 4,
    }
}

/// The larger of two liveness classes.
pub fn live_max(a: Live, b: Live) -> (r: Live)
    ensures
        r == live_max_spec(a, b),
{
    if live_rank_exec(a) <= live_rank_exec(b) {
        b
    } else {
        a
    }
}

/// The liveness class observed for each transition (index = transition id).
#[derive(Debug)]
pub struct Liveness(pub Vec<Live>);

impl View for Liveness {
    type V = Seq<Live>;

    open spec fn view(&self) -> Seq<Live> {
        self.0@
    }
}

impl Liveness {
    /// Create a new accumulator with one `L0` entry per transition.
    pub fn new(net: &PetriNet) -> (l: Liveness)
        ensures
            l@.len() == net.n_transitions(),
            forall|t: int| 0 <= t < net.n_transitions() ==> l@[t] == Live::L0,
    {
        let mut v: Vec<Live> = Vec::new();
        let n = net.transitions.len();
        while v.len() < n
            invariant
                v@.len() <= n,
                forall|t: int| 0 <= t < v@.len() ==> v@[t] == Live::L0,
            decreases n - v@.len(),
        {
            v.push(Live::L0);
        }
        Liveness(v)
    }

    /// Raise the class recorded for a transition to the join of the old
    /// value and `live`; the entry never decreases.
    pub fn update(&mut self, transition_id: crate::net::TransitionId, live: Live)
        requires
            transition_id.0 < old(self)@.len(),
        ensures
            final(self)@ == old(self)@.update(
                transition_id.0 as int,
                live_max_spec(old(self)@[transition_id.0 as int], live),
            ),
            live_le(old(self)@[transition_id.0 as int], final(self)@[transition_id.0 as int]),
    {
        let cur = self.0[transition_id.0];
        let m = live_max(cur, live);
        self.0.set(transition_id.0, m);
    }
}

} // verus!
