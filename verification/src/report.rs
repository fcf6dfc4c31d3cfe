//! The analysis/reporting layer: post-processes the completed graph into
//! deadlock classification and net-level Boolean/derived properties.

use crate::analysis::{MarkingId, ReachabilityAnalysis, Row};
use crate::marking::{lemma_count_at_index, Marking, Tokens};
use crate::net::{Arc, PetriNet};
use crate::props::{bound_le, bound_max_spec, Bound, Live};
use vstd::prelude::*;

verus! {

/// How to interpret a deadlocked marking: a desired terminal state, or an
/// undesired stuck state.
#[derive(Debug, Clone, Copy, PartialEq, Eq, Structural)]
pub enum DeadlockInterpretation {
    Final,
    Deadlock,
}

/// Place `p` has an outgoing arc to some transition of the net.
pub open spec fn has_outgoing(net: &PetriNet, p: int) -> bool {
    exists|a: int|
        0 <= a < net.arcs@.len() && ((#[trigger] net.arcs@[a]) matches Arc::PlaceTransition(src, _)
            && src.0 as int == p)
}

/// A deadlocked marking is a desired terminal state iff it holds exactly
/// one token in total, on a place with no outgoing arcs.
pub open spec fn is_final_marking(net: &PetriNet, m: Marking) -> bool {
    &&& m.entries@.len() == 1
    &&& m.entries@[0].1 == 1
    &&& !has_outgoing(net, m.entries@[0].0 as int)
}

/// The classification of one deadlocked marking.
pub open spec fn classify(net: &PetriNet, m: Marking) -> DeadlockInterpretation {
    if is_final_marking(net, m) {
        DeadlockInterpretation::Final
    } else {
        DeadlockInterpretation::Deadlock
    }
}

/// The deadlocked rows of the graph, in row order, each with its
/// classification.  A row is deadlocked iff it has no continuation.
pub open spec fn deadlocks_spec(net: &PetriNet, rows: Seq<Row>) -> Seq<
    (MarkingId, DeadlockInterpretation),
>
    decreases rows.len(),
{
    if rows.len() == 0 {
        Seq::empty()
    } else {
        let pre = deadlocks_spec(net, rows.drop_last());
        if rows.last().2@.len() == 0 {
            pre.push((rows.last().0, classify(net, rows.last().1)))
        } else {
            pre
        }
    }
}

/// The maximum of a list of bounds, `Bounded(0)` if the list is empty.
pub open spec fn seq_bound_max(s: Seq<Bound>) -> Bound
    decreases s.len(),
{
    if s.len() == 0 {
        Bound::Bounded(Tokens(0))
    } else {
        bound_max_spec(seq_bound_max(s.drop_last()), s.last())
    }
}

/// Every place is 1-bounded.
pub open spec fn safe_spec(b: Seq<Bound>) -> bool {
    forall|p: int| 0 <= p < b.len() ==> #[trigger] b[p] == Bound::Bounded(Tokens(1))
}

/// Every transition is `L4`-live.
pub open spec fn live_spec(l: Seq<Live>) -> bool {
    forall|t: int| 0 <= t < l.len() ==> #[trigger] l[t] == Live::L4
}

/// Not fully live, but at least one transition is `L4`-live.
pub open spec fn quasi_live_spec(l: Seq<Live>) -> bool {
    !live_spec(l) && exists|t: int| 0 <= t < l.len() && #[trigger] l[t] == Live::L4
}

/// Every transition fired at least once and every place held a token.
pub open spec fn sound_spec(l: Seq<Live>, b: Seq<Bound>) -> bool {
    &&& forall|t: int| 0 <= t < l.len() ==> #[trigger] l[t] != Live::L0
    &&& forall|p: int| 0 <= p < b.len() ==> !bound_le(#[trigger] b[p], Bound::Bounded(Tokens(0)))
}

impl<'net> ReachabilityAnalysis<'net> {
    /// An empty analysis of the net, with the accumulators seeded from the
    /// initial marking: the state a reachability analysis starts from.
    pub fn new(petri_net: &'net PetriNet) -> (analysis: ReachabilityAnalysis<'net>)
        requires
            petri_net.wf(),
        ensures
            analysis.petri_net == petri_net,
            analysis.rows@.len() == 0,
            analysis.boundedness@ == crate::analysis::init_bounds(petri_net),
            analysis.liveness@ == crate::analysis::init_live(petri_net),
    {
        let boundedness = crate::props::Boundedness::new(petri_net);
        let liveness = crate::props::Liveness::new(petri_net);
        proof {
            assert(boundedness@ =~= crate::analysis::init_bounds(petri_net));
            assert(liveness@ =~= crate::analysis::init_live(petri_net));
        }
        ReachabilityAnalysis { petri_net, rows: Vec::new(), boundedness, liveness }
    }

    /// Whether place `p` of the net has an outgoing arc.
    #[verifier::loop_isolation(false)]
    fn has_outgoing_arc(&self, p: usize) -> (r: bool)
        ensures
            r == has_outgoing(self.petri_net, p as int),
    {
        let net = self.petri_net;
        let mut a: usize = 0;
        while a < net.arcs.len()
            invariant
                a <= net.arcs@.len(),
                forall|x: int|
                    0 <= x < a ==> !((#[trigger] net.arcs@[x]) matches Arc::PlaceTransition(
                        src,
                        _,
                    ) && src.0 == p),
            decreases net.arcs@.len() - a,
        {
            match net.arcs[a] {
                Arc::PlaceTransition(src, _) => {
                    if src.0 == p {
                        return true;
                    }
                },
                Arc::TransitionPlace(_, _) => {},
            }
            a += 1;
        }
        false
    }

    /// The deadlocked markings of the completed graph, in row order, each
    /// classified as a desired terminal state (`Final`) or an undesired
    /// stuck state (`Deadlock`).
    #[verifier::loop_isolation(false)]
    pub fn deadlocks(&self) -> (r: Vec<(MarkingId, DeadlockInterpretation)>)
        requires
            forall|i: int| 0 <= i < self.rows@.len() ==> (#[trigger] self.rows@[i]).1.wf(),
        ensures
            r@ == deadlocks_spec(self.petri_net, self.rows@),
    {
        let mut r: Vec<(MarkingId, DeadlockInterpretation)> = Vec::new();
        let mut i: usize = 0;
        proof {
            assert(self.rows@.take(0).len() == 0);
        }
        while i < self.rows.len()
            invariant
                i <= self.rows@.len(),
                r@ == deadlocks_spec(self.petri_net, self.rows@.take(i as int)),
            decreases self.rows@.len() - i,
        {
            proof {
                assert(self.rows@.take(i as int + 1).drop_last() =~= self.rows@.take(i as int));
                assert(self.rows@.take(i as int + 1).last() == self.rows@[i as int]);
            }
            let row = &self.rows[i];
            if row.2.len() == 0 {
                let marking = &row.1;
                let interpretation = if marking.entries.len() == 1 && marking.entries[0].1 == 1
                    && !self.has_outgoing_arc(marking.entries[0].0) {
                    DeadlockInterpretation::Final
                } else {
                    DeadlockInterpretation::Deadlock
                };
                r.push((row.0, interpretation));
                proof {
                    assert(r@ =~= deadlocks_spec(self.petri_net, self.rows@.take(i as int + 1)));
                }
            }
            i += 1;
        }
        proof {
            assert(self.rows@.take(self.rows@.len() as int) =~= self.rows@);
        }
        r
    }

    /// The maximum recorded bound across all places of the net:
    /// `Unbounded` dominates every bounded class.
    #[verifier::loop_isolation(false)]
    pub fn boundedness(&self) -> (r: Bound)
        ensures
            r == seq_bound_max(self.boundedness@),
    {
        let mut r = Bound::Bounded(Tokens(0));
        let mut i: usize = 0;
        proof {
            assert(self.boundedness.0@.take(0).len() == 0);
        }
        while i < self.boundedness.0.len()
            invariant
                i <= self.boundedness.0@.len(),
                r == seq_bound_max(self.boundedness.0@.take(i as int)),
            decreases self.boundedness.0@.len() - i,
        {
            proof {
                assert(self.boundedness.0@.take(i as int + 1).drop_last() =~= self.boundedness.0@
                    .take(i as int));
                assert(self.boundedness.0@.take(i as int + 1).last() == self.boundedness.0@[
                    i as int
                ]);
            }
            r = crate::props::bound_max(r, self.boundedness.0[i]);
            i += 1;
        }
        proof {
            assert(self.boundedness.0@.take(self.boundedness.0@.len() as int) =~= self.boundedness
                .0@);
        }
        r
    }

    /// True iff every place of the net is 1-bounded: no reachable marking
    /// ever held more than one token on any place.
    #[verifier::loop_isolation(false)]
    pub fn is_safe(&self) -> (r: bool)
        ensures
            r == safe_spec(self.boundedness@),
    {
        let mut i: usize = 0;
        while i < self.boundedness.0.len()
            invariant
                i <= self.boundedness.0@.len(),
                forall|p: int|
                    0 <= p < i ==> #[trigger] self.boundedness.0@[p] == Bound::Bounded(Tokens(1)),
            decreases self.boundedness.0@.len() - i,
        {
            let b = self.boundedness.0[i];
            let safe = match b {
                Bound::Bounded(t) => t.0 == 1,
                Bound::Unbounded => false,
            };
            if !safe {
                return false;
            }
            i += 1;
        }
        true
    }

    /// True iff every transition of the net is `L4`-live.
    #[verifier::loop_isolation(false)]
    pub fn is_live(&self) -> (r: bool)
        ensures
            r == live_spec(self.liveness@),
    {
        let mut i: usize = 0;
        while i < self.liveness.0.len()
            invariant
                i <= self.liveness.0@.len(),
                forall|t: int| 0 <= t < i ==> #[trigger] self.liveness.0@[t] == Live::L4,
            decreases self.liveness.0@.len() - i,
        {
            let l = self.liveness.0[i];
            let is_l4 = match l {
                Live::L4 => true,
                _ => false,
            };
            if !is_l4 {
                return false;
            }
            i += 1;
        }
        true
    }

    /// True iff the net is not fully live but at least one transition is
    /// `L4`-live.
    #[verifier::loop_isolation(false)]
    pub fn is_quasi_live(&self) -> (r: bool)
        ensures
            r == quasi_live_spec(self.liveness@),
    {
        if self.is_live() {
            return false;
        }
        let mut i: usize = 0;
        while i < self.liveness.0.len()
            invariant
                i <= self.liveness.0@.len(),
                forall|t: int| 0 <= t < i ==> #[trigger] self.liveness.0@[t] != Live::L4,
            decreases self.liveness.0@.len() - i,
        {
            let l = self.liveness.0[i];
            let is_l4 = match l {
                Live::L4 => true,
                _ => false,
            };
            if is_l4 {
                return true;
            }
            i += 1;
        }
        false
    }

    /// The markings from which a path leads back to themselves in the
    /// graph.  Cycle detection is not part of this analysis, so the list
    /// is always empty; this is a documented limitation.
    pub fn loops(&self) -> (r: Vec<MarkingId>)
        ensures
            r@ == Seq::<MarkingId>::empty(),
    {
        Vec::new()
    }

    /// True iff every transition fired at least once (none is stuck at
    /// `L0`) and every place held at least one token at some point.
    #[verifier::loop_isolation(false)]
    pub fn is_sound(&self) -> (r: bool)
        ensures
            r == sound_spec(self.liveness@, self.boundedness@),
    {
        let mut i: usize = 0;
        while i < self.liveness.0.len()
            invariant
                i <= self.liveness.0@.len(),
                forall|t: int| 0 <= t < i ==> #[trigger] self.liveness.0@[t] != Live::L0,
            decreases self.liveness.0@.len() - i,
        {
            let l = self.liveness.0[i];
            let is_l0 = match l {
                Live::L0 => true,
                _ => false,
            };
            if is_l0 {
                return false;
            }
            i += 1;
        }
        let mut p: usize = 0;
        while p < self.boundedness.0.len()
            invariant
                p <= self.boundedness.0@.len(),
                forall|t: int| 0 <= t < self.liveness@.len() ==> #[trigger] self.liveness@[t]
                    != Live::L0,
                forall|q: int|
                    0 <= q < p ==> !bound_le(
                        #[trigger] self.boundedness.0@[q],
                        Bound::Bounded(Tokens(0)),
                    ),
            decreases self.boundedness.0@.len() - p,
        {
            let b = self.boundedness.0[p];
            let held_token = match b {
                Bound::Bounded(t) => t.0 > 0,
                Bound::Unbounded => true,
            };
            if !held_token {
                proof {
                    assert(bound_le(self.boundedness@[p as int], Bound::Bounded(Tokens(0))));
                }
                return false;
            }
            p += 1;
        }
        true
    }
}

/// A deadlocked marking with a single token on an arcless place is
/// classified `Final`; this connects the classification to the marking's
/// counts rather than its representation.
pub proof fn lemma_final_classification(net: &PetriNet, m: Marking, p: int)
    requires
        m.wf(),
        m.count(p) == 1,
        forall|q: int| q != p ==> m.count(q) == 0,
        !has_outgoing(net, p),
    ensures
        classify(net, m) == DeadlockInterpretation::Final,
{
    assert(crate::marking::has_place(m.entries@, p));
    let i = crate::marking::place_index(m.entries@, p);
    lemma_count_at_index(m.entries@, i);
    assert forall|j: int| 0 <= j < m.entries@.len() implies (#[trigger] m.entries@[j]).0 as int
        == p && j == i by {
        lemma_count_at_index(m.entries@, j);
        if m.entries@[j].0 as int != p {
            assert(m.count(m.entries@[j].0 as int) == 0);
        }
    }
    if m.entries@.len() >= 2 {
        assert(m.entries@[0].0 as int == p);
        assert(m.entries@[1].0 as int == p);
    }
    assert(m.entries@.len() == 1);
    assert(i == 0);
    assert(m.entries@[0].0 as int == p);
}

} // verus!
