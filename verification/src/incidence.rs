//! The incidence matrix of the net: for each place and transition, the net
//! token change that one firing of the transition causes on the place.
//! This is groundwork for a linear-algebraic unboundedness check; the
//! reachability analysis itself does not consume it.

use crate::marking::PlaceId;
use crate::net::{tios_match, PetriNet, TransitionIO};
use vstd::prelude::*;

verus! {

/// The summed weight of the listed input arcs that leave place `p`.
pub open spec fn in_sum(net: &PetriNet, t: int, ins: Seq<PlaceId>, p: int) -> int
    decreases ins.len(),
{
    if ins.len() == 0 {
        0
    } else {
        in_sum(net, t, ins.drop_last(), p) + if ins.last().0 as int == p {
            net.weight_pt(p, t) as int
        } else {
            0
        }
    }
}

/// The summed weight of the listed output arcs that enter place `p`.
pub open spec fn out_sum(net: &PetriNet, t: int, outs: Seq<PlaceId>, p: int) -> int
    decreases outs.len(),
{
    if outs.len() == 0 {
        0
    } else {
        out_sum(net, t, outs.drop_last(), p) + if outs.last().0 as int == p {
            net.weight_tp(t, p) as int
        } else {
            0
        }
    }
}

/// The net token change on place `p` of one firing of transition `t`.
pub open spec fn incidence_entry(net: &PetriNet, p: int, t: int) -> int {
    out_sum(net, t, net.outputs_of(t), p) - in_sum(net, t, net.inputs_of(t), p)
}

/// All weights of the net fit comfortably in 31 bits, so that incidence
/// sums cannot overflow a 64-bit entry.
pub open spec fn small_weights(net: &PetriNet) -> bool {
    &&& forall|p: int, t: int| #[trigger] net.weight_pt(p, t) <= 0x7fff_ffff
    &&& forall|p: int, t: int| #[trigger] net.weight_tp(t, p) <= 0x7fff_ffff
    &&& net.arcs@.len() <= 0x7fff_ffff
}

/// The incidence matrix, indexed `[place][transition]`.
#[derive(Debug)]
pub struct IncidenceMatrix<'net> {
    pub petri_net: &'net PetriNet,
    pub matrix: Vec<Vec<i64>>,
}

/// Partial input sums stay within the weight bound times the arc count.
proof fn lemma_in_sum_bound(net: &PetriNet, t: int, ins: Seq<PlaceId>, p: int)
    requires
        small_weights(net),
    ensures
        -(ins.len() as int) * 0x7fff_ffff <= in_sum(net, t, ins, p) <= (ins.len() as int)
            * 0x7fff_ffff,
    decreases ins.len(),
{
    if ins.len() > 0 {
        lemma_in_sum_bound(net, t, ins.drop_last(), p);
        assert(net.weight_pt(p, t) <= 0x7fff_ffff);
    }
}

/// Partial output sums stay within the weight bound times the arc count.
proof fn lemma_out_sum_bound(net: &PetriNet, t: int, outs: Seq<PlaceId>, p: int)
    requires
        small_weights(net),
    ensures
        -(outs.len() as int) * 0x7fff_ffff <= out_sum(net, t, outs, p) <= (outs.len() as int)
            * 0x7fff_ffff,
    decreases outs.len(),
{
    if outs.len() > 0 {
        lemma_out_sum_bound(net, t, outs.drop_last(), p);
        assert(net.weight_tp(t, p) <= 0x7fff_ffff);
    }
}

/// A transition touches no more arcs than the net has.
proof fn lemma_io_len(arcs: Seq<crate::net::Arc>, t: int)
    ensures
        crate::net::arcs_inputs(arcs, t).len() <= arcs.len(),
        crate::net::arcs_outputs(arcs, t).len() <= arcs.len(),
    decreases arcs.len(),
{
    if arcs.len() > 0 {
        lemma_io_len(arcs.drop_last(), t);
    }
}

impl PetriNet {
    /// One matrix entry: the summed output weights minus the summed input
    /// weights of transition `t` at place `p`.
    #[verifier::loop_isolation(false)]
    fn incidence_entry_exec(&self, tio: &TransitionIO, p: usize, Ghost(t): Ghost<int>) -> (e: i64)
        requires
            self.wf(),
            small_weights(self),
            0 <= t < self.n_transitions(),
            tio.matches_net(self, t),
        ensures
            e == incidence_entry(self, p as int, t),
    {
        proof {
            lemma_io_len(self.arcs@, t);
        }
        let mut acc_in: i64 = 0;
        let mut k: usize = 0;
        while k < tio.inputs.len()
            invariant
                k <= tio.inputs@.len(),
                acc_in == in_sum(self, t, tio.inputs@.take(k as int), p as int),
                -(k as int) * 0x7fff_ffff <= acc_in <= (k as int) * 0x7fff_ffff,
            decreases tio.inputs@.len() - k,
        {
            let place = tio.inputs[k];
            proof {
                assert(tio.inputs@.take(k as int + 1).drop_last() =~= tio.inputs@.take(k as int));
                assert(tio.inputs@.take(k as int + 1).last() == tio.inputs@[k as int]);
            }
            if place.0 == p {
                let w = self.weights.get_or_default(
                    &crate::net::Arc::PlaceTransition(PlaceId(p), tio.id),
                );
                proof {
                    assert(PlaceId(p).0 as int == p as int);
                    assert(crate::net::TransitionId(t as usize) == tio.id);
                    assert(w.0 == self.weight_pt(p as int, t));
                }
                acc_in = acc_in + (w.0 as i64);
            }
            k += 1;
        }
        proof {
            assert(tio.inputs@.take(tio.inputs@.len() as int) =~= tio.inputs@);
        }
        let mut acc_out: i64 = 0;
        let mut k2: usize = 0;
        while k2 < tio.outputs.len()
            invariant
                k2 <= tio.outputs@.len(),
                acc_out == out_sum(self, t, tio.outputs@.take(k2 as int), p as int),
                -(k2 as int) * 0x7fff_ffff <= acc_out <= (k2 as int) * 0x7fff_ffff,
            decreases tio.outputs@.len() - k2,
        {
            let place = tio.outputs[k2];
            proof {
                assert(tio.outputs@.take(k2 as int + 1).drop_last() =~= tio.outputs@.take(
                    k2 as int,
                ));
                assert(tio.outputs@.take(k2 as int + 1).last() == tio.outputs@[k2 as int]);
            }
            if place.0 == p {
                let w = self.weights.get_or_default(
                    &crate::net::Arc::TransitionPlace(tio.id, PlaceId(p)),
                );
                proof {
                    assert(w.0 == self.weight_tp(t, p as int));
                }
                acc_out = acc_out + (w.0 as i64);
            }
            k2 += 1;
        }
        proof {
            assert(tio.outputs@.take(tio.outputs@.len() as int) =~= tio.outputs@);
            lemma_in_sum_bound(self, t, tio.inputs@, p as int);
            lemma_out_sum_bound(self, t, tio.outputs@, p as int);
        }
        acc_out - acc_in
    }

    /// Compute the incidence matrix, indexed `[place][transition]`.
    #[verifier::loop_isolation(false)]
    pub fn incidence_matrix<'net>(&'net self, transition_io: &Vec<TransitionIO>) -> (m:
        IncidenceMatrix<'net>)
        requires
            self.wf(),
            small_weights(self),
            tios_match(transition_io@, self),
        ensures
            m.petri_net == self,
            m.matrix@.len() == self.n_places(),
            forall|p: int|
                0 <= p < self.n_places() ==> (#[trigger] m.matrix@[p])@.len()
                    == self.n_transitions(),
            forall|p: int, t: int|
                0 <= p < self.n_places() && 0 <= t < self.n_transitions()
                    ==> (#[trigger] m.matrix@[p]@[t]) == incidence_entry(self, p, t),
    {
        let mut matrix: Vec<Vec<i64>> = Vec::new();
        let mut p: usize = 0;
        while p < self.places.len()
            invariant
                p <= self.places@.len(),
                matrix@.len() == p,
                forall|pp: int|
                    0 <= pp < p ==> (#[trigger] matrix@[pp])@.len() == self.n_transitions(),
                forall|pp: int, t: int|
                    0 <= pp < p && 0 <= t < self.n_transitions() ==> (#[trigger] matrix@[pp]@[t])
                        == incidence_entry(self, pp, t),
            decreases self.places@.len() - p,
        {
            let mut row: Vec<i64> = Vec::new();
            let mut t: usize = 0;
            while t < transition_io.len()
                invariant
                    t <= transition_io@.len(),
                    row@.len() == t,
                    p < self.places@.len(),
                    forall|tt: int|
                        0 <= tt < t ==> (#[trigger] row@[tt]) == incidence_entry(
                            self,
                            p as int,
                            tt,
                        ),
                decreases transition_io@.len() - t,
            {
                let e = self.incidence_entry_exec(&transition_io[t], p, Ghost(t as int));
                row.push(e);
                t += 1;
            }
            matrix.push(row);
            p += 1;
        }
        IncidenceMatrix { petri_net: self, matrix }
    }
}

} // verus!
