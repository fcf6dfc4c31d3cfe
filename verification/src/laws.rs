//! Net-level laws of the analysis, stated and proved once and for all:
//! conservation of untouched places under firing, monotonicity of the
//! boundedness accumulator over a whole run, and determinism of the
//! reachability graph relative to its discovery order.

use crate::analysis::{accum_bounds, ReachabilityAnalysis};
use crate::fire::{
    bounds_list, fire, fire_bounds, fire_list, put_outputs, put_outputs_bounds, take_inputs,
};
use crate::marking::PlaceId;
use crate::net::{lemma_io_places_in_range, PetriNet};
use crate::props::{bound_le, Bound};
use vstd::prelude::*;

verus! {

/// The input phase does not touch places that are not input places.
proof fn lemma_take_inputs_frame(
    net: &PetriNet,
    t: int,
    ins: Seq<PlaceId>,
    m: Map<int, nat>,
    p: int,
)
    requires
        forall|j: int| 0 <= j < ins.len() ==> (#[trigger] ins[j]).0 as int != p,
        take_inputs(net, t, ins, m).is_some(),
    ensures
        take_inputs(net, t, ins, m).unwrap()[p] == m[p],
    decreases ins.len(),
{
    if ins.len() > 0 {
        let q = ins[0].0 as int;
        let w = net.weight_pt(q, t);
        let m1 = m.insert(q, (m[q] - w) as nat);
        assert(forall|j: int|
            0 <= j < ins.drop_first().len() ==> (#[trigger] ins.drop_first()[j]).0 as int != p);
        lemma_take_inputs_frame(net, t, ins.drop_first(), m1, p);
    }
}

/// The output phase does not touch places that are not output places.
proof fn lemma_put_outputs_frame(
    net: &PetriNet,
    t: int,
    outs: Seq<PlaceId>,
    m: Map<int, nat>,
    p: int,
)
    requires
        forall|j: int| 0 <= j < outs.len() ==> (#[trigger] outs[j]).0 as int != p,
        put_outputs(net, t, outs, m).is_some(),
    ensures
        put_outputs(net, t, outs, m).unwrap()[p] == m[p],
    decreases outs.len(),
{
    if outs.len() > 0 {
        let q = outs[0].0 as int;
        let w = net.weight_tp(t, q);
        let m1 = m.insert(q, (m[q] + w) as nat);
        assert(forall|j: int|
            0 <= j < outs.drop_first().len() ==> (#[trigger] outs.drop_first()[j]).0 as int != p);
        lemma_put_outputs_frame(net, t, outs.drop_first(), m1, p);
    }
}

/// Conservation under firing: firing a transition never changes the token
/// count of a place that is neither an input nor an output place of that
/// transition.  Input sufficiency and output capacity are checked before
/// anything commits, by the definition of `fire` itself.
pub proof fn lemma_fire_conserves(net: &PetriNet, m: Map<int, nat>, t: int, p: int)
    requires
        fire(net, m, t).is_some(),
        forall|j: int|
            0 <= j < net.inputs_of(t).len() ==> (#[trigger] net.inputs_of(t)[j]).0 as int != p,
        forall|j: int|
            0 <= j < net.outputs_of(t).len() ==> (#[trigger] net.outputs_of(t)[j]).0 as int != p,
    ensures
        fire(net, m, t).unwrap()[p] == m[p],
{
    let m1 = take_inputs(net, t, net.inputs_of(t), m).unwrap();
    lemma_take_inputs_frame(net, t, net.inputs_of(t), m, p);
    lemma_put_outputs_frame(net, t, net.outputs_of(t), m1, p);
}

/// One output phase never lowers a boundedness entry.
proof fn lemma_put_outputs_bounds_mono(
    net: &PetriNet,
    t: int,
    outs: Seq<PlaceId>,
    m: Map<int, nat>,
    b: Seq<Bound>,
    p: int,
)
    requires
        0 <= p < b.len(),
        forall|k: int| 0 <= k < outs.len() ==> (#[trigger] outs[k]).0 < b.len(),
    ensures
        bound_le(b[p], put_outputs_bounds(net, t, outs, m, b)[p]),
        put_outputs_bounds(net, t, outs, m, b).len() == b.len(),
    decreases outs.len(),
{
    if outs.len() > 0 {
        let q = outs[0].0 as int;
        let w = net.weight_tp(t, q);
        let c = net.cap_of(q);
        if w <= c && m[q] <= c - w {
            let nt = (m[q] + w) as nat;
            let b1 = b.update(
                q,
                crate::props::bound_max_spec(b[q], Bound::Bounded(crate::marking::Tokens(nt as usize))),
            );
            assert(bound_le(b[p], b1[p]));
            assert(forall|k: int|
                0 <= k < outs.drop_first().len() ==> (#[trigger] outs.drop_first()[k]).0
                    < b1.len());
            lemma_put_outputs_bounds_mono(net, t, outs.drop_first(), m.insert(q, nt), b1, p);
        }
    }
}

/// One firing attempt never lowers a boundedness entry.
pub proof fn lemma_fire_bounds_mono(net: &PetriNet, m: Map<int, nat>, t: int, b: Seq<Bound>, p: int)
    requires
        net.wf(),
        b.len() == net.n_places(),
        0 <= p < b.len(),
    ensures
        bound_le(b[p], fire_bounds(net, m, t, b)[p]),
{
    lemma_io_places_in_range(net.arcs@, t, net.n_places(), net.n_transitions());
    match take_inputs(net, t, net.inputs_of(t), m) {
        Some(m1) => {
            lemma_put_outputs_bounds_mono(net, t, net.outputs_of(t), m1, b, p);
        },
        None => {},
    }
}

/// One round of firing attempts never lowers a boundedness entry.
proof fn lemma_bounds_list_mono(net: &PetriNet, m: Map<int, nat>, upto: int, b: Seq<Bound>, p: int)
    requires
        net.wf(),
        b.len() == net.n_places(),
        0 <= p < b.len(),
    ensures
        bound_le(b[p], bounds_list(net, m, upto, b)[p]),
        bounds_list(net, m, upto, b).len() == b.len(),
    decreases upto,
{
    crate::fire::lemma_bounds_list_len(net, m, upto, b);
    if upto > 0 {
        lemma_bounds_list_mono(net, m, upto - 1, b, p);
        let pre = bounds_list(net, m, upto - 1, b);
        lemma_fire_bounds_mono(net, m, upto - 1, pre, p);
    }
}

/// Coverage monotonicity for the whole run: the boundedness entry of every
/// place only ever rises as the search fires from one more marking.
pub proof fn lemma_accum_bounds_monotone(
    net: &PetriNet,
    ms: Seq<Map<int, nat>>,
    b: Seq<Bound>,
    p: int,
)
    requires
        net.wf(),
        b.len() == net.n_places(),
        0 <= p < b.len(),
    ensures
        bound_le(b[p], accum_bounds(net, ms, b)[p]),
        accum_bounds(net, ms, b).len() == b.len(),
    decreases ms.len(),
{
    if ms.len() > 0 {
        lemma_accum_bounds_monotone(net, ms.drop_last(), b, p);
        let pre = accum_bounds(net, ms.drop_last(), b);
        lemma_bounds_list_mono(net, ms.last(), net.n_transitions(), pre, p);
    }
}

/// The analysis lists marking `m` among its rows.
pub open spec fn lists_marking(a: &ReachabilityAnalysis, m: Map<int, nat>) -> bool {
    exists|i: int| 0 <= i < a.rows@.len() && (#[trigger] a.rows@[i]).1@ == m
}

/// Determinism of the explored state space: two completed analyses of the
/// same net list exactly the same markings — each lists precisely the
/// reachable ones.
pub proof fn lemma_same_markings(a: &ReachabilityAnalysis, b: &ReachabilityAnalysis)
    requires
        a.petri_net == b.petri_net,
        a.rows_valid(),
        b.rows_valid(),
    ensures
        forall|m: Map<int, nat>| #[trigger] lists_marking(a, m) <==> lists_marking(b, m),
{
    assert forall|m: Map<int, nat>| #[trigger] lists_marking(a, m) <==> lists_marking(b, m) by {
        assert(crate::analysis::reachable(a.petri_net, m) <==> exists|i: int|
            0 <= i < a.rows@.len() && (#[trigger] a.rows@[i]).1@ == m);
        assert(crate::analysis::reachable(b.petri_net, m) <==> exists|j: int|
            0 <= j < b.rows@.len() && (#[trigger] b.rows@[j]).1@ == m);
    }
}

/// Determinism: the reachability graph is fully determined by the order in
/// which its markings were discovered.  Two completed analyses of the same
/// net that list the same markings in the same order have identical id
/// assignments and identical continuation lists.
pub proof fn lemma_rows_determined(a: &ReachabilityAnalysis, b: &ReachabilityAnalysis)
    requires
        a.petri_net == b.petri_net,
        a.rows_valid(),
        b.rows_valid(),
        a.rows@.len() == b.rows@.len(),
        forall|i: int| 0 <= i < a.rows@.len() ==> (#[trigger] a.rows@[i]).1@ == b.rows@[i].1@,
    ensures
        forall|i: int| 0 <= i < a.rows@.len() ==> (#[trigger] a.rows@[i]).0 == b.rows@[i].0,
        forall|i: int| 0 <= i < a.rows@.len() ==> (#[trigger] a.rows@[i]).2@ == b.rows@[i].2@,
{
    let net = a.petri_net;
    let ra = a.rows@;
    let rb = b.rows@;
    assert forall|i: int| 0 <= i < ra.len() implies (#[trigger] ra[i]).0 == rb[i].0 by {
        assert(ra[i].0.0 == i);
        assert(rb[i].0.0 == i);
    }
    assert forall|i: int| 0 <= i < ra.len() implies (#[trigger] ra[i]).2@ == rb[i].2@ by {
        assert(crate::analysis::row_conts_ok(net, ra, i));
        assert(crate::analysis::row_conts_ok(net, rb, i));
        let fl = fire_list(net, ra[i].1@, net.n_transitions());
        assert(fire_list(net, rb[i].1@, net.n_transitions()) == fl);
        assert forall|k: int| 0 <= k < ra[i].2@.len() implies #[trigger] ra[i].2@[k]
            == rb[i].2@[k] by {
            let ta = ra[i].2@[k].1.0 as int;
            let tb = rb[i].2@[k].1.0 as int;
            assert(ra[ta].1@ == fl[k].1);
            assert(rb[tb].1@ == fl[k].1);
            assert(ra[tb].1@ == fl[k].1);
            if ta != tb {
                if ta < tb {
                    assert(ra[ta].1@ != ra[tb].1@);
                } else {
                    assert(ra[tb].1@ != ra[ta].1@);
                }
            }
        }
        assert(ra[i].2@ =~= rb[i].2@);
    }
}

/// Place `p` occurs in the place list.
pub open spec fn in_list(ps: Seq<PlaceId>, p: int) -> bool {
    exists|j: int| 0 <= j < ps.len() && (#[trigger] ps[j]).0 as int == p
}

/// No place occurs twice in the list.
pub open spec fn distinct_places(ps: Seq<PlaceId>) -> bool {
    forall|j: int, k: int| 0 <= j < k < ps.len() ==> (#[trigger] ps[j]).0 != (#[trigger] ps[k]).0
}

/// With duplicate-free inputs, the input phase subtracts exactly one arc
/// weight from each input place and nothing from any other place.
proof fn lemma_take_inputs_effect(
    net: &PetriNet,
    t: int,
    ins: Seq<PlaceId>,
    m: Map<int, nat>,
    p: int,
)
    requires
        distinct_places(ins),
        take_inputs(net, t, ins, m).is_some(),
    ensures
        take_inputs(net, t, ins, m).unwrap()[p] as int == m[p] as int - (if in_list(ins, p) {
            net.weight_pt(p, t) as int
        } else {
            0
        }),
    decreases ins.len(),
{
    if ins.len() == 0 {
        assert(!in_list(ins, p));
    } else {
        let q = ins[0].0 as int;
        let w = net.weight_pt(q, t);
        let m1 = m.insert(q, (m[q] - w) as nat);
        let tail = ins.drop_first();
        assert(forall|j: int| 0 <= j < tail.len() ==> tail[j] == ins[j + 1]);
        assert(distinct_places(tail));
        lemma_take_inputs_effect(net, t, tail, m1, p);
        if p == q {
            assert(in_list(ins, p));
            assert(!in_list(tail, p)) by {
                if in_list(tail, p) {
                    let j = choose|j: int| 0 <= j < tail.len() && (#[trigger] tail[j]).0 as int == p;
                    assert(ins[0].0 != ins[j + 1].0);
                }
            }
        } else {
            assert(m1[p] == m[p]);
            assert(in_list(ins, p) == in_list(tail, p)) by {
                if in_list(ins, p) {
                    let j = choose|j: int| 0 <= j < ins.len() && (#[trigger] ins[j]).0 as int == p;
                    assert(j != 0);
                    assert(tail[j - 1].0 as int == p);
                }
                if in_list(tail, p) {
                    let j = choose|j: int| 0 <= j < tail.len() && (#[trigger] tail[j]).0 as int == p;
                    assert(ins[j + 1].0 as int == p);
                }
            }
        }
    }
}

/// With duplicate-free outputs, the output phase adds exactly one arc
/// weight to each output place and nothing to any other place.
proof fn lemma_put_outputs_effect(
    net: &PetriNet,
    t: int,
    outs: Seq<PlaceId>,
    m: Map<int, nat>,
    p: int,
)
    requires
        distinct_places(outs),
        put_outputs(net, t, outs, m).is_some(),
    ensures
        put_outputs(net, t, outs, m).unwrap()[p] as int == m[p] as int + (if in_list(outs, p) {
            net.weight_tp(t, p) as int
        } else {
            0
        }),
    decreases outs.len(),
{
    if outs.len() == 0 {
        assert(!in_list(outs, p));
    } else {
        let q = outs[0].0 as int;
        let w = net.weight_tp(t, q);
        let m1 = m.insert(q, (m[q] + w) as nat);
        let tail = outs.drop_first();
        assert(forall|j: int| 0 <= j < tail.len() ==> tail[j] == outs[j + 1]);
        assert(distinct_places(tail));
        lemma_put_outputs_effect(net, t, tail, m1, p);
        if p == q {
            assert(in_list(outs, p));
            assert(!in_list(tail, p)) by {
                if in_list(tail, p) {
                    let j = choose|j: int| 0 <= j < tail.len() && (#[trigger] tail[j]).0 as int == p;
                    assert(outs[0].0 != outs[j + 1].0);
                }
            }
        } else {
            assert(m1[p] == m[p]);
            assert(in_list(outs, p) == in_list(tail, p)) by {
                if in_list(outs, p) {
                    let j = choose|j: int| 0 <= j < outs.len() && (#[trigger] outs[j]).0 as int == p;
                    assert(j != 0);
                    assert(tail[j - 1].0 as int == p);
                }
                if in_list(tail, p) {
                    let j = choose|j: int| 0 <= j < tail.len() && (#[trigger] tail[j]).0 as int == p;
                    assert(outs[j + 1].0 as int == p);
                }
            }
        }
    }
}

/// The token-count balance of one firing: when the transition's input and
/// output place lists are duplicate-free, a successful firing changes each
/// place by exactly the outgoing arc weight minus the incoming arc weight,
/// and leaves every other place untouched.
pub proof fn lemma_fire_effect(net: &PetriNet, m: Map<int, nat>, t: int, p: int)
    requires
        fire(net, m, t).is_some(),
        distinct_places(net.inputs_of(t)),
        distinct_places(net.outputs_of(t)),
    ensures
        fire(net, m, t).unwrap()[p] as int == m[p] as int - (if in_list(net.inputs_of(t), p) {
            net.weight_pt(p, t) as int
        } else {
            0
        }) + (if in_list(net.outputs_of(t), p) {
            net.weight_tp(t, p) as int
        } else {
            0
        }),
{
    let m1 = take_inputs(net, t, net.inputs_of(t), m).unwrap();
    lemma_take_inputs_effect(net, t, net.inputs_of(t), m, p);
    lemma_put_outputs_effect(net, t, net.outputs_of(t), m1, p);
}

} // verus!
