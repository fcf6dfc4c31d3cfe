//! The graph builder: a breadth-first exploration of every marking
//! reachable from the initial marking, with deduplication through the
//! marking table.  The result is the reachability graph in strict
//! discovery order, together with the final boundedness and liveness
//! accumulators.

use crate::fire::{abstracts, bounds_list, fire, fire_list, live_list};
use crate::marking::{
    lemma_canonical_unique, lemma_same_entries, lemma_view_index, Marking, Tokens,
};
use crate::net::{PetriNet, TransitionId};
use crate::props::{Bound, Boundedness, Live, Liveness};
use crate::table::Markings;
use vstd::prelude::*;

verus! {

/// A unique id for a marking in the reachability graph, assigned in strict
/// discovery order starting at 0.
#[derive(Debug, Clone, Copy, PartialEq, Eq, Hash, Structural)]
pub struct MarkingId(pub usize);

/// An edge of the reachability graph: a transition that can be fired,
/// and the id of the marking it leads to.
#[derive(Debug, Clone, Copy, PartialEq, Eq, Hash, Structural)]
pub struct Continuation(pub TransitionId, pub MarkingId);

/// One row of the completed graph: a marking's id, the marking itself, and
/// the continuations out of it.
pub type Row = (MarkingId, Marking, Vec<Continuation>);

/// One queued entry of the search: a discovered marking and the
/// (transition, resulting marking) pairs fireable from it.
pub type WorkEntry = (Marking, Vec<(TransitionId, Marking)>);

/// `m` can be reached from the initial marking by a firing sequence of
/// length at most `n`.
pub open spec fn reachable_in(net: &PetriNet, m: Map<int, nat>, n: nat) -> bool
    decreases n,
{
    if n == 0 {
        m == net.initial_marking@
    } else {
        reachable_in(net, m, (n - 1) as nat) || exists|m2: Map<int, nat>, t: int|
            reachable_in(net, m2, (n - 1) as nat) && 0 <= t < net.n_transitions() && fire(
                net,
                m2,
                t,
            ) == Some(m)
    }
}

/// `m` can be reached from the initial marking by some finite firing
/// sequence.
pub open spec fn reachable(net: &PetriNet, m: Map<int, nat>) -> bool {
    exists|n: nat| reachable_in(net, m, n)
}

/// Firing an enabled transition from a reachable marking reaches the
/// result.
pub proof fn lemma_step_reachable(net: &PetriNet, m2: Map<int, nat>, m: Map<int, nat>, t: int)
    requires
        reachable(net, m2),
        0 <= t < net.n_transitions(),
        fire(net, m2, t) == Some(m),
    ensures
        reachable(net, m),
{
    let n = choose|n: nat| reachable_in(net, m2, n);
    assert(reachable_in(net, m, n + 1));
}

/// An enabled transition appears in the firing list, paired with its
/// result.
pub proof fn lemma_fire_list_mem(net: &PetriNet, m: Map<int, nat>, t: int, upto: int)
    requires
        0 <= t < upto,
        fire(net, m, t).is_some(),
    ensures
        exists|k: int|
            0 <= k < fire_list(net, m, upto).len() && #[trigger] fire_list(net, m, upto)[k] == (
                TransitionId(t as usize),
                fire(net, m, t).unwrap(),
            ),
    decreases upto,
{
    let fl = fire_list(net, m, upto);
    let pre = fire_list(net, m, upto - 1);
    if t == upto - 1 {
        assert(fl[pre.len() as int] == (TransitionId(t as usize), fire(net, m, t).unwrap()));
    } else {
        lemma_fire_list_mem(net, m, t, upto - 1);
        let k = choose|k: int|
            0 <= k < pre.len() && #[trigger] pre[k] == (
                TransitionId(t as usize),
                fire(net, m, t).unwrap(),
            );
        assert(fl[k] == pre[k]);
    }
}

/// Every element of the firing list is the result of firing its
/// transition.
pub proof fn lemma_fire_list_elem(net: &PetriNet, m: Map<int, nat>, upto: int, k: int)
    requires
        0 <= k < fire_list(net, m, upto).len(),
    ensures
        exists|t: int|
            0 <= t < upto && #[trigger] fire(net, m, t) == Some(fire_list(net, m, upto)[k].1),
    decreases upto,
{
    if upto > 0 {
        let fl = fire_list(net, m, upto);
        let pre = fire_list(net, m, upto - 1);
        if k < pre.len() {
            lemma_fire_list_elem(net, m, upto - 1, k);
            assert(fl[k] == pre[k]);
        } else {
            assert(fire(net, m, upto - 1) == Some(fl[k].1));
        }
    }
}

/// Two canonical markings with the same abstract state are the same data.
pub proof fn lemma_view_injective(a: &Marking, b: &Marking)
    requires
        a.wf(),
        b.wf(),
        a@ == b@,
    ensures
        a.entries@ == b.entries@,
{
    assert forall|q: int| crate::marking::count_in(a.entries@, q) == crate::marking::count_in(
        b.entries@,
        q,
    ) by {
        lemma_view_index(a, q);
        lemma_view_index(b, q);
    }
    lemma_canonical_unique(a.entries@, b.entries@);
}

/// The branch list of a work entry is exactly the firing list of its
/// marking, with each resulting marking in canonical form.
pub open spec fn branches_ok(net: &PetriNet, m: Map<int, nat>, br: Seq<(TransitionId, Marking)>) -> bool {
    let fl = fire_list(net, m, net.n_transitions());
    &&& br.len() == fl.len()
    &&& forall|k: int|
        0 <= k < br.len() ==> (#[trigger] br[k]).0 == fl[k].0 && abstracts(
            br[k].1,
            fl[k].1,
            net.n_places(),
        )
}

/// A discovered entry is canonical, reachable, and carries its firing
/// list.
pub open spec fn entry_ok(net: &PetriNet, e: WorkEntry) -> bool {
    &&& e.0.wf()
    &&& e.0.places_below(net.n_places())
    &&& reachable(net, e.0@)
    &&& branches_ok(net, e.0@, e.1@)
}

/// The marking table holds exactly the discovered markings, each mapped to
/// its discovery index.
pub open spec fn table_matches(tbl: Map<Seq<(usize, usize)>, usize>, work: Seq<WorkEntry>) -> bool {
    &&& forall|i: int|
        0 <= i < work.len() ==> tbl.contains_key((#[trigger] work[i]).0.entries@)
            && tbl[work[i].0.entries@] == i
    &&& forall|key: Seq<(usize, usize)>| #[trigger]
        tbl.contains_key(key) ==> exists|i: int|
            0 <= i < work.len() && (#[trigger] work[i]).0.entries@ == key
}

/// A continuation mirrors a branch: same transition, and its target id
/// names the discovered copy of the branch's resulting marking.
pub open spec fn cont_ok(work: Seq<WorkEntry>, c: Continuation, br: (TransitionId, Marking)) -> bool {
    &&& c.0 == br.0
    &&& c.1.0 < work.len()
    &&& work[c.1.0 as int].0.entries@ == br.1.entries@
}

/// An emitted row mirrors its work entry: dense id, the same marking, and
/// one continuation per branch.
pub open spec fn row_matches(work: Seq<WorkEntry>, rows: Seq<Row>, i: int) -> bool {
    &&& rows[i].0.0 == i
    &&& rows[i].1.entries@ == work[i].0.entries@
    &&& rows[i].2@.len() == work[i].1@.len()
    &&& forall|k: int|
        0 <= k < rows[i].2@.len() ==> cont_ok(work, (#[trigger] rows[i].2@[k]), work[i].1@[k])
}

/// The markings of the discovered entries, in discovery order.
pub open spec fn work_maps(work: Seq<WorkEntry>) -> Seq<Map<int, nat>> {
    work.map_values(|e: WorkEntry| e.0@)
}

/// The markings of the emitted rows, in id order.
pub open spec fn rows_maps(rows: Seq<Row>) -> Seq<Map<int, nat>> {
    rows.map_values(|r: Row| r.1@)
}

/// The boundedness entries after firing every transition from each of the
/// markings `ms` in order, starting from `b`.
pub open spec fn accum_bounds(net: &PetriNet, ms: Seq<Map<int, nat>>, b: Seq<Bound>) -> Seq<Bound>
    decreases ms.len(),
{
    if ms.len() == 0 {
        b
    } else {
        bounds_list(net, ms.last(), net.n_transitions(), accum_bounds(net, ms.drop_last(), b))
    }
}

/// The liveness entries after firing every transition from each of the
/// markings `ms` in order, starting from `l`.
pub open spec fn accum_live(net: &PetriNet, ms: Seq<Map<int, nat>>, l: Seq<Live>) -> Seq<Live>
    decreases ms.len(),
{
    if ms.len() == 0 {
        l
    } else {
        live_list(net, ms.last(), net.n_transitions(), accum_live(net, ms.drop_last(), l))
    }
}

/// The boundedness entries before the search: the token counts of the
/// initial marking.
pub open spec fn init_bounds(net: &PetriNet) -> Seq<Bound> {
    Seq::new(
        net.n_places() as nat,
        |p: int| Bound::Bounded(Tokens(net.initial_marking.count(p) as usize)),
    )
}

/// The liveness entries before the search: every transition at `L0`.
pub open spec fn init_live(net: &PetriNet) -> Seq<Live> {
    Seq::new(net.n_transitions() as nat, |t: int| Live::L0)
}

/// Every marking reachable by a bounded firing sequence has been
/// discovered, once the search has expanded every discovered entry.
proof fn lemma_complete(net: &PetriNet, work: Seq<WorkEntry>, m: Map<int, nat>, n: nat)
    requires
        work.len() >= 1,
        work[0].0@ == net.initial_marking@,
        forall|i: int| 0 <= i < work.len() ==> entry_ok(net, #[trigger] work[i]),
        forall|i: int, k: int|
            0 <= i < work.len() && 0 <= k < work[i].1@.len() ==> exists|j: int|
                0 <= j < work.len() && work[j].0.entries@ == (#[trigger] work[i].1@[k]).1.entries@,
        reachable_in(net, m, n),
    ensures
        exists|i: int| 0 <= i < work.len() && (#[trigger] work[i]).0@ == m,
    decreases n,
{
    if n == 0 {
        assert(work[0].0@ == m);
    } else if reachable_in(net, m, (n - 1) as nat) {
        lemma_complete(net, work, m, (n - 1) as nat);
    } else {
        let (m2, t) = choose|m2: Map<int, nat>, t: int|
            reachable_in(net, m2, (n - 1) as nat) && 0 <= t < net.n_transitions() && #[trigger] fire(
                net,
                m2,
                t,
            ) == Some(m);
        lemma_complete(net, work, m2, (n - 1) as nat);
        let i = choose|i: int| 0 <= i < work.len() && (#[trigger] work[i]).0@ == m2;
        lemma_fire_list_mem(net, m2, t, net.n_transitions());
        let fl = fire_list(net, m2, net.n_transitions());
        let k = choose|k: int|
            0 <= k < fl.len() && #[trigger] fl[k] == (TransitionId(t as usize), fire(
                net,
                m2,
                t,
            ).unwrap());
        assert(entry_ok(net, work[i]));
        assert(abstracts(work[i].1@[k].1, fl[k].1, net.n_places()));
        let j = choose|j: int|
            0 <= j < work.len() && (#[trigger] work[j]).0.entries@ == work[i].1@[k].1.entries@;
        assert(work[j].0@ == work[i].1@[k].1@);
        assert(work[j].0@ == m);
    }
}

/// The completed result of a reachability analysis: the graph rows in
/// discovery order, and the final boundedness and liveness accumulators.
#[derive(Debug)]
pub struct ReachabilityAnalysis<'net> {
    pub petri_net: &'net PetriNet,
    pub rows: Vec<Row>,
    pub boundedness: Boundedness,
    pub liveness: Liveness,
}

/// Row `i` of a completed graph lists exactly the enabled transitions out
/// of its marking, each pointing at the row holding the resulting marking.
pub open spec fn row_conts_ok(net: &PetriNet, rows: Seq<Row>, i: int) -> bool {
    let fl = fire_list(net, rows[i].1@, net.n_transitions());
    &&& rows[i].2@.len() == fl.len()
    &&& forall|k: int|
        0 <= k < rows[i].2@.len() ==> (#[trigger] rows[i].2@[k]).0 == fl[k].0
            && rows[i].2@[k].1.0 < rows.len() && rows[rows[i].2@[k].1.0 as int].1@ == fl[k].1
}

impl<'net> ReachabilityAnalysis<'net> {
    /// The rows are a faithful reachability graph of the net: dense ids in
    /// discovery order, the initial marking first, exact continuation
    /// lists, no duplicates, and no reachable marking missing.
    pub open spec fn rows_valid(&self) -> bool {
        let net = self.petri_net;
        let rows = self.rows@;
        &&& rows.len() >= 1
        &&& rows[0].1@ == net.initial_marking@
        &&& forall|i: int| 0 <= i < rows.len() ==> (#[trigger] rows[i]).0.0 == i
        &&& forall|i: int|
            0 <= i < rows.len() ==> (#[trigger] rows[i]).1.wf() && rows[i].1.places_below(
                net.n_places(),
            )
        &&& forall|i: int| 0 <= i < rows.len() ==> #[trigger] row_conts_ok(net, rows, i)
        &&& forall|i: int, j: int| 0 <= i < j < rows.len() ==> rows[i].1@ != rows[j].1@
        &&& forall|m: Map<int, nat>|
            #[trigger] reachable(net, m) <==> exists|i: int|
                0 <= i < rows.len() && (#[trigger] rows[i]).1@ == m
    }

    /// The accumulators reflect one firing round from every discovered
    /// marking, in discovery order, over the initial seeds.
    pub open spec fn accumulators_valid(&self) -> bool {
        let net = self.petri_net;
        &&& self.boundedness@ == accum_bounds(net, rows_maps(self.rows@), init_bounds(net))
        &&& self.boundedness@.len() == net.n_places()
        &&& self.liveness@ == accum_live(net, rows_maps(self.rows@), init_live(net))
        &&& self.liveness@.len() == net.n_transitions()
    }
}

impl PetriNet {
    /// Perform a reachability analysis: explore every marking reachable
    /// from the initial marking by firing enabled transitions, assigning
    /// dense ids in breadth-first discovery order, and accumulate the
    /// boundedness and liveness observations of every firing attempt.
    ///
    /// Terminates exactly when the reachable state space is finite; an
    /// unbounded net makes the search run (and allocate) forever, which is
    /// a documented limitation of the analysis.
    #[verifier::loop_isolation(false)]
    #[verifier::rlimit(100)]
    pub fn reachability_analysis(&self) -> (analysis: ReachabilityAnalysis<'_>)
        requires
            self.wf(),
        ensures
            analysis.petri_net == self,
            analysis.rows_valid(),
            analysis.accumulators_valid(),
    {
        let mut boundedness = Boundedness::new(self);
        let mut liveness = Liveness::new(self);
        proof {
            assert(boundedness@ =~= init_bounds(self));
            assert(liveness@ =~= init_live(self));
        }
        let tios = self.transition_io();
        let mut markings = Markings::new();
        let initial = self.initial_marking.clone();
        proof {
            lemma_same_entries(&self.initial_marking, &initial);
        }
        markings.remember(&initial, 0);
        let branches = self.fire_transitions(&tios, &initial, &mut boundedness, &mut liveness);
        let mut work: Vec<WorkEntry> = Vec::new();
        work.push((initial, branches));
        let mut rows: Vec<Row> = Vec::new();
        let mut head: usize = 0;
        proof {
            assert(reachable_in(self, self.initial_marking@, 0));
            assert(reachable(self, work@[0].0@));
            let ms = work_maps(work@);
            assert(ms.len() == 1);
            assert(ms.last() == self.initial_marking@);
            assert(ms.drop_last() =~= Seq::<Map<int, nat>>::empty());
            assert(accum_bounds(self, ms.drop_last(), init_bounds(self)) == init_bounds(self));
            assert(accum_live(self, ms.drop_last(), init_live(self)) == init_live(self));
            assert(boundedness@ == accum_bounds(self, ms, init_bounds(self)));
            assert(liveness@ == accum_live(self, ms, init_live(self)));
            crate::fire::lemma_bounds_list_len(
                self,
                self.initial_marking@,
                self.n_transitions(),
                init_bounds(self),
            );
            crate::fire::lemma_live_list_len(
                self,
                self.initial_marking@,
                self.n_transitions(),
                init_live(self),
            );
            assert(entry_ok(self, work@[0]));
        }
        while head < work.len()
            invariant
                1 <= work@.len(),
                head <= work@.len(),
                rows@.len() == head,
                work@[0].0@ == self.initial_marking@,
                forall|i: int| 0 <= i < work@.len() ==> entry_ok(self, #[trigger] work@[i]),
                table_matches(markings.tbl(), work@),
                forall|i: int| 0 <= i < head ==> row_matches(work@, rows@, i),
                boundedness@ == accum_bounds(self, work_maps(work@), init_bounds(self)),
                boundedness@.len() == self.n_places(),
                liveness@ == accum_live(self, work_maps(work@), init_live(self)),
                liveness@.len() == self.n_transitions(),
                // One entry is expanded per iteration, and ids are machine
                // integers, so the expansion front is what bounds the loop;
                // in practice memory for the table is exhausted first.
            decreases usize::MAX - head,
        {
            let branch_count = work[head].1.len();
            let mut conts: Vec<Continuation> = Vec::new();
            let mut k: usize = 0;
            while k < branch_count
                invariant
                    head < work@.len(),
                    work@[0].0@ == self.initial_marking@,
                    rows@.len() == head,
                    branch_count == work@[head as int].1@.len(),
                    k <= branch_count,
                    conts@.len() == k,
                    forall|kk: int|
                        0 <= kk < k ==> cont_ok(
                            work@,
                            #[trigger] conts@[kk],
                            work@[head as int].1@[kk],
                        ),
                    forall|i: int| 0 <= i < work@.len() ==> entry_ok(self, #[trigger] work@[i]),
                    table_matches(markings.tbl(), work@),
                    forall|i: int| 0 <= i < head ==> row_matches(work@, rows@, i),
                    boundedness@ == accum_bounds(self, work_maps(work@), init_bounds(self)),
                    boundedness@.len() == self.n_places(),
                    liveness@ == accum_live(self, work_maps(work@), init_live(self)),
                    liveness@.len() == self.n_transitions(),
                decreases branch_count - k,
            {
                let entry = &work[head].1[k];
                let tid = entry.0;
                let bm = entry.1.clone();
                proof {
                    lemma_same_entries(&work@[head as int].1@[k as int].1, &bm);
                    assert(entry_ok(self, work@[head as int]));
                    assert(abstracts(
                        work@[head as int].1@[k as int].1,
                        fire_list(self, work@[head as int].0@, self.n_transitions())[k as int].1,
                        self.n_places(),
                    ));
                }
                match markings.look_up(&bm) {
                    Some(id) => {
                        proof {
                            let key = bm.entries@;
                            assert(markings.tbl().contains_key(key));
                            let j = choose|j: int|
                                0 <= j < work@.len() && (#[trigger] work@[j]).0.entries@ == key;
                            assert(markings.tbl()[key] == j);
                            assert(id == j);
                        }
                        conts.push(Continuation(tid, MarkingId(id)));
                    },
                    None => {
                        let nid = work.len();
                        markings.remember(&bm, nid);
                        let ghost bm_v = bm@;
                        let ghost b_pre = boundedness@;
                        let ghost l_pre = liveness@;
                        let nb = self.fire_transitions(
                            &tios,
                            &bm,
                            &mut boundedness,
                            &mut liveness,
                        );
                        proof {
                            crate::fire::lemma_bounds_list_len(
                                self,
                                bm_v,
                                self.n_transitions(),
                                b_pre,
                            );
                            crate::fire::lemma_live_list_len(
                                self,
                                bm_v,
                                self.n_transitions(),
                                l_pre,
                            );
                        }
                        let ghost old_work = work@;
                        work.push((bm, nb));
                        conts.push(Continuation(tid, MarkingId(nid)));
                        proof {
                            let new_entry = work@[nid as int];
                            assert(work@ == old_work.push(new_entry));
                            // The new marking is reachable: it is a firing
                            // result of the expanded entry's marking.
                            lemma_fire_list_elem(
                                self,
                                old_work[head as int].0@,
                                self.n_transitions(),
                                k as int,
                            );
                            let t = choose|t: int|
                                0 <= t < self.n_transitions() && #[trigger] fire(
                                    self,
                                    old_work[head as int].0@,
                                    t,
                                ) == Some(
                                    fire_list(
                                        self,
                                        old_work[head as int].0@,
                                        self.n_transitions(),
                                    )[k as int].1,
                                );
                            lemma_step_reachable(
                                self,
                                old_work[head as int].0@,
                                new_entry.0@,
                                t,
                            );
                            assert(entry_ok(self, new_entry));
                            // The table gained exactly the new key.
                            assert forall|key: Seq<(usize, usize)>| #[trigger]
                                markings.tbl().contains_key(key) implies exists|i: int|
                                0 <= i < work@.len() && (#[trigger] work@[i]).0.entries@
                                    == key by {
                                if key == bm.entries@ {
                                    assert(work@[nid as int].0.entries@ == key);
                                } else {
                                    let i = choose|i: int|
                                        0 <= i < old_work.len() && (#[trigger] old_work[i]).0.entries@
                                            == key;
                                    assert(work@[i].0.entries@ == key);
                                }
                            }
                            // The accumulators advanced by one firing round.
                            assert(work_maps(work@).drop_last() =~= work_maps(old_work));
                            assert(work_maps(work@).last() == new_entry.0@);
                            // Emitted rows still mirror their entries.
                            assert forall|i: int| 0 <= i < head implies row_matches(
                                work@,
                                rows@,
                                i,
                            ) by {
                                assert(row_matches(old_work, rows@, i));
                                assert forall|kk: int|
                                    0 <= kk < rows@[i].2@.len() implies cont_ok(
                                    work@,
                                    #[trigger] rows@[i].2@[kk],
                                    work@[i].1@[kk],
                                ) by {
                                    assert(cont_ok(old_work, rows@[i].2@[kk], old_work[i].1@[kk]));
                                }
                            }
                            assert forall|kk: int| 0 <= kk < k + 1 implies cont_ok(
                                work@,
                                #[trigger] conts@[kk],
                                work@[head as int].1@[kk],
                            ) by {
                                if kk < k {
                                    assert(cont_ok(old_work, conts@[kk], old_work[head as int].1@[kk]));
                                }
                            }
                        }
                    },
                }
                k += 1;
            }
            let row_marking = work[head].0.clone();
            proof {
                lemma_same_entries(&work@[head as int].0, &row_marking);
            }
            let ghost rows_before = rows@;
            let ghost conts_v = conts@;
            rows.push((MarkingId(head), row_marking, conts));
            proof {
                assert forall|i: int| 0 <= i < head + 1 implies row_matches(work@, rows@, i) by {
                    if i < head {
                        assert(row_matches(work@, rows_before, i));
                        assert(rows@[i] == rows_before[i]);
                    } else {
                        assert(rows@[i].2@ == conts_v);
                        assert(rows@[i].1.entries@ == work@[i].0.entries@);
                        assert forall|kk: int| 0 <= kk < conts_v.len() implies cont_ok(
                            work@,
                            rows@[i].2@[kk],
                            work@[i].1@[kk],
                        ) by {
                            assert(cont_ok(work@, conts_v[kk], work@[head as int].1@[kk]));
                        }
                    }
                }
            }
            head += 1;
        }
        let analysis = ReachabilityAnalysis {
            petri_net: self,
            rows,
            boundedness,
            liveness,
        };
        proof {
            let rows_v = analysis.rows@;
            let work_v = work@;
            assert forall|i: int| 0 <= i < rows_v.len() implies (#[trigger] rows_v[i]).1@
                == work_v[i].0@ && rows_v[i].0.0 == i && rows_v[i].1.wf()
                && rows_v[i].1.places_below(self.n_places()) by {
                assert(row_matches(work_v, rows_v, i));
                assert(entry_ok(self, work_v[i]));
                let a = rows_v[i].1;
                let b = work_v[i].0;
                assert(a.entries@ == b.entries@);
                lemma_same_entries(&b, &a);
                assert forall|p: int| p >= self.n_places() implies a.count(p) == 0 by {
                    assert(b.count(p) == 0);
                }
            }
            // Continuation lists are exact over the rows alone.
            assert forall|i: int| 0 <= i < rows_v.len() implies #[trigger] row_conts_ok(
                self,
                rows_v,
                i,
            ) by {
                assert(row_matches(work_v, rows_v, i));
                let fl = fire_list(self, rows_v[i].1@, self.n_transitions());
                assert(branches_ok(self, work_v[i].0@, work_v[i].1@));
                assert forall|k: int| 0 <= k < rows_v[i].2@.len() implies (#[trigger] rows_v[i].2@[k]).0
                    == fl[k].0 && rows_v[i].2@[k].1.0 < rows_v.len()
                    && rows_v[rows_v[i].2@[k].1.0 as int].1@ == fl[k].1 by {
                    assert(cont_ok(work_v, rows_v[i].2@[k], work_v[i].1@[k]));
                    let tgt = rows_v[i].2@[k].1.0 as int;
                    assert(row_matches(work_v, rows_v, tgt));
                    assert(rows_v[tgt].1@ == work_v[tgt].0@);
                    assert(work_v[tgt].0@ == work_v[i].1@[k].1@);
                    assert(abstracts(work_v[i].1@[k].1, fl[k].1, self.n_places()));
                }
            }
            // No marking is listed twice.
            assert forall|i: int, j: int| 0 <= i < j < rows_v.len() implies rows_v[i].1@
                != rows_v[j].1@ by {
                if rows_v[i].1@ == rows_v[j].1@ {
                    assert(entry_ok(self, work_v[i]));
                    assert(entry_ok(self, work_v[j]));
                    lemma_view_injective(&work_v[i].0, &work_v[j].0);
                    assert(markings.tbl()[work_v[i].0.entries@] == i);
                    assert(markings.tbl()[work_v[j].0.entries@] == j);
                }
            }
            // Every reachable marking is listed, and only reachable ones.
            assert forall|m: Map<int, nat>| #[trigger]
                reachable(self, m) implies exists|i: int|
                0 <= i < rows_v.len() && (#[trigger] rows_v[i]).1@ == m by {
                let n = choose|n: nat| reachable_in(self, m, n);
                assert forall|i: int, k: int|
                    0 <= i < work_v.len() && 0 <= k < work_v[i].1@.len() implies exists|j: int|
                    0 <= j < work_v.len() && work_v[j].0.entries@ == (#[trigger] work_v[i].1@[k]).1.entries@ by {
                    assert(row_matches(work_v, rows_v, i));
                    let c = rows_v[i].2@[k];
                    assert(cont_ok(work_v, c, work_v[i].1@[k]));
                    assert(work_v[c.1.0 as int].0.entries@ == work_v[i].1@[k].1.entries@);
                }
                lemma_complete(self, work_v, m, n);
                let i = choose|i: int| 0 <= i < work_v.len() && (#[trigger] work_v[i]).0@ == m;
                assert(rows_v[i].1@ == m);
            }
            assert forall|i: int|
                0 <= i < rows_v.len() implies reachable(self, (#[trigger] rows_v[i]).1@) by {
                assert(entry_ok(self, work_v[i]));
            }
            // The accumulators fold over the same marking sequence.
            assert(rows_maps(rows_v) =~= work_maps(work_v));
        }
        analysis
    }
}

} // verus!
