//! End-to-end tests of the reachability analysis on small nets.

use petri_reach::{
    Arc, Capacities, Marking, MarkingFn, PetriNet, PlaceId, Tokens, Transition, TransitionId,
    Weights,
};

fn transition(id: usize, name: &str) -> Transition {
    Transition {
        id: TransitionId(id),
        name: name.to_string(),
    }
}

fn places(n: usize) -> Vec<PlaceId> {
    (0..n).map(PlaceId).collect()
}

fn marking(pairs: &[(usize, usize)]) -> Marking {
    let pairs: Vec<(PlaceId, Tokens)> = pairs.iter().map(|&(p, t)| (PlaceId(p), Tokens(t))).collect();
    Marking::from_pairs(&pairs)
}

/// A two-place, one-transition chain: P0 -> T0 -> P1, one initial token.
fn chain_net() -> PetriNet {
    PetriNet {
        places: places(2),
        transitions: vec![transition(0, "t0")],
        arcs: vec![
            Arc::PlaceTransition(PlaceId(0), TransitionId(0)),
            Arc::TransitionPlace(TransitionId(0), PlaceId(1)),
        ],
        weights: Weights { pairs: vec![] },
        capacities: Capacities { pairs: vec![] },
        initial_marking: marking(&[(0, 1)]),
    }
}

#[test]
fn chain_rows_and_ids() {
    let net = chain_net();
    let analysis = net.reachability_analysis();
    assert_eq!(analysis.rows.len(), 2);
    assert_eq!(analysis.rows[0].0 .0, 0);
    assert_eq!(analysis.rows[1].0 .0, 1);
    // M000 is the initial marking {P0: 1}
    assert_eq!(analysis.rows[0].1.get(&PlaceId(0)).0, 1);
    assert_eq!(analysis.rows[0].1.get(&PlaceId(1)).0, 0);
    // M001 is {P1: 1}
    assert_eq!(analysis.rows[1].1.get(&PlaceId(0)).0, 0);
    assert_eq!(analysis.rows[1].1.get(&PlaceId(1)).0, 1);
    // The single continuation out of M000 fires T0 into M001
    assert_eq!(analysis.rows[0].2.len(), 1);
    assert_eq!(analysis.rows[0].2[0].0 .0, 0);
    assert_eq!(analysis.rows[0].2[0].1 .0, 1);
    assert_eq!(analysis.rows[1].2.len(), 0);
}

#[test]
fn determinism_across_runs() {
    let net = chain_net();
    let first = net.reachability_analysis();
    let second = net.reachability_analysis();
    assert_eq!(first.rows.len(), second.rows.len());
    for (a, b) in first.rows.iter().zip(second.rows.iter()) {
        assert_eq!(a.0 .0, b.0 .0);
        assert_eq!(a.1.entries, b.1.entries);
        assert_eq!(a.2.len(), b.2.len());
        for (ca, cb) in a.2.iter().zip(b.2.iter()) {
            assert_eq!(ca.0 .0, cb.0 .0);
            assert_eq!(ca.1 .0, cb.1 .0);
        }
    }
    assert_eq!(first.to_text(), second.to_text());
}

#[test]
fn conservation_under_firing() {
    // T0 moves a token from P0 to P1; P2 is untouched and keeps its token.
    let net = PetriNet {
        places: places(3),
        transitions: vec![transition(0, "t0")],
        arcs: vec![
            Arc::PlaceTransition(PlaceId(0), TransitionId(0)),
            Arc::TransitionPlace(TransitionId(0), PlaceId(1)),
        ],
        weights: Weights { pairs: vec![] },
        capacities: Capacities { pairs: vec![] },
        initial_marking: marking(&[(0, 1), (2, 1)]),
    };
    let analysis = net.reachability_analysis();
    assert_eq!(analysis.rows.len(), 2);
    let after = &analysis.rows[1].1;
    assert_eq!(after.get(&PlaceId(0)).0, 0);
    assert_eq!(after.get(&PlaceId(1)).0, 1);
    assert_eq!(after.get(&PlaceId(2)).0, 1);
}

#[test]
fn completeness_small_cycle() {
    // Two transitions shuttle one token between P0 and P1: exactly two
    // reachable markings, each listed once.
    let net = PetriNet {
        places: places(2),
        transitions: vec![transition(0, "fwd"), transition(1, "back")],
        arcs: vec![
            Arc::PlaceTransition(PlaceId(0), TransitionId(0)),
            Arc::TransitionPlace(TransitionId(0), PlaceId(1)),
            Arc::PlaceTransition(PlaceId(1), TransitionId(1)),
            Arc::TransitionPlace(TransitionId(1), PlaceId(0)),
        ],
        weights: Weights { pairs: vec![] },
        capacities: Capacities { pairs: vec![] },
        initial_marking: marking(&[(0, 1)]),
    };
    let analysis = net.reachability_analysis();
    assert_eq!(analysis.rows.len(), 2);
    // The back transition from M001 closes the cycle to M000
    assert_eq!(analysis.rows[1].2.len(), 1);
    assert_eq!(analysis.rows[1].2[0].1 .0, 0);
    // No marking appears twice
    assert_ne!(analysis.rows[0].1.entries, analysis.rows[1].1.entries);
}

#[test]
fn weighted_firing() {
    // T0 consumes two tokens from P0 and produces three on P1.
    let net = PetriNet {
        places: places(2),
        transitions: vec![transition(0, "t0")],
        arcs: vec![
            Arc::PlaceTransition(PlaceId(0), TransitionId(0)),
            Arc::TransitionPlace(TransitionId(0), PlaceId(1)),
        ],
        weights: Weights {
            pairs: vec![
                (Arc::PlaceTransition(PlaceId(0), TransitionId(0)), 2),
                (Arc::TransitionPlace(TransitionId(0), PlaceId(1)), 3),
            ],
        },
        capacities: Capacities { pairs: vec![] },
        initial_marking: marking(&[(0, 3)]),
    };
    let analysis = net.reachability_analysis();
    // {P0:3} -> {P0:1, P1:3}; then T0 is disabled (needs 2 tokens).
    assert_eq!(analysis.rows.len(), 2);
    let after = &analysis.rows[1].1;
    assert_eq!(after.get(&PlaceId(0)).0, 1);
    assert_eq!(after.get(&PlaceId(1)).0, 3);
    assert_eq!(analysis.rows[1].2.len(), 0);
}

#[test]
fn capacity_disables_transition() {
    // P1 has capacity 1 and already holds a token: T0 cannot fire.
    let net = PetriNet {
        places: places(2),
        transitions: vec![transition(0, "t0")],
        arcs: vec![
            Arc::PlaceTransition(PlaceId(0), TransitionId(0)),
            Arc::TransitionPlace(TransitionId(0), PlaceId(1)),
        ],
        weights: Weights { pairs: vec![] },
        capacities: Capacities {
            pairs: vec![(PlaceId(1), 1)],
        },
        initial_marking: marking(&[(0, 1), (1, 1)]),
    };
    let analysis = net.reachability_analysis();
    assert_eq!(analysis.rows.len(), 1);
    assert_eq!(analysis.rows[0].2.len(), 0);
}

#[test]
fn fire_transitions_directly() {
    let net = chain_net();
    let tios = net.transition_io();
    let mut boundedness = petri_reach::Boundedness::new(&net);
    let mut liveness = petri_reach::Liveness::new(&net);
    let start = marking(&[(0, 1)]);
    let results = net.fire_transitions(&tios, &start, &mut boundedness, &mut liveness);
    assert_eq!(results.len(), 1);
    assert_eq!(results[0].0 .0, 0);
    assert_eq!(results[0].1.get(&PlaceId(0)).0, 0);
    assert_eq!(results[0].1.get(&PlaceId(1)).0, 1);
    // the start marking is untouched
    assert_eq!(start.get(&PlaceId(0)).0, 1);
}
