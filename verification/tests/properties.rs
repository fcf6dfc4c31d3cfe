//! Tests of the derived net-level properties: deadlock classification,
//! safety, liveness, soundness, boundedness.

use petri_reach::{
    Arc, Bound, Capacities, DeadlockInterpretation, Marking, MarkingFn, PetriNet, PlaceId, Tokens,
    Transition, TransitionId, Weights,
};

fn transition(id: usize, name: &str) -> Transition {
    Transition {
        id: TransitionId(id),
        name: name.to_string(),
    }
}

fn places(n: usize) -> Vec<PlaceId> {
    (0..n).map(PlaceId).collect()
}

fn marking(pairs: &[(usize, usize)]) -> Marking {
    let pairs: Vec<(PlaceId, Tokens)> = pairs.iter().map(|&(p, t)| (PlaceId(p), Tokens(t))).collect();
    Marking::from_pairs(&pairs)
}

#[test]
fn final_deadlock_classification() {
    // One place with exactly one token and no outgoing arcs: the terminal
    // marking is a desired final state.
    let net = PetriNet {
        places: places(1),
        transitions: vec![],
        arcs: vec![],
        weights: Weights { pairs: vec![] },
        capacities: Capacities { pairs: vec![] },
        initial_marking: marking(&[(0, 1)]),
    };
    let analysis = net.reachability_analysis();
    let deadlocks = analysis.deadlocks();
    assert_eq!(deadlocks.len(), 1);
    assert_eq!(deadlocks[0].0 .0, 0);
    assert_eq!(deadlocks[0].1, DeadlockInterpretation::Final);
}

#[test]
fn stuck_deadlock_classification() {
    // Two places each holding one token and no enabled transition: an
    // undesired deadlock.
    let net = PetriNet {
        places: places(2),
        transitions: vec![],
        arcs: vec![],
        weights: Weights { pairs: vec![] },
        capacities: Capacities { pairs: vec![] },
        initial_marking: marking(&[(0, 1), (1, 1)]),
    };
    let analysis = net.reachability_analysis();
    let deadlocks = analysis.deadlocks();
    assert_eq!(deadlocks.len(), 1);
    assert_eq!(deadlocks[0].1, DeadlockInterpretation::Deadlock);
}

#[test]
fn outgoing_arc_spoils_final() {
    // The terminal marking holds one token, but the place has an outgoing
    // arc, so the deadlock is not a desired final state.
    let net = PetriNet {
        places: places(1),
        transitions: vec![transition(0, "t0")],
        arcs: vec![
            Arc::PlaceTransition(PlaceId(0), TransitionId(0)),
            Arc::TransitionPlace(TransitionId(0), PlaceId(0)),
        ],
        weights: Weights {
            pairs: vec![(Arc::PlaceTransition(PlaceId(0), TransitionId(0)), 2)],
        },
        capacities: Capacities { pairs: vec![] },
        initial_marking: marking(&[(0, 1)]),
    };
    let analysis = net.reachability_analysis();
    let deadlocks = analysis.deadlocks();
    assert_eq!(deadlocks.len(), 1);
    assert_eq!(deadlocks[0].1, DeadlockInterpretation::Deadlock);
}

#[test]
fn safe_net() {
    // Capacities are all 1 and no firing can push a place above one token.
    let net = PetriNet {
        places: places(2),
        transitions: vec![transition(0, "t0")],
        arcs: vec![
            Arc::PlaceTransition(PlaceId(0), TransitionId(0)),
            Arc::TransitionPlace(TransitionId(0), PlaceId(1)),
        ],
        weights: Weights { pairs: vec![] },
        capacities: Capacities {
            pairs: vec![(PlaceId(0), 1), (PlaceId(1), 1)],
        },
        initial_marking: marking(&[(0, 1)]),
    };
    let analysis = net.reachability_analysis();
    assert!(analysis.is_safe());
    assert_eq!(analysis.boundedness(), Bound::Bounded(Tokens(1)));
}

#[test]
fn unsafe_net() {
    // P1 accumulates two tokens along the run, so the net is not safe.
    let net = PetriNet {
        places: places(2),
        transitions: vec![transition(0, "t0")],
        arcs: vec![
            Arc::PlaceTransition(PlaceId(0), TransitionId(0)),
            Arc::TransitionPlace(TransitionId(0), PlaceId(1)),
        ],
        weights: Weights {
            pairs: vec![(Arc::TransitionPlace(TransitionId(0), PlaceId(1)), 2)],
        },
        capacities: Capacities { pairs: vec![] },
        initial_marking: marking(&[(0, 1)]),
    };
    let analysis = net.reachability_analysis();
    assert!(!analysis.is_safe());
    assert_eq!(analysis.boundedness(), Bound::Bounded(Tokens(2)));
}

#[test]
fn isolated_transition_breaks_soundness() {
    // T1 can never become enabled: it stays L0 and the net is not sound.
    let net = PetriNet {
        places: places(3),
        transitions: vec![transition(0, "t0"), transition(1, "isolated")],
        arcs: vec![
            Arc::PlaceTransition(PlaceId(0), TransitionId(0)),
            Arc::TransitionPlace(TransitionId(0), PlaceId(1)),
            Arc::PlaceTransition(PlaceId(2), TransitionId(1)),
        ],
        weights: Weights { pairs: vec![] },
        capacities: Capacities { pairs: vec![] },
        initial_marking: marking(&[(0, 1)]),
    };
    let analysis = net.reachability_analysis();
    assert!(!analysis.is_sound());
}

#[test]
fn sound_net() {
    // Every transition fires at least once and every place holds a token
    // at some point.
    let net = PetriNet {
        places: places(2),
        transitions: vec![transition(0, "t0")],
        arcs: vec![
            Arc::PlaceTransition(PlaceId(0), TransitionId(0)),
            Arc::TransitionPlace(TransitionId(0), PlaceId(1)),
        ],
        weights: Weights { pairs: vec![] },
        capacities: Capacities { pairs: vec![] },
        initial_marking: marking(&[(0, 1)]),
    };
    let analysis = net.reachability_analysis();
    assert!(analysis.is_sound());
}

#[test]
fn liveness_classes_recorded() {
    let net = PetriNet {
        places: places(2),
        transitions: vec![transition(0, "t0")],
        arcs: vec![
            Arc::PlaceTransition(PlaceId(0), TransitionId(0)),
            Arc::TransitionPlace(TransitionId(0), PlaceId(1)),
        ],
        weights: Weights { pairs: vec![] },
        capacities: Capacities { pairs: vec![] },
        initial_marking: marking(&[(0, 1)]),
    };
    let analysis = net.reachability_analysis();
    // The analysis only ever assigns L0 or L1, so a net whose transitions
    // all fired is not live (no L4) and not quasi-live either.
    assert!(!analysis.is_live());
    assert!(!analysis.is_quasi_live());
    assert!(analysis.loops().is_empty());
}

#[test]
fn empty_net_boundedness() {
    let net = PetriNet {
        places: places(0),
        transitions: vec![],
        arcs: vec![],
        weights: Weights { pairs: vec![] },
        capacities: Capacities { pairs: vec![] },
        initial_marking: marking(&[]),
    };
    let analysis = net.reachability_analysis();
    assert_eq!(analysis.rows.len(), 1);
    assert_eq!(analysis.boundedness(), Bound::Bounded(Tokens(0)));
    // Over no transitions "all are L4" holds vacuously.
    assert!(analysis.is_live());
    assert!(!analysis.is_quasi_live());
}
