//! Tests of the textual rendering of ids, continuations and the report.

use petri_reach::{
    Arc, Capacities, Continuation, Marking, MarkingId, PetriNet, PlaceId, Tokens, Transition,
    TransitionId, Weights,
};

fn marking(pairs: &[(usize, usize)]) -> Marking {
    let pairs: Vec<(PlaceId, Tokens)> = pairs.iter().map(|&(p, t)| (PlaceId(p), Tokens(t))).collect();
    Marking::from_pairs(&pairs)
}

#[test]
fn marking_id_is_zero_padded() {
    assert_eq!(MarkingId(0).to_text(), "M000");
    assert_eq!(MarkingId(12).to_text(), "M012");
    assert_eq!(MarkingId(123).to_text(), "M123");
    assert_eq!(MarkingId(1234).to_text(), "M1234");
}

#[test]
fn transition_and_place_ids_render() {
    assert_eq!(TransitionId(0).to_text(), "T0");
    assert_eq!(TransitionId(41).to_text(), "T41");
    assert_eq!(PlaceId(7).to_text(), "P7");
}

#[test]
fn continuation_renders_as_arrow() {
    let c = Continuation(TransitionId(1), MarkingId(2));
    assert_eq!(c.to_text(), "T1->M002");
}

#[test]
fn report_of_two_place_chain() {
    let net = PetriNet {
        places: vec![PlaceId(0), PlaceId(1)],
        transitions: vec![Transition {
            id: TransitionId(0),
            name: "t0".to_string(),
        }],
        arcs: vec![
            Arc::PlaceTransition(PlaceId(0), TransitionId(0)),
            Arc::TransitionPlace(TransitionId(0), PlaceId(1)),
        ],
        weights: Weights { pairs: vec![] },
        capacities: Capacities { pairs: vec![] },
        initial_marking: marking(&[(0, 1)]),
    };
    let analysis = net.reachability_analysis();
    let text = analysis.to_text();
    let expected = "T0 ... t0\n\
                    \n\
                    M      P0   P1   Transitions\n\
                    M000   1    0    T0->M001\n\
                    M001   0    1    \n\
                    \n\
                    Interpretation\n\
                    M001: final\n\
                    Boundedness: 1-Bounded\n\
                    Safe: true\n\
                    Live: false\n\
                    Quasi-Live: false\n\
                    Liveness: L0 (); L1 (T0); L2 (); L3 (); L4 ()\n\
                    Loops: \n\
                    Sound: true\n";
    assert_eq!(text, expected);
}

#[test]
fn report_contains_continuation_arrow() {
    let net = PetriNet {
        places: vec![PlaceId(0), PlaceId(1)],
        transitions: vec![Transition {
            id: TransitionId(0),
            name: "move".to_string(),
        }],
        arcs: vec![
            Arc::PlaceTransition(PlaceId(0), TransitionId(0)),
            Arc::TransitionPlace(TransitionId(0), PlaceId(1)),
        ],
        weights: Weights { pairs: vec![] },
        capacities: Capacities { pairs: vec![] },
        initial_marking: marking(&[(0, 1)]),
    };
    let analysis = net.reachability_analysis();
    assert_eq!(analysis.rows[0].0.to_text(), "M000");
    let text = analysis.to_text();
    assert!(text.contains("T0->M001"));
    assert!(text.contains("M000"));
}
