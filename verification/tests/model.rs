//! Tests of the marking model, lookups and the incidence matrix.

use petri_reach::{
    Arc, Bound, Capacities, Marking, MarkingFn, PetriNet, PlaceId, Tokens, Transition,
    TransitionId, Weights,
};

fn marking(pairs: &[(usize, usize)]) -> Marking {
    let pairs: Vec<(PlaceId, Tokens)> = pairs.iter().map(|&(p, t)| (PlaceId(p), Tokens(t))).collect();
    Marking::from_pairs(&pairs)
}

#[test]
fn get_defaults_to_zero() {
    let m = Marking::new();
    assert_eq!(m.get(&PlaceId(7)).0, 0);
}

#[test]
fn set_and_get() {
    let mut m = Marking::new();
    m.set(PlaceId(3), Tokens(5));
    m.set(PlaceId(1), Tokens(2));
    assert_eq!(m.get(&PlaceId(3)).0, 5);
    assert_eq!(m.get(&PlaceId(1)).0, 2);
    assert_eq!(m.get(&PlaceId(2)).0, 0);
}

#[test]
fn set_zero_removes_entry() {
    let mut m = Marking::new();
    m.set(PlaceId(3), Tokens(5));
    m.set(PlaceId(3), Tokens(0));
    assert_eq!(m.get(&PlaceId(3)).0, 0);
    assert!(m.entries.is_empty());
}

#[test]
fn canonical_independent_of_order() {
    let mut a = Marking::new();
    a.set(PlaceId(1), Tokens(1));
    a.set(PlaceId(5), Tokens(2));
    let mut b = Marking::new();
    b.set(PlaceId(5), Tokens(2));
    b.set(PlaceId(1), Tokens(1));
    assert_eq!(a.entries, b.entries);
}

#[test]
fn later_pair_overrides_earlier() {
    let m = marking(&[(0, 1), (0, 4)]);
    assert_eq!(m.get(&PlaceId(0)).0, 4);
}

#[test]
fn covered_by_is_reflexive() {
    let m = marking(&[(0, 2), (3, 1)]);
    assert!(m.covered_by(&m));
}

#[test]
fn covered_by_superset() {
    let small = marking(&[(0, 1)]);
    let big = marking(&[(0, 2), (1, 1)]);
    assert!(small.covered_by(&big));
    assert!(!big.covered_by(&small));
}

#[test]
fn covered_by_ignores_absent_places() {
    // Places absent from the left marking need not be matched.
    let left = marking(&[(1, 1)]);
    let right = marking(&[(1, 1), (9, 7)]);
    assert!(left.covered_by(&right));
}

#[test]
fn weight_default_is_one() {
    let w = Weights { pairs: vec![] };
    let arc = Arc::PlaceTransition(PlaceId(0), TransitionId(0));
    assert_eq!(w.get_or_default(&arc).0, 1);
}

#[test]
fn weight_lookup_finds_pair() {
    let arc = Arc::TransitionPlace(TransitionId(1), PlaceId(2));
    let w = Weights {
        pairs: vec![(arc, 9)],
    };
    assert_eq!(w.get_or_default(&arc).0, 9);
    let other = Arc::TransitionPlace(TransitionId(1), PlaceId(3));
    assert_eq!(w.get_or_default(&other).0, 1);
}

#[test]
fn capacity_default_is_unlimited() {
    let c = Capacities { pairs: vec![] };
    assert_eq!(c.get_or_default(&PlaceId(0)).0, usize::MAX);
    let c2 = Capacities {
        pairs: vec![(PlaceId(0), 4)],
    };
    assert_eq!(c2.get_or_default(&PlaceId(0)).0, 4);
    assert_eq!(c2.get_or_default(&PlaceId(1)).0, usize::MAX);
}

#[test]
fn incidence_matrix_of_chain() {
    let net = PetriNet {
        places: vec![PlaceId(0), PlaceId(1)],
        transitions: vec![Transition {
            id: TransitionId(0),
            name: "t0".to_string(),
        }],
        arcs: vec![
            Arc::PlaceTransition(PlaceId(0), TransitionId(0)),
            Arc::TransitionPlace(TransitionId(0), PlaceId(1)),
        ],
        weights: Weights {
            pairs: vec![(Arc::TransitionPlace(TransitionId(0), PlaceId(1)), 3)],
        },
        capacities: Capacities { pairs: vec![] },
        initial_marking: marking(&[(0, 1)]),
    };
    let tios = net.transition_io();
    let im = net.incidence_matrix(&tios);
    assert_eq!(im.matrix.len(), 2);
    assert_eq!(im.matrix[0], vec![-1]);
    assert_eq!(im.matrix[1], vec![3]);
}

#[test]
fn bound_ordering() {
    assert!(Bound::Bounded(Tokens(1)) < Bound::Bounded(Tokens(2)));
    assert!(Bound::Bounded(Tokens(5)) < Bound::Unbounded);
    assert!(!(Bound::Unbounded < Bound::Bounded(Tokens(5))));
    assert_eq!(
        Bound::Unbounded.partial_cmp(&Bound::Unbounded),
        Some(std::cmp::Ordering::Equal)
    );
    assert_eq!(
        Bound::Bounded(Tokens(2)).partial_cmp(&Bound::Bounded(Tokens(2))),
        Some(std::cmp::Ordering::Equal)
    );
}

#[test]
fn unbounded_dominates_maximum() {
    let net = PetriNet {
        places: vec![PlaceId(0), PlaceId(1)],
        transitions: vec![],
        arcs: vec![],
        weights: Weights { pairs: vec![] },
        capacities: Capacities { pairs: vec![] },
        initial_marking: marking(&[]),
    };
    let mut analysis = petri_reach::ReachabilityAnalysis::new(&net);
    analysis.boundedness.0 = vec![Bound::Unbounded, Bound::Bounded(Tokens(3))];
    assert_eq!(analysis.boundedness(), Bound::Unbounded);
    assert!(!analysis.is_safe());
    // An unbounded place still counts as having held a token.
    analysis.liveness.0 = vec![];
    assert!(analysis.is_sound());
}
