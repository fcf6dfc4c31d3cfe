//! Reachability analysis for Petri nets.
//!
//! A Petri net is described by places, transitions, weighted arcs, place
//! capacities and an initial token distribution.  The library explores every
//! marking reachable by firing enabled transitions, builds the reachability
//! graph, and derives boundedness, liveness, deadlock and soundness
//! properties of the net.

pub mod analysis;
pub mod fire;
pub mod incidence;
pub mod laws;
pub mod marking;
pub mod net;
pub mod props;
pub mod render;
pub mod report;
pub mod table;

pub use analysis::{Continuation, MarkingId, ReachabilityAnalysis};
pub use incidence::IncidenceMatrix;
pub use report::DeadlockInterpretation;

pub use marking::{Marking, MarkingFn, PlaceId, Tokens};
pub use net::{Arc, Capacities, PetriNet, Transition, TransitionIO, TransitionId, Weights};
pub use props::{Bound, Boundedness, Live, Liveness};
