//! Modelling, simulation and analysis of ordinary Petri nets.

pub mod analysis;
pub mod builder;
pub mod circuits;
pub mod class;
pub mod conservation;
pub mod cycles;
pub mod p_invariant;
pub mod marking;
pub mod model;
pub mod net;
pub mod ordering;
pub mod parikh;
pub mod path;
pub mod pnml;
pub mod reach;
pub mod scc;
mod seq_facts;
pub mod siphon_trap;
pub mod state_space;
pub mod system;
pub mod topology;

pub use marking::Marking;
pub use net::{Arc, Net, Node, Place, Transition};
pub use system::PetriNet;
