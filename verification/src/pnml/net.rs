//! The net-level elements of the PNML data model.

use vstd::prelude::*;
use crate::pnml::{ArcType, NaturalNumberLabel, Page, PositiveIntegerLabel, ToolSpecific};

verus! {

/// A `<net>` element.
#[derive(Debug)]
pub struct PnmlNet {
    pub id: String,
    pub net_type: String,
    pub name: Option<String>,
    pub pages: Vec<Page>,
    pub tool_specific: Vec<ToolSpecific>,
}

/// A `<place>` element.
#[derive(Debug, Clone, PartialEq, Eq)]
pub struct Place {
    pub id: String,
    pub name: Option<String>,
    pub initial_marking: Option<NaturalNumberLabel>,
}

/// A `<transition>` element.
#[derive(Debug, Clone, PartialEq, Eq)]
pub struct Transition {
    pub id: String,
    pub name: Option<String>,
}

/// An `<arc>` element, from the node named by `source` to the node named by
/// `target`.
#[derive(Debug, Clone, PartialEq, Eq)]
pub struct Arc {
    pub id: String,
    pub source: String,
    pub target: String,
    pub name: Option<String>,
    pub inscription: Option<PositiveIntegerLabel>,
    pub arc_type: Option<ArcType>,
}

} // verus!
