# petrivet

A library for modelling, simulating and analysing ordinary Petri nets (no arc
weights, no place capacities), written in Verus: the functions of `src/` are
verified by Verus, the public ones against `requires`/`ensures` contracts that
state what they compute.

## Layout

- `src/net.rs`, `src/builder.rs`, `src/class.rs`, `src/topology.rs`: nets, their
  construction with `NetBuilder`, and their structural classes (circuit, state
  machine, marked graph, free choice, asymmetric choice).
- `src/marking.rs`, `src/parikh.rs`, `src/system.rs`: markings (canonical sparse
  maps from places to token counts), Parikh vectors, and systems `(N, M₀)` that
  fire transitions.
- `src/state_space.rs`: reachability graphs and Karp–Miller coverability graphs,
  with the proofs that a complete reachability graph holds exactly the reachable
  markings and that a complete coverability graph covers every reachable
  marking; exploration runs to completion unless the graph outgrows what a
  machine word can count.
- `src/system/`: boundedness, deadlock-freedom, liveness levels and reachability
  queries, each dispatching to a polynomial procedure where the net's class
  allows one and to the state space otherwise; reachability and coverability
  verdicts with their evidence, taking the outcomes of the marking-equation
  filters as arguments; maximal siphons and traps; the exact check of an
  implicit-place certificate, with the law that a certified place is never the
  only place disabling one of its output transitions.
- `src/siphon_trap.rs`, `src/conservation.rs`: siphons, traps and token
  conservation, with the laws that an unmarked siphon stays unmarked, a marked
  trap stays marked, a state machine keeps its token total and a marked graph
  keeps the tokens on each circuit.
- `src/path.rs`, `src/circuits.rs`, `src/cycles.rs`, `src/reach.rs`, `src/scc.rs`:
  paths and circuits, cycle detection, reachability in directed graphs, and the
  calls into `graph-cycles` and `petgraph` behind trusted wrappers.
- `src/ordering.rs`: the Reverse Cuthill–McKee order in which `NetBuilder::build`
  numbers a net's nodes, stated as a breadth-first order from the node where the
  George–Liu search for a pseudo-peripheral node ends, enqueueing neighbours by
  nondecreasing degree.
- `src/pnml/`: the PNML data model for place/transition nets, its conversion to
  a net and initial marking (nested pages flattened, reference chains resolved,
  duplicate identifiers and dangling arcs rejected), the net labels that carry
  document identifiers and names, and the export of a net that reuses the
  labelled identifiers and names and generates pairwise distinct identifiers
  for the rest, with the law that a document with unique identifiers keeps
  its identifiers and names through conversion and export.
- `src/model/`: the verdict and certificate model (queries, certificates and
  their checkers, the accept gate).
- `app/`: serde-enabled copies of the wire types and of the PNML model, PNML
  XML reading and writing with `quick-xml`, and what needs floating point.
- `tests/`: executable tests of the library.
