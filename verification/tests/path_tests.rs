use petrivet::builder::NetBuilder;
use petrivet::marking::Marking;
use petrivet::path::{Circuit, Path};
use petrivet::system::boundedness::Boundedness;
use petrivet::{Arc, Net, Node, PetriNet, Place, Transition};

fn two_place_cycle() -> (Net, Place, Transition, Place, Transition) {
    let mut b = NetBuilder::new();
    let [p0, p1] = b.add_places();
    let [t0, t1] = b.add_transitions();
    b.add_arcs((p0, t0, p1, t1, p0));
    let net = b.build().expect("valid net");
    (net, p0, t0, p1, t1)
}

#[test]
fn path_push_alternates() {
    let (_net, p0, t0, p1, _t1) = two_place_cycle();
    let mut path = Path::new();
    assert!(path.is_empty());
    assert_eq!(path.push(Node::Place(p0)), Ok(()));
    assert_eq!(path.push(Node::Place(p1)), Err(()));
    assert_eq!(path.push(Node::Transition(t0)), Ok(()));
    assert_eq!(path.push(Node::Place(p1)), Ok(()));
    assert_eq!(path.len(), 3);
    assert_eq!(path.places(), vec![p0, p1]);
    assert_eq!(path.transitions(), vec![t0]);
    assert_eq!(
        path.arcs(),
        vec![Arc::PlaceToTransition(p0, t0), Arc::TransitionToPlace(t0, p1)]
    );
    assert_eq!(path.pop(), Some(Node::Place(p1)));
    assert_eq!(path.len(), 2);
    assert_eq!(Path::default().len(), 0);
}

#[test]
fn path_from_nodes() {
    let (_net, p0, t0, p1, _t1) = two_place_cycle();
    assert!(Path::try_from_nodes(vec![Node::Place(p0), Node::Transition(t0), Node::Place(p1)]).is_ok());
    assert!(Path::try_from_nodes(vec![Node::Place(p0), Node::Place(p1)]).is_err());
    assert!(Path::try_from_nodes(vec![]).is_ok());
}

#[test]
fn circuit_from_path() {
    let (_net, p0, t0, p1, t1) = two_place_cycle();
    let odd = Path::try_from_nodes(vec![Node::Place(p0), Node::Transition(t0), Node::Place(p1)]).unwrap();
    assert!(Circuit::try_from_path(odd).is_err());
    assert!(Circuit::try_from_path(Path::new()).is_err());
    let even = Path::try_from_nodes(vec![
        Node::Place(p0),
        Node::Transition(t0),
        Node::Place(p1),
        Node::Transition(t1),
    ])
    .unwrap();
    let c = Circuit::try_from_path(even).unwrap();
    assert_eq!(c.path().len(), 4);
    assert_eq!(
        c.arcs(),
        vec![
            Arc::PlaceToTransition(p0, t0),
            Arc::TransitionToPlace(t0, p1),
            Arc::PlaceToTransition(p1, t1),
            Arc::TransitionToPlace(t1, p0),
        ]
    );
}

#[test]
fn net_circuits_found() {
    let (net, p0, _t0, _p1, _t1) = two_place_cycle();
    let circuits = net.circuits();
    assert_eq!(circuits.len(), 1);
    assert_eq!(circuits[0].path().len(), 4);
    assert!(circuits[0].path().nodes().contains(&Node::Place(p0)));
    let mut b = NetBuilder::new();
    let [q0, q1] = b.add_places();
    let u = b.add_transition();
    b.add_arcs((q0, u, q1));
    let chain = b.build().unwrap();
    assert!(chain.circuits().is_empty());
}

#[test]
fn efficient_boundedness_dispatch() {
    let (net, p0, _t0, p1, _t1) = two_place_cycle();
    let sys = PetriNet::new(&net, Marking::from_entries(vec![(p0, 2), (p1, 1)]));
    assert_eq!(sys.is_efficiently_bounded(), Some(true));
    assert_eq!(sys.efficient_boundedness(), Some(Boundedness::Bounded(3)));
    assert_eq!(sys.efficient_place_boundedness(p0), Some(Boundedness::Bounded(3)));
    assert_eq!(sys.is_place_efficiently_bounded(p1), Some(true));
}

#[test]
fn marked_graph_place_bounds() {
    // t_src -> p_src -> t0, with the circuit t0 -> p0 -> t1 -> p1 -> t0.
    let mut b = NetBuilder::new();
    let [p_src, p0, p1] = b.add_places();
    let [t_src, t0, t1] = b.add_transitions();
    b.add_arcs((t_src, p_src, t0));
    b.add_arcs((t0, p0, t1, p1, t0));
    let net = b.build().unwrap();
    let sys = PetriNet::new(&net, Marking::from_entries(vec![(p0, 2)]));
    assert_eq!(sys.is_efficiently_bounded(), Some(false));
    assert_eq!(sys.efficient_boundedness(), Some(Boundedness::Unbounded));
    assert_eq!(sys.is_place_efficiently_bounded(p_src), Some(false));
    assert_eq!(sys.is_place_efficiently_bounded(p0), Some(true));
    assert_eq!(sys.efficient_place_boundedness(p1), Some(Boundedness::Bounded(2)));
    assert_eq!(sys.efficient_place_boundedness(p_src), Some(Boundedness::Unbounded));
}
