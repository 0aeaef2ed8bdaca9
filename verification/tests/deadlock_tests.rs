use petrivet::builder::NetBuilder;
use petrivet::marking::Marking;
use petrivet::parikh::ParikhVector;
use petrivet::{Net, PetriNet, Place, Transition};

fn two_place_cycle() -> (Net, Place, Transition, Place, Transition) {
    let mut b = NetBuilder::new();
    let [p0, p1] = b.add_places();
    let [t0, t1] = b.add_transitions();
    b.add_arcs((p0, t0, p1, t1, p0));
    let net = b.build().expect("valid net");
    (net, p0, t0, p1, t1)
}

#[test]
fn initial_marking_deadlock_is_detected() {
    let (net, p0, _t0, _p1, _t1) = two_place_cycle();
    let dead = PetriNet::new(&net, Marking::empty());
    assert!(!dead.is_deadlock_free(), "an m0 deadlock must be detected");
    assert!(
        dead.deadlocks().next().is_some(),
        "deadlocks() must yield the initial deadlock marking"
    );
    let live = PetriNet::new(&net, Marking::from_entries(vec![(p0, 1)]));
    assert!(live.is_deadlock_free(), "a live marked cycle is deadlock-free");
    assert!(live.deadlocks().next().is_none(), "a live marked cycle has no deadlock");
}

#[test]
fn reachable_deadlock_found_by_exploration() {
    // p0 -> t0 -> p1, and a choice at p0: t1 -> p2 which feeds nothing.
    let mut b = NetBuilder::new();
    let [p0, p1, p2] = b.add_places();
    let [t0, t1, t2] = b.add_transitions();
    b.add_arcs((p0, t0, p1, t2, p0));
    b.add_arcs((p0, t1, p2));
    let net = b.build().unwrap();
    let sys = PetriNet::new(&net, Marking::from_entries(vec![(p0, 1)]));
    assert_eq!(sys.is_efficiently_deadlock_free(), None);
    assert!(!sys.is_deadlock_free());
    let mut found = sys.deadlocks();
    assert_eq!(found.next(), Some(Marking::from_entries(vec![(p2, 1)])));
    assert_eq!(found.next(), None);
}

#[test]
fn efficient_deadlock_freedom() {
    let (net, p0, _t0, _p1, _t1) = two_place_cycle();
    let sys = PetriNet::new(&net, Marking::from_entries(vec![(p0, 1)]));
    assert_eq!(sys.is_efficiently_deadlock_free(), Some(true));
}

#[test]
fn parikh_vector_counts() {
    let (_net, _p0, t0, _p1, t1) = two_place_cycle();
    let v = ParikhVector::from_entries(vec![(t1, 2u32), (t0, 0), (t0, 3), (t0, 5)]);
    assert_eq!(v.get(t0), 3);
    assert_eq!(v.get(t1), 2);
    assert_eq!(v.total_firings(), 5);
    assert_eq!(v.support(), vec![t0, t1]);
    let e: ParikhVector<u32> = ParikhVector::empty();
    assert_eq!(e.total_firings(), 0);
    assert_eq!(e.get(t0), 0);
}
