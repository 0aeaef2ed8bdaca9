use petrivet::builder::NetBuilder;
use petrivet::marking::Marking;
use petrivet::PetriNet;

#[test]
fn deadlock_of_unbounded_system_is_found() {
    let mut b = NetBuilder::new();
    let [p0, p1, p2] = b.add_places();
    let [t0, t1] = b.add_transitions();
    b.add_arc((p0, t0));
    b.add_arc((t0, p0));
    b.add_arc((t0, p1));
    b.add_arc((p0, t1));
    b.add_arc((p1, t1));
    b.add_arc((t1, p2));
    let net = b.build().expect("valid net");
    let sys = PetriNet::new(&net, Marking::from_entries(vec![(p0, 1)]));
    assert!(!sys.is_deadlock_free());
    let mut d = sys.deadlocks();
    let found = d.next().expect("a reachable deadlock");
    assert_eq!(found.get(p0), 0);
    assert_eq!(found.get(p1), 0);
    assert_eq!(found.get(p2), 1);
}
