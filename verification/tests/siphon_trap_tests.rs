use petrivet::builder::NetBuilder;
use petrivet::marking::Marking;
use petrivet::PetriNet;

#[test]
fn emptied_siphon_and_filled_trap_keep_their_state() {
    // p0 -> t0 -> p1 and p1 -> t1 -> p2: {p0} is a siphon (nothing feeds it),
    // {p1, p2} is a trap (whatever consumes from it produces back into it).
    let mut b = NetBuilder::new();
    let [p0, p1, p2] = b.add_places();
    let [t0, t1] = b.add_transitions();
    b.add_arcs((p0, t0, p1, t1, p2));
    let net = b.build().expect("valid net");
    let mut sys = PetriNet::new(&net, Marking::from_entries(vec![(p0, 1)]));
    sys.try_fire(t0).unwrap();
    assert_eq!(sys.marking(), Marking::from_entries(vec![(p1, 1)]));
    sys.try_fire(t1).unwrap();
    let m = sys.marking();
    assert_eq!(m, Marking::from_entries(vec![(p2, 1)]));
    assert!(!sys.is_enabled(t0));
    assert!(sys.try_fire(t0).is_err());
}

fn chain() -> (petrivet::Net, [petrivet::Place; 3]) {
    let mut b = NetBuilder::new();
    let [p0, p1, p2] = b.add_places();
    let [t0, t1] = b.add_transitions();
    b.add_arcs((p0, t0, p1, t1, p2));
    (b.build().expect("valid net"), [p0, p1, p2])
}

#[test]
fn maximal_siphon_and_trap_of_a_chain() {
    let (net, [p0, p1, p2]) = chain();
    let sys = PetriNet::new(&net, Marking::empty());
    let all = sys.maximal_siphon_in(&[p0, p1, p2]);
    assert_eq!(all.len(), 3);
    assert!(all.contains(&p0) && all.contains(&p1) && all.contains(&p2));
    assert!(sys.maximal_siphon_in(&[p1, p2]).is_empty());
    assert_eq!(sys.maximal_siphon_in(&[p0, p2]), vec![p0]);

    let traps = sys.maximal_trap_in(&[p1, p2]);
    assert_eq!(traps.len(), 2);
    assert!(traps.contains(&p1) && traps.contains(&p2));
    assert!(sys.maximal_trap_in(&[p0, p1]).is_empty());
    assert_eq!(sys.maximal_trap_in(&[p0, p2]), vec![p2]);
}
