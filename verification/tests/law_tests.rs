use petrivet::builder::NetBuilder;
use petrivet::marking::Marking;
use petrivet::system::liveness::LivenessLevel;
use petrivet::PetriNet;

#[test]
fn state_machine_firing_keeps_the_token_total() {
    // A three-place cycle is a state machine: every transition has one input
    // and one output place.
    let mut b = NetBuilder::new();
    let [p0, p1, p2] = b.add_places();
    let [t0, t1, t2] = b.add_transitions();
    b.add_arcs((p0, t0, p1, t1, p2, t2, p0));
    let net = b.build().expect("valid net");
    assert!(net.is_state_machine());
    let mut sys = PetriNet::new(&net, Marking::from_entries(vec![(p0, 2), (p2, 1)]));
    assert_eq!(sys.marking().total_tokens(), 3);
    for t in [t0, t0, t2, t1, t1] {
        sys.try_fire(t).unwrap();
        assert_eq!(sys.marking().total_tokens(), 3);
    }
    assert_eq!(sys.marking(), Marking::from_entries(vec![(p0, 1), (p2, 2)]));
}

#[test]
fn liveness_levels_nest() {
    let levels = [LivenessLevel::L0, LivenessLevel::L1, LivenessLevel::L2, LivenessLevel::L3, LivenessLevel::L4];
    for l in levels {
        assert!(!l.is_l4_live() || l.is_l3_live());
        assert!(!l.is_l3_live() || l.is_l2_live());
        assert!(!l.is_l2_live() || l.is_l1_live());
        assert_eq!(l.is_dead(), !l.is_l1_live());
        assert_eq!(l.is_l1_live(), l.is_strictly_l1_live() || l.is_l2_live());
        assert_eq!(l.is_l2_live(), l.is_strictly_l2_live() || l.is_l3_live());
        assert_eq!(l.is_l3_live(), l.is_strictly_l3_live() || l.is_l4_live());
    }
    assert!(LivenessLevel::L3.is_l1_live() && !LivenessLevel::L3.is_live());
}

#[test]
fn marked_graph_firing_keeps_tokens_on_every_circuit() {
    // t0 forks into p0 and p1, t1 joins them into p2, which feeds t0 again:
    // every place has one input and one output transition.
    let mut b = NetBuilder::new();
    let [p0, p1, p2] = b.add_places();
    let [t0, t1] = b.add_transitions();
    b.add_arcs((t0, p0, t1, p2, t0));
    b.add_arcs((t0, p1, t1));
    let net = b.build().expect("valid net");
    assert!(net.is_marked_graph());
    let circuits = net.circuits();
    assert_eq!(circuits.len(), 2);
    let mut sys = PetriNet::new(&net, Marking::from_entries(vec![(p2, 1)]));
    let on = |m: &Marking<u32>, c: &petrivet::path::Circuit| -> u32 {
        c.path().places().iter().map(|p| m.get(*p)).sum()
    };
    for c in &circuits {
        assert_eq!(on(&sys.marking(), c), 1);
    }
    for t in [t0, t1, t0] {
        sys.try_fire(t).unwrap();
        for c in &circuits {
            assert_eq!(on(&sys.marking(), c), 1);
        }
    }
    assert_eq!(sys.marking(), Marking::from_entries(vec![(p0, 1), (p1, 1)]));
}

#[test]
fn bounded_system_has_no_strictly_l2_live_transition() {
    // t0 moves the single token from p0 to p1 once; t1 then cycles on p1 and p2.
    let mut b = NetBuilder::new();
    let [p0, p1, p2] = b.add_places();
    let [t0, t1, t2] = b.add_transitions();
    b.add_arcs((p0, t0, p1, t1, p2, t2, p1));
    let net = b.build().expect("valid net");
    let sys = PetriNet::new(&net, Marking::from_entries(vec![(p0, 1)]));
    let rg = sys.try_build_reachability_graph().ok().expect("bounded");
    let liveness = rg.transition_liveness();
    assert_eq!(liveness.level(t0), LivenessLevel::L1);
    assert_eq!(liveness.level(t1), LivenessLevel::L4);
    assert_eq!(liveness.level(t2), LivenessLevel::L4);
    for (_, l) in liveness.levels() {
        assert!(!l.is_strictly_l2_live());
    }
}
