use petrivet::analysis::has_zero_token_cycle;
use petrivet::builder::NetBuilder;
use petrivet::class::NetClass;
use petrivet::cycles::has_cycle;
use petrivet::marking::Marking;
use petrivet::system::liveness::{levels_from_condensation, LivenessAnalysis, LivenessLevel};
use petrivet::{Net, PetriNet, Place, Transition};

fn two_place_cycle() -> (Net, Place, Transition, Place, Transition) {
    let mut b = NetBuilder::new();
    let [p0, p1] = b.add_places();
    let [t0, t1] = b.add_transitions();
    b.add_arcs((p0, t0, p1, t1, p0));
    let net = b.build().expect("valid net");
    (net, p0, t0, p1, t1)
}

#[test]
fn cycle_is_live() {
    let (net, p0, _t0, _p1, _t1) = two_place_cycle();
    let sys = PetriNet::new(&net, Marking::from_entries(vec![(p0, 1)]));
    assert!(sys.is_live());
}

#[test]
fn mutex_is_live_and_bounded() {
    let mut b = NetBuilder::new();
    let [idle1, wait1, crit1] = b.add_places();
    let [idle2, wait2, crit2] = b.add_places();
    let mutex = b.add_place();
    let [t_req1, t_enter1, t_exit1] = b.add_transitions();
    let [t_req2, t_enter2, t_exit2] = b.add_transitions();

    b.add_arcs((idle1, t_req1, wait1, t_enter1, crit1, t_exit1, idle1));
    b.add_arcs((idle2, t_req2, wait2, t_enter2, crit2, t_exit2, idle2));
    b.add_arcs((mutex, t_enter1, mutex));
    b.add_arcs((mutex, t_enter2, mutex));

    let net = b.build().expect("valid net");
    let sys = PetriNet::new(&net, Marking::from_entries(vec![(idle1, 1), (idle2, 1), (mutex, 1)]));
    assert!(sys.build_coverability_graph().is_bounded());
    assert!(sys.is_live());
}

#[test]
fn deadlocked_cycle_not_live() {
    let (net, _p0, _t0, _p1, _t1) = two_place_cycle();
    let sys = PetriNet::new(&net, Marking::empty());
    assert!(!sys.is_live());
}

#[test]
fn dead_transition_detection() {
    let (net, _p0, t0, _p1, t1) = two_place_cycle();
    let sys = PetriNet::new(&net, Marking::empty());
    let liveness = sys.liveness();
    assert!(liveness.level(t0).is_dead());
    assert!(liveness.level(t1).is_dead());
}

#[test]
fn alive_transitions_not_dead() {
    let (net, p0, t0, _p1, t1) = two_place_cycle();
    let sys = PetriNet::new(&net, Marking::from_entries(vec![(p0, 1)]));
    let liveness = sys.liveness();
    assert_eq!(liveness.level(t0), LivenessLevel::L4);
    assert_eq!(liveness.level(t1), LivenessLevel::L4);
}

#[test]
fn s_net_sc_marked_all_l4() {
    let mut b = NetBuilder::new();
    let [p0, p1] = b.add_places();
    let [t0, t1] = b.add_transitions();
    b.add_arc((p0, t0));
    b.add_arc((t0, p1));
    b.add_arc((p1, t1));
    b.add_arc((t1, p0));
    let net = b.build().unwrap();
    let sys = PetriNet::new(&net, Marking::from_entries(vec![(p0, 1), (p1, 0)]));
    let analysis = sys.liveness();
    assert_eq!(analysis.level(t0), LivenessLevel::L4);
    assert_eq!(analysis.level(t1), LivenessLevel::L4);
}

#[test]
fn s_net_sc_unmarked_all_l0() {
    let mut b = NetBuilder::new();
    let [p0, p1] = b.add_places();
    let [t0, t1] = b.add_transitions();
    b.add_arcs((p0, t0, p1, t1, p0));
    let net = b.build().unwrap();
    let sys = PetriNet::new(&net, Marking::empty());
    let analysis = sys.liveness();
    assert_eq!(analysis.level(t0), LivenessLevel::L0);
    assert_eq!(analysis.level(t1), LivenessLevel::L0);
}

#[test]
fn one_of_each_liveness() {
    let mut b = NetBuilder::new();
    let [p0, p1, p2] = b.add_places();
    let [l0, l1, l3, l4] = b.add_transitions();
    b.add_arcs((p0, l0, p1, l3, p1, l1, p2, l4, p2));
    let net = b.build().unwrap();
    let sys = PetriNet::new(&net, Marking::from_entries(vec![(p1, 1)]));
    let analysis = sys.liveness();
    assert_eq!(analysis.level(l0), LivenessLevel::L0);
    assert_eq!(analysis.level(l1), LivenessLevel::L1);
    assert_eq!(analysis.level(l3), LivenessLevel::L3);
    assert_eq!(analysis.level(l4), LivenessLevel::L4);
}

#[test]
fn s_net_non_sc_mixed_levels() {
    let mut b = NetBuilder::new();
    let [p0, p1] = b.add_places();
    let [t0, t1] = b.add_transitions();
    b.add_arcs((p0, t0, p1, t1, p0));
    let [p2, p3] = b.add_places();
    let [t3, t4] = b.add_transitions();
    b.add_arcs((p2, t3, p3, t4, p2));

    let switch = b.add_transition();
    b.add_arcs((p0, switch, p2));

    let net = b.build().unwrap();
    assert_eq!(net.class(), NetClass::StateMachine);
    let sys = PetriNet::new(&net, Marking::from_entries(vec![(p0, 1)]));
    let analysis = sys.liveness();

    assert_eq!(analysis.level(t0), LivenessLevel::L3);
    assert_eq!(analysis.level(t1), LivenessLevel::L3);
    assert_eq!(analysis.level(switch), LivenessLevel::L1);
    assert_eq!(analysis.level(t3), LivenessLevel::L4);
    assert_eq!(analysis.level(t4), LivenessLevel::L4);
}

#[test]
fn s_net_unreachable_sink_l0() {
    let mut b = NetBuilder::new();
    let [p0, p1, p2, p3] = b.add_places();
    let t0 = b.add_transition();
    b.add_arcs((p0, t0, p1));
    let [t1, t2, t3] = b.add_transitions();
    b.add_arcs((p1, t1, p2, t2, p3, t3, p1));

    let net = b.build().unwrap();
    assert_eq!(net.class(), NetClass::StateMachine);

    let sys = PetriNet::new(&net, Marking::empty());
    let analysis = sys.liveness();
    assert_eq!(analysis.level(t0), LivenessLevel::L0);
    assert_eq!(analysis.level(t1), LivenessLevel::L0);
    assert_eq!(analysis.level(t2), LivenessLevel::L0);
    assert_eq!(analysis.level(t3), LivenessLevel::L0);
}

#[test]
fn t_net_sc_all_circuits_marked_l4() {
    let mut b = NetBuilder::new();
    let [p0, p1, p2] = b.add_places();
    let [t0, t1] = b.add_transitions();
    b.add_arcs((t0, p0, t1, p1, t0));
    b.add_arcs((t0, p2, t1));
    let net = b.build().unwrap();
    assert_eq!(net.class(), NetClass::MarkedGraph);

    let sys = PetriNet::new(&net, Marking::from_entries(vec![(p0, 1), (p2, 1)]));
    let analysis = sys.liveness();
    assert_eq!(analysis.level(t0), LivenessLevel::L4);
    assert_eq!(analysis.level(t1), LivenessLevel::L4);
}

#[test]
fn t_net_unmarked_circuit_l0() {
    let mut b = NetBuilder::new();
    let [p0, p1] = b.add_places();
    let [t0, t1] = b.add_transitions();
    b.add_arcs((t0, p0, t1, p1, t0));
    let net = b.build().unwrap();
    assert_eq!(net.class(), NetClass::Circuit);

    let sys = PetriNet::new(&net, Marking::empty());
    let analysis = sys.liveness();
    assert_eq!(analysis.level(t0), LivenessLevel::L0);
    assert_eq!(analysis.level(t1), LivenessLevel::L0);
}

#[test]
fn t_net_source_transition_l4() {
    let mut b = NetBuilder::new();
    let [p_src, p0, p1] = b.add_places();
    let [t_src, t0, t1] = b.add_transitions();
    b.add_arcs((t_src, p_src, t0));
    b.add_arcs((t0, p0, t1, p1, t0));
    let net = b.build().unwrap();
    assert_eq!(net.class(), NetClass::MarkedGraph);

    let sys = PetriNet::new(&net, Marking::from_entries(vec![(p0, 1)]));
    let analysis = sys.liveness();
    assert_eq!(analysis.level(t_src), LivenessLevel::L4);
    assert_eq!(analysis.level(t0), LivenessLevel::L4);
    assert_eq!(analysis.level(t1), LivenessLevel::L4);
}

#[test]
fn t_net_dead_predecessor_propagates() {
    let mut b = NetBuilder::new();
    let [p0, p1, p_link, p2, p3] = b.add_places();
    let [t0, t1, t2, t3] = b.add_transitions();
    b.add_arcs((t0, p0, t1, p1, t0));
    b.add_arcs((t1, p_link, t2));
    b.add_arcs((t2, p2, t3, p3, t2));

    let net = b.build().unwrap();
    assert_eq!(net.class(), NetClass::MarkedGraph);

    let sys = PetriNet::new(&net, Marking::from_entries(vec![(p2, 1)]));
    let analysis = sys.liveness();
    assert_eq!(analysis.level(t0), LivenessLevel::L0);
    assert_eq!(analysis.level(t1), LivenessLevel::L0);
    assert_eq!(analysis.level(t2), LivenessLevel::L0);
    assert_eq!(analysis.level(t3), LivenessLevel::L1);
}

#[test]
fn free_choice_chc_dispatch() {
    let mut b = NetBuilder::new();
    let [s1, s2, s3, s4, s5, s6, s7, s8] = b.add_places();
    let [t1, t2, t3, t4, t5, t6, t7] = b.add_transitions();
    b.add_arc((s1, t1));
    b.add_arc((s2, t1));
    b.add_arc((s1, t2));
    b.add_arc((s2, t2));
    b.add_arc((t1, s3));
    b.add_arc((t1, s4));
    b.add_arc((t2, s5));
    b.add_arc((t2, s6));
    b.add_arc((s3, t3));
    b.add_arc((t3, s7));
    b.add_arc((s4, t4));
    b.add_arc((t4, s8));
    b.add_arc((s5, t5));
    b.add_arc((t5, s7));
    b.add_arc((s6, t6));
    b.add_arc((t6, s8));
    b.add_arc((s7, t7));
    b.add_arc((s8, t7));
    b.add_arc((t7, s1));
    b.add_arc((t7, s2));

    let net = b.build().unwrap();
    assert_eq!(net.class(), NetClass::FreeChoice);

    let sys = PetriNet::new(
        &net,
        Marking::from_entries(vec![
            (s1, 1),
            (s2, 1),
            (s3, 0),
            (s4, 0),
            (s5, 0),
            (s6, 0),
            (s7, 0),
            (s8, 0),
        ]),
    );
    let analysis = sys.liveness();
    assert_eq!(analysis.global_level(), LivenessLevel::L4);
}

#[test]
fn liveness_level_predicates() {
    assert!(LivenessLevel::L0.is_dead());
    assert!(LivenessLevel::L0.is_l0_live());
    assert!(!LivenessLevel::L0.is_l1_live());
    assert!(LivenessLevel::L1.is_strictly_l1_live());
    assert!(LivenessLevel::L2.is_l2_live() && LivenessLevel::L2.is_strictly_l2_live());
    assert!(LivenessLevel::L3.is_l3_live() && LivenessLevel::L3.is_strictly_l3_live());
    assert!(!LivenessLevel::L3.is_l4_live());
    assert!(LivenessLevel::L4.is_live() && LivenessLevel::L4.is_l4_live());
    assert_eq!(LivenessLevel::L3.label(), "L3-live");
    assert!(LivenessLevel::L1 < LivenessLevel::L4);
}

#[test]
fn analysis_queries() {
    let (net, p0, t0, _p1, t1) = two_place_cycle();
    let a = LivenessAnalysis::from_levels(vec![(t0, LivenessLevel::L4), (t1, LivenessLevel::L1)]);
    assert_eq!(a.global_level(), LivenessLevel::L1);
    assert_eq!(a.level(t1), LivenessLevel::L1);
    assert!(!a.is_live());
    assert!(a.is_quasi_live());
    let empty = LivenessAnalysis::from_levels(vec![]);
    assert_eq!(empty.global_level(), LivenessLevel::L0);
    assert_eq!(empty.level(t0), LivenessLevel::L0);
    let sys = PetriNet::new(&net, Marking::from_entries(vec![(p0, 1)]));
    assert_eq!(sys.is_efficiently_live(), Some(true));
}

#[test]
fn condensation_levels_by_hand() {
    // Components: 0 = {0, 1} marked, 1 = {2} (a single node), 2 = {3, 4} sink.
    let comps = vec![vec![0, 1], vec![2], vec![3, 4]];
    let edges = vec![(0, 1), (1, 2)];
    let marked = vec![true, false, false, false, false];
    let lv = levels_from_condensation(&comps, &edges, &marked);
    assert_eq!(lv, vec![LivenessLevel::L3, LivenessLevel::L1, LivenessLevel::L4]);
    // Two sinks reachable: neither is the sole destination.
    let comps = vec![vec![0], vec![1, 2], vec![3, 4]];
    let edges = vec![(0, 1), (0, 2)];
    let marked = vec![true, false, false, false, false];
    let lv = levels_from_condensation(&comps, &edges, &marked);
    assert_eq!(lv, vec![LivenessLevel::L1, LivenessLevel::L3, LivenessLevel::L3]);
    // Nothing marked: everything dead.
    let lv = levels_from_condensation(&comps, &edges, &vec![false; 5]);
    assert_eq!(lv, vec![LivenessLevel::L0, LivenessLevel::L0, LivenessLevel::L0]);
}

#[test]
fn strong_connectivity() {
    let (net, _p0, _t0, _p1, _t1) = two_place_cycle();
    assert!(net.is_strongly_connected());
    let mut b = NetBuilder::new();
    let [p0, p1] = b.add_places();
    let t0 = b.add_transition();
    b.add_arcs((p0, t0, p1));
    let chain = b.build().unwrap();
    assert!(!chain.is_strongly_connected());
}

#[test]
fn unmarked_circuit_detection() {
    let (net, p0, _t0, _p1, _t1) = two_place_cycle();
    assert!(PetriNet::new(&net, Marking::empty()).has_unmarked_circuit());
    assert!(!PetriNet::new(&net, Marking::from_entries(vec![(p0, 1)])).has_unmarked_circuit());
}

#[test]
fn cycle_detection_on_lists() {
    let succ = vec![vec![1], vec![2], vec![0], vec![0]];
    assert!(has_cycle(&succ, &vec![true, true, true, true]));
    assert!(!has_cycle(&succ, &vec![true, false, true, true]));
    assert!(!has_cycle(&vec![vec![1], vec![]], &vec![true, true]));
    assert!(has_cycle(&vec![vec![0]], &vec![true]));
}

#[test]
fn zero_token_cycle_in_component() {
    let mut b = NetBuilder::new();
    let [p0, p1] = b.add_places();
    let [t0, t1] = b.add_transitions();
    b.add_arcs((t0, p0, t1, p1, t0));
    let net = b.build().unwrap();
    let places = vec![p0, p1];
    assert!(has_zero_token_cycle(&net, &Marking::empty(), &places, &vec![0, 0], 0));
    assert!(!has_zero_token_cycle(&net, &Marking::from_entries(vec![(p1, 1)]), &places, &vec![0, 0], 0));
    assert!(!has_zero_token_cycle(&net, &Marking::empty(), &places, &vec![0, 1], 0));
}
