use petrivet::builder::NetBuilder;
use petrivet::class::NetClass;
use petrivet::marking::{Marking, Omega};
use petrivet::state_space::ExplorationOrder;
use petrivet::{Net, PetriNet, Place};

fn two_place_cycle() -> (Net, Place, Place) {
    let mut b = NetBuilder::new();
    let [p0, p1] = b.add_places();
    let [t0, t1] = b.add_transitions();
    b.add_arcs((p0, t0, p1, t1, p0));
    let net = b.build().expect("valid net");
    (net, p0, p1)
}

fn unbounded_producer() -> (Net, Place, Place) {
    let mut b = NetBuilder::new();
    let [p0, p1] = b.add_places();
    let [t0] = b.add_transitions();
    b.add_arcs((p0, t0, p0));
    b.add_arc((t0, p1));
    let net = b.build().expect("valid net");
    (net, p0, p1)
}

fn fin(k: u32) -> Omega {
    Omega::Finite(k)
}

#[test]
fn bounded_net_fully_explored() {
    let (net, p0, _p1) = two_place_cycle();
    let sys = PetriNet::new(&net, Marking::from_entries(vec![(p0, 1)]));
    let cg = sys.build_coverability_graph();
    assert!(cg.is_bounded());
    assert_eq!(cg.marking_count(), 2);
    assert!(cg.is_deadlock_free());
}

#[test]
fn unbounded_net_has_omega() {
    let (net, p0, p1) = unbounded_producer();
    let sys = PetriNet::new(&net, Marking::from_entries(vec![(p0, 1)]));
    let cg = sys.build_coverability_graph();
    assert!(!cg.is_bounded());
    assert_eq!(cg.place_bound(p0), Omega::Finite(1));
    assert_eq!(cg.place_bound(p1), Omega::Unbounded);
}

#[test]
fn coverability_check() {
    let (net, p0, p1) = two_place_cycle();
    let sys = PetriNet::new(&net, Marking::from_entries(vec![(p0, 1)]));
    let cg = sys.build_coverability_graph();
    assert!(cg.cover(Marking::from_entries(vec![(p0, fin(1))])).is_some());
    assert!(cg.cover(Marking::from_entries(vec![(p1, fin(1))])).is_some());
    assert!(cg.cover(Marking::from_entries(vec![(p0, fin(1)), (p1, fin(1))])).is_none());
}

#[test]
fn deadlock_detected() {
    let mut b = NetBuilder::new();
    let p0 = b.add_place();
    let [t0] = b.add_transitions();
    b.add_arcs((p0, t0, p0));
    let net = b.build().expect("valid net");
    let sys = PetriNet::new(&net, Marking::empty());
    let cg = sys.build_coverability_graph();
    assert!(!cg.is_deadlock_free());
    assert!(cg.has_reachable_deadlock());
    assert_eq!(cg.deadlocks().len(), 1);
}

#[test]
fn step_by_step_exploration() {
    let (net, p0, _p1) = two_place_cycle();
    let sys = PetriNet::new(&net, Marking::from_entries(vec![(p0, 1)]));
    let mut cg = sys.explore_coverability(ExplorationOrder::BreadthFirst);
    assert!(!cg.is_fully_explored());
    assert_eq!(cg.marking_count(), 1);
    let mut steps = 0;
    while let Some(step) = cg.explore_next() {
        steps += 1;
        assert!(!step.marking.has_omega());
    }
    assert!(cg.is_fully_explored());
    assert!(steps > 0);
    assert_eq!(cg.marking_count(), 2);
}

#[test]
fn early_termination_unbounded() {
    let (net, p0, _p1) = unbounded_producer();
    let sys = PetriNet::new(&net, Marking::from_entries(vec![(p0, 1)]));
    let mut cg = sys.explore_coverability(ExplorationOrder::BreadthFirst);
    while let Some(step) = cg.explore_next() {
        if step.marking.has_omega() {
            break;
        }
    }
    let cg = cg.build_graph();
    assert!(!cg.is_bounded());
}

#[test]
fn promotion_bounded() {
    let (net, p0, _p1) = two_place_cycle();
    let sys = PetriNet::new(&net, Marking::from_entries(vec![(p0, 1)]));
    let cg = sys.build_coverability_graph();
    let rg = cg.try_into_reachability_graph().ok().expect("should be bounded");
    assert_eq!(rg.marking_count(), 2);
}

#[test]
fn promotion_unbounded_returns_err() {
    let (net, p0, _p1) = unbounded_producer();
    let sys = PetriNet::new(&net, Marking::from_entries(vec![(p0, 1)]));
    let cg = sys.build_coverability_graph();
    assert!(cg.try_into_reachability_graph().is_err());
}

#[test]
fn rg_or_cg_short_circuits_on_unbounded() {
    let (net, p0, _p1) = unbounded_producer();
    let sys = PetriNet::new(&net, Marking::from_entries(vec![(p0, 1)]));
    match sys.try_build_reachability_graph() {
        Ok(_) => panic!("unbounded net must short-circuit"),
        Err(cg) => assert!(!cg.is_fully_explored(), "frontier preserved on bail-out"),
    }
}

#[test]
fn rg_or_cg_completes_for_bounded() {
    let (net, p0, _p1) = two_place_cycle();
    let sys = PetriNet::new(&net, Marking::from_entries(vec![(p0, 1)]));
    let rg = sys.try_build_reachability_graph().ok().expect("bounded net must yield reachability graph");
    assert_eq!(rg.marking_count(), 2);
}

#[test]
fn switch_order_mid_exploration() {
    let (net, p0, _p1) = two_place_cycle();
    let sys = PetriNet::new(&net, Marking::from_entries(vec![(p0, 1)]));
    let mut cg = sys.explore_coverability(ExplorationOrder::BreadthFirst);
    cg.explore_next();
    cg.set_exploration_order(ExplorationOrder::DepthFirst);
    assert_eq!(cg.exploration_order(), ExplorationOrder::DepthFirst);
    let cg = cg.build_graph();
    assert_eq!(cg.marking_count(), 2);
}

#[test]
fn multiple_omega_places() {
    let mut b = NetBuilder::new();
    let [p0, p1, p2] = b.add_places();
    let [t0, t1] = b.add_transitions();
    b.add_arc((p0, t0));
    b.add_arc((t0, p0));
    b.add_arc((t0, p1));
    b.add_arc((p0, t1));
    b.add_arc((t1, p0));
    b.add_arc((t1, p2));
    let net = b.build().expect("valid net");
    let sys = PetriNet::new(&net, Marking::from_entries(vec![(p0, 1)]));
    let cg = sys.build_coverability_graph();
    assert!(!cg.is_bounded());
    assert_eq!(cg.place_bound(p0), Omega::Finite(1));
    assert_eq!(cg.place_bound(p1), Omega::Unbounded);
    assert_eq!(cg.place_bound(p2), Omega::Unbounded);
}

#[test]
fn promotion_preserves_graph_structure() {
    let mut b = NetBuilder::new();
    let [p0, p1, p2] = b.add_places();
    let [t0, t1, t2] = b.add_transitions();
    b.add_arc((p0, t0));
    b.add_arc((t0, p1));
    b.add_arc((p1, t1));
    b.add_arc((t1, p2));
    b.add_arc((p2, t2));
    b.add_arc((t2, p0));
    let net = b.build().expect("valid net");
    assert_eq!(net.class(), NetClass::Circuit);
    let sys = PetriNet::new(&net, Marking::from_entries(vec![(p0, 2)]));
    let cg = sys.build_coverability_graph();
    assert!(cg.is_bounded());
    let cg_states = cg.marking_count();
    let cg_edges = cg.transition_count();
    let rg = cg.try_into_reachability_graph().ok().expect("bounded");
    assert_eq!(rg.marking_count(), cg_states);
    assert_eq!(rg.transition_count(), cg_edges);
    for marking in rg.markings() {
        assert_eq!(marking.total_tokens(), 2);
    }
}

#[test]
fn concurrent_enabling_bounded() {
    let mut b = NetBuilder::new();
    let [p0, p1, p_shared] = b.add_places();
    let [t0, t1, t2, t3] = b.add_transitions();
    b.add_arcs((p0, t0, p_shared, t2, p0));
    b.add_arcs((p1, t1, p_shared, t3, p1));
    let net = b.build().expect("valid net");
    let sys = PetriNet::new(&net, Marking::from_entries(vec![(p0, 1), (p1, 1)]));
    let cg = sys.build_coverability_graph();
    assert!(cg.is_bounded());
    assert!(cg.is_deadlock_free());
}

#[test]
fn multi_place_acceleration() {
    let mut b = NetBuilder::new();
    let [p0, p1, p2] = b.add_places();
    let [t0] = b.add_transitions();
    b.add_arc((p0, t0));
    b.add_arc((t0, p0));
    b.add_arc((t0, p1));
    b.add_arc((t0, p2));
    let net = b.build().expect("valid net");
    let sys = PetriNet::new(&net, Marking::from_entries(vec![(p0, 1)]));
    let cg = sys.build_coverability_graph();
    assert!(!cg.is_bounded());
    assert_eq!(cg.place_bound(p1), Omega::Unbounded);
    assert_eq!(cg.place_bound(p2), Omega::Unbounded);
    assert!(cg
        .cover(Marking::from_entries(vec![(p0, fin(1)), (p1, fin(100)), (p2, fin(100))]))
        .is_some());
}

#[test]
fn bfs_dfs_same_coverability() {
    let (net, p0, _p1) = two_place_cycle();
    let sys = PetriNet::new(&net, Marking::from_entries(vec![(p0, 1)]));
    let cg_bfs = sys.explore_coverability(ExplorationOrder::BreadthFirst).build_graph();
    let cg_dfs = sys.explore_coverability(ExplorationOrder::DepthFirst).build_graph();
    assert_eq!(cg_bfs.marking_count(), cg_dfs.marking_count());
    assert_eq!(cg_bfs.is_bounded(), cg_dfs.is_bounded());
}

#[test]
fn mutex_bounded_via_coverability() {
    let mut b = NetBuilder::new();
    let [idle1, wait1, crit1] = b.add_places();
    let [idle2, wait2, crit2] = b.add_places();
    let mutex = b.add_place();
    let [t_req1, t_enter1, t_exit1] = b.add_transitions();
    let [t_req2, t_enter2, t_exit2] = b.add_transitions();
    b.add_arcs((idle1, t_req1, wait1, t_enter1, crit1, t_exit1, idle1));
    b.add_arcs((idle2, t_req2, wait2, t_enter2, crit2, t_exit2, idle2));
    b.add_arc((mutex, t_enter1));
    b.add_arc((t_exit1, mutex));
    b.add_arc((mutex, t_enter2));
    b.add_arc((t_exit2, mutex));
    let net = b.build().expect("valid net");
    assert_eq!(net.class(), NetClass::AsymmetricChoice);
    let sys = PetriNet::new(&net, Marking::from_entries(vec![(idle1, 1), (idle2, 1), (mutex, 1)]));
    let cg = sys.build_coverability_graph();
    assert!(cg.is_bounded());
    assert!(cg.is_deadlock_free());
    let zero = Omega::Finite(0);
    for marking in cg.markings() {
        let c1 = marking.get(crit1);
        let c2 = marking.get(crit2);
        assert!(c1 == zero || c2 == zero, "mutual exclusion violated: {marking:?}");
    }
    assert!(cg.cover(Marking::from_entries(vec![(crit1, fin(1)), (crit2, fin(1))])).is_none());
    let rg = cg.try_into_reachability_graph().ok().expect("bounded");
    assert_eq!(rg.marking_count(), 8);
    assert!(rg.is_one_safe());
    assert_eq!(rg.max_token_in_any_place(), 1);
    assert_eq!(rg.max_token_per_marking(), 3);
    assert!(!rg.has_stable_place());
}

#[test]
fn reachability_graph_paths_replay() {
    let (net, p0, p1) = two_place_cycle();
    let sys = PetriNet::new(&net, Marking::from_entries(vec![(p0, 1)]));
    let rg = sys.try_build_reachability_graph().ok().expect("bounded");
    let target = Marking::from_entries(vec![(p1, 1)]);
    assert!(rg.contains_marking(target.clone()));
    let path = rg.find_path_from_initial(target.clone()).expect("reachable");
    let mut replay = PetriNet::new(&net, Marking::from_entries(vec![(p0, 1)]));
    for t in path {
        replay.try_fire(t).expect("path fires");
    }
    assert_eq!(replay.marking(), target);
    assert!(rg.find_path_from_initial(Marking::from_entries(vec![(p1, 2)])).is_none());
    assert_eq!(rg.initial_marking(), Marking::from_entries(vec![(p0, 1)]));
    assert_eq!(rg.place_bounds(), Marking::from_entries(vec![(p0, 1), (p1, 1)]));
    assert_eq!(rg.place_bound(p1), 1);
}

#[test]
fn exploration_step_reports_fired_transition_and_reached_marking() {
    let mut b = NetBuilder::new();
    let [p0, p1] = b.add_places();
    let [t0, t1] = b.add_transitions();
    b.add_arcs((p0, t0, p1, t1, p0));
    let net = b.build().expect("valid net");
    let sys = PetriNet::new(&net, Marking::from_entries(vec![(p0, 1)]));
    let mut cg = sys.explore_coverability(ExplorationOrder::BreadthFirst);
    let first = cg.explore_next().expect("the initial marking enables a transition");
    assert_eq!(first.transition, t0);
    assert_eq!(first.marking.get(p0), fin(0));
    assert_eq!(first.marking.get(p1), fin(1));
    assert!(first.is_new);
    let second = cg.explore_next().expect("the new marking enables a transition");
    assert_eq!(second.transition, t1);
    assert_eq!(second.marking.get(p0), fin(1));
    assert_eq!(second.marking.get(p1), fin(0));
    assert!(!second.is_new);
    assert!(cg.explore_next().is_none());
}

#[test]
fn exploration_step_reports_accelerated_marking() {
    let (net, p0, p1) = unbounded_producer();
    let sys = PetriNet::new(&net, Marking::from_entries(vec![(p0, 1)]));
    let mut cg = sys.explore_coverability(ExplorationOrder::BreadthFirst);
    let first = cg.explore_next().expect("the producer is enabled");
    assert_eq!(first.marking.get(p0), fin(1));
    assert_eq!(first.marking.get(p1), Omega::Unbounded);
    assert!(first.is_new);
}
