use petrivet::builder::{NetBuilder, NetError};
use petrivet::class::NetClass;
use petrivet::{Arc, Net, Place, Transition};

fn two_place_cycle() -> (Net, Place, Transition, Place, Transition) {
    let mut b = NetBuilder::new();
    let [p0, p1] = b.add_places();
    let [t0, t1] = b.add_transitions();
    b.add_arcs((p0, t0, p1, t1, p0));
    let net = b.build().expect("valid net");
    (net, p0, t0, p1, t1)
}

#[test]
fn invalid_arc_returns_false() {
    let mut b = NetBuilder::new();
    let p0 = b.add_place();
    let _ = b.add_transition();
    let mut other = NetBuilder::new();
    let [_, t_foreign] = other.add_transitions();
    assert!(!b.add_arc((p0, t_foreign)));
}

#[test]
fn remove_place_cleans_up_arcs() {
    let mut b = NetBuilder::new();
    let [p0, p1, p2] = b.add_places();
    let [t0, t1] = b.add_transitions();
    b.add_arc((p0, t0));
    b.add_arc((t0, p1));
    b.add_arc((p1, t1));
    b.add_arc((t1, p2));

    assert!(b.remove_place(p1));
    assert!(!b.arcs().iter().any(|a| matches!(a, Arc::PlaceToTransition(p, _) if *p == p1)));
}

#[test]
fn remove_place_idempotent() {
    let mut b = NetBuilder::new();
    let p = b.add_place();
    assert!(b.remove_place(p));
    assert!(!b.remove_place(p));
}

#[test]
fn remove_transition_cleans_up_arcs() {
    let mut b = NetBuilder::new();
    let [p0, p1] = b.add_places();
    let [t0, t1] = b.add_transitions();
    b.add_arc((p0, t0));
    b.add_arc((t0, p1));
    b.add_arc((p1, t1));
    b.add_arc((t1, p0));

    assert!(b.remove_transition(t0));
}

#[test]
fn remove_arc_single() {
    let mut b = NetBuilder::new();
    let [p0, p1] = b.add_places();
    let [t0] = b.add_transitions();
    b.add_arc((p0, t0));
    b.add_arc((t0, p1));

    assert!(b.remove_arc((p0, t0)));
    assert!(!b
        .arcs()
        .iter()
        .any(|a| matches!(a, Arc::PlaceToTransition(pp, tt) if *pp == p0 && *tt == t0)));
    assert!(b
        .arcs()
        .iter()
        .any(|a| matches!(a, Arc::TransitionToPlace(tt, pp) if *tt == t0 && *pp == p1)));
}

#[test]
fn empty_builder_rejected() {
    let b = NetBuilder::new();
    assert!(matches!(b.build(), Err(NetError::Degenerate)));
}

#[test]
fn no_transitions_rejected() {
    let mut b = NetBuilder::new();
    let _p = b.add_place();
    assert!(matches!(b.build(), Err(NetError::Degenerate)));
}

#[test]
fn disconnected_rejected() {
    let mut b = NetBuilder::new();
    let [p0, p1] = b.add_places();
    let [t0, t1] = b.add_transitions();
    b.add_arc((p0, t0));
    b.add_arc((t1, p1));
    assert!(matches!(b.build(), Err(NetError::NotConnected)));
}

#[test]
fn duplicate_arc_is_refused() {
    let mut b = NetBuilder::new();
    let p0 = b.add_place();
    let t0 = b.add_transition();
    assert!(b.add_arc((p0, t0)));
    assert!(!b.add_arc((p0, t0)));
    assert_eq!(b.arc_count(), 1);
}

#[test]
fn counts_of_a_built_net() {
    let (net, _p0, _t0, _p1, _t1) = two_place_cycle();
    assert_eq!(net.place_count(), 2);
    assert_eq!(net.transition_count(), 2);
    assert_eq!(net.node_count(), 4);
    assert_eq!(net.arc_count(), 4);
    assert_eq!(net.arcs().len(), 4);
    assert_eq!(net.nodes().len(), 4);
    assert_eq!(net.class(), NetClass::Circuit);
}

#[test]
fn build_keeps_nodes_and_arcs() {
    let mut b = NetBuilder::new();
    let [p0, p1, p2] = b.add_places();
    let [t0, t1] = b.add_transitions();
    b.add_arcs((p0, t0, p1, t1, p2));
    let places = b.places();
    let net = b.build().expect("valid net");
    let mut built = net.places();
    built.sort_by_key(|p| format!("{p:?}"));
    let mut expected = places.clone();
    expected.sort_by_key(|p| format!("{p:?}"));
    assert_eq!(built, expected);
    assert_eq!(net.transition_preset(&t0), vec![p0]);
    assert_eq!(net.transition_postset(&t1), vec![p2]);
    assert_eq!(net.place_preset(&p1), vec![t0]);
    assert_eq!(net.place_postset(&p1), vec![t1]);
    assert!(net.place_preset(&p0).is_empty());
}

#[test]
fn foreign_handles_have_empty_neighbourhoods() {
    let (net, _p0, _t0, _p1, _t1) = two_place_cycle();
    let mut other = NetBuilder::new();
    let [_, _, foreign_p] = other.add_places();
    let [_, _, foreign_t] = other.add_transitions();
    assert!(net.place_preset(&foreign_p).is_empty());
    assert!(net.transition_postset(&foreign_t).is_empty());
}

#[test]
fn classify_while_building() {
    let mut b = NetBuilder::new();
    let [p0, p1] = b.add_places();
    let [t0] = b.add_transitions();
    b.add_arcs((p0, t0, p1));
    assert_eq!(b.classify(), Ok(NetClass::StateMachine));
    let t1 = b.add_transition();
    assert_eq!(b.classify(), Err(NetError::NotConnected));
    b.add_arc((p0, t1));
    assert_eq!(b.classify(), Ok(NetClass::FreeChoice));
}

#[test]
fn error_messages_are_not_empty() {
    assert!(!NetError::Degenerate.message().is_empty());
    assert!(!NetError::NotConnected.message().is_empty());
}

#[test]
fn add_arcs_skips_present_arcs_and_goes_on() {
    let mut b = NetBuilder::new();
    let [p1, p2] = b.add_places();
    let [t1] = b.add_transitions();
    assert!(b.add_arc((p1, t1)));
    assert!(!b.add_arcs((p1, t1, p2)));
    assert_eq!(b.arc_count(), 2);
    assert!(!b.add_arc((t1, p2)));
}

#[test]
fn build_simple_net() {
    let mut b = NetBuilder::new();
    let [p0, p1, p2] = b.add_places();
    let [t0, t1] = b.add_transitions();
    b.add_arc((p0, t0));
    b.add_arc((t0, p1));
    b.add_arc((p1, t1));
    b.add_arc((t1, p2));
    let net = b.build().unwrap();
    assert_eq!(net.place_count(), 3);
    assert_eq!(net.transition_count(), 2);
}

#[test]
fn no_places_rejected() {
    let mut b = NetBuilder::new();
    let _t = b.add_transition();
    assert!(matches!(b.build(), Err(NetError::Degenerate)));
}

#[test]
fn disconnected_node_rejected() {
    let mut b = NetBuilder::new();
    let p0 = b.add_place();
    let [t0, _t1] = b.add_transitions();
    b.add_arc((p0, t0));
    assert!(matches!(b.build(), Err(NetError::NotConnected)));
}

#[test]
fn classify_circuit() {
    let mut b = NetBuilder::new();
    let [p0, p1] = b.add_places();
    let [t0, t1] = b.add_transitions();
    b.add_arc((p0, t0));
    b.add_arc((t0, p1));
    b.add_arc((p1, t1));
    b.add_arc((t1, p0));
    assert_eq!(b.build().unwrap().class(), NetClass::Circuit);
}

#[test]
fn classify_s_net() {
    let mut b = NetBuilder::new();
    let [p0, p1, p2] = b.add_places();
    let [t0, t1] = b.add_transitions();
    b.add_arc((p0, t0));
    b.add_arc((t0, p1));
    b.add_arc((p1, t1));
    b.add_arc((t1, p2));
    assert_eq!(b.build().unwrap().class(), NetClass::StateMachine);
}

#[test]
fn classify_t_net() {
    let mut b = NetBuilder::new();
    let [p0, p1, p2] = b.add_places();
    let [t0, t1] = b.add_transitions();
    b.add_arc((p0, t0));
    b.add_arc((p1, t0));
    b.add_arc((t0, p2));
    b.add_arc((p2, t1));
    b.add_arc((t1, p0));
    b.add_arc((t1, p1));
    assert_eq!(b.build().unwrap().class(), NetClass::MarkedGraph);
}

#[test]
fn classify_free_choice() {
    let mut b = NetBuilder::new();
    let [p0, p1, p2] = b.add_places();
    let [t0, t1, t2] = b.add_transitions();
    b.add_arc((p0, t0));
    b.add_arc((t0, p1));
    b.add_arc((p0, t1));
    b.add_arc((t1, p2));
    b.add_arc((p1, t2));
    b.add_arc((p2, t2));
    b.add_arc((t2, p0));
    assert_eq!(b.build().unwrap().class(), NetClass::FreeChoice);
}

#[test]
fn classify_asymmetric_choice() {
    let mut b = NetBuilder::new();
    let [p0, p1, p2, p3] = b.add_places();
    let [t0, t1] = b.add_transitions();
    b.add_arc((p0, t0));
    b.add_arc((p0, t1));
    b.add_arc((p1, t1));
    b.add_arc((t0, p2));
    b.add_arc((t1, p3));
    let net = b.build().unwrap();
    assert_eq!(net.class(), NetClass::AsymmetricChoice);
    assert!(net.is_asymmetric_choice());
    assert!(!net.is_free_choice());
}

#[test]
fn classify_general() {
    let mut b = NetBuilder::new();
    let [p0, p1, p2, p3, p4] = b.add_places();
    let [t0, t1, t2] = b.add_transitions();
    b.add_arc((p0, t0));
    b.add_arc((p0, t1));
    b.add_arc((p1, t0));
    b.add_arc((p1, t2));
    b.add_arc((t0, p2));
    b.add_arc((t1, p3));
    b.add_arc((t2, p4));
    assert_eq!(b.build().unwrap().class(), NetClass::General);
}

#[test]
fn duplicate_arcs_are_noop() {
    let mut b = NetBuilder::new();
    let [p0, p1] = b.add_places();
    let [t0] = b.add_transitions();
    b.add_arc((p0, t0));
    b.add_arc((p0, t0));
    b.add_arc((t0, p1));
    let net = b.build().expect("should accept duplicate arcs");
    assert_eq!(net.transition_preset(&t0).len(), 1);
}

#[test]
fn minimal_net() {
    let mut b = NetBuilder::new();
    let p = b.add_place();
    let t = b.add_transition();
    b.add_arc((p, t));
    b.add_arc((t, p));
    let net = b.build().expect("valid net");
    assert_eq!(net.class(), NetClass::Circuit);
    assert_eq!(net.place_count(), 1);
    assert_eq!(net.transition_count(), 1);
}

#[test]
fn source_transition_accepted() {
    let mut b = NetBuilder::new();
    let p = b.add_place();
    let t = b.add_transition();
    b.add_arc((t, p));
    let net = b.build().expect("valid net");
    assert!(net.transition_preset(&t).is_empty());
    assert_eq!(net.transition_postset(&t), vec![p]);
}

#[test]
fn sink_transition_accepted() {
    let mut b = NetBuilder::new();
    let p = b.add_place();
    let t = b.add_transition();
    b.add_arc((p, t));
    let net = b.build().expect("valid net");
    assert!(net.transition_postset(&t).is_empty());
    assert_eq!(net.transition_preset(&t), vec![p]);
}

fn round_trip_net() -> Net {
    let mut b = NetBuilder::new();
    let [p0, p1, p2] = b.add_places();
    let [t0, t1] = b.add_transitions();
    b.add_arc((p0, t0));
    b.add_arc((t0, p1));
    b.add_arc((p1, t1));
    b.add_arc((t1, p2));
    b.build().expect("valid net")
}

#[test]
fn net_to_builder_round_trip() {
    let first = round_trip_net();
    let b2 = NetBuilder::from_net(round_trip_net());
    assert_eq!(b2.place_count(), 3);
    assert_eq!(b2.transition_count(), 2);
    let rebuilt = b2.build().expect("round-trip should produce valid net");
    assert_eq!(rebuilt.places(), first.places());
    assert_eq!(rebuilt.transitions(), first.transitions());
    assert_eq!(rebuilt.class(), first.class());
    for t in first.transitions() {
        assert_eq!(rebuilt.transition_preset(&t), first.transition_preset(&t));
        assert_eq!(rebuilt.transition_postset(&t), first.transition_postset(&t));
    }
    for p in first.places() {
        assert_eq!(rebuilt.place_preset(&p), first.place_preset(&p));
        assert_eq!(rebuilt.place_postset(&p), first.place_postset(&p));
    }
    let mut b3 = NetBuilder::from_net(rebuilt);
    let [q] = b3.add_places();
    let mut b4 = NetBuilder::from_net(first);
    let [q2] = b4.add_places();
    assert_eq!(q, q2);
}

#[test]
fn net_to_builder_extend() {
    let mut b = NetBuilder::new();
    let [p0, p1] = b.add_places();
    let [t0, t1] = b.add_transitions();
    b.add_arc((p0, t0));
    b.add_arc((t0, p1));
    b.add_arc((p1, t1));
    b.add_arc((t1, p0));
    let first = b.build().expect("valid net");
    assert_eq!(first.class(), NetClass::Circuit);
    let mut b2 = NetBuilder::from_net(first);
    let p_new = b2.add_place();
    let t_new = b2.add_transition();
    b2.add_arc((p1, t_new));
    b2.add_arc((t_new, p_new));
    b2.add_arc((p_new, t1));
    let extended = b2.build().expect("valid extended net");
    assert_eq!(extended.place_count(), 3);
    assert_eq!(extended.transition_count(), 3);
    assert!(extended.transition_preset(&t0).iter().any(|&p| p == p0));
}

#[test]
fn remove_and_rebuild() {
    let mut b = NetBuilder::new();
    let [p0, p1, p2] = b.add_places();
    let [t0, t1, t2] = b.add_transitions();
    b.add_arc((p0, t0));
    b.add_arc((t0, p1));
    b.add_arc((p1, t1));
    b.add_arc((t1, p2));
    b.add_arc((p2, t2));
    b.add_arc((t2, p0));
    b.remove_transition(t1);
    b.remove_place(p2);
    b.add_arc((t2, p1));
    b.add_arc((p0, t2));
    let net = b.build().expect("rebuilt net should be valid");
    assert_eq!(net.place_count(), 2);
    assert_eq!(net.transition_count(), 2);
}

#[test]
fn compact_indices_are_dense() {
    let mut b = NetBuilder::new();
    let [p0, p1, p2] = b.add_places();
    let [t0, t1] = b.add_transitions();
    b.add_arc((p0, t0));
    b.add_arc((t0, p1));
    b.add_arc((p1, t1));
    b.add_arc((t1, p2));
    b.remove_place(p1);
    b.add_arc((t0, p2));
    b.add_arc((p2, t1));
    let net = b.build().expect("valid net");
    assert_eq!(net.place_count(), 2);
    assert_eq!(net.transition_count(), 2);
}

#[test]
fn place_key_round_trip_through_net() {
    let mut b = NetBuilder::new();
    let p = b.add_place();
    let t = b.add_transition();
    b.add_arc((p, t));
    b.add_arc((t, p));
    let net = b.build().unwrap();
    let places = net.places();
    let idx = places.iter().position(|q| *q == p).expect("built net contains p");
    assert_eq!(places[idx], p);
}
