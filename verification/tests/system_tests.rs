use petrivet::builder::NetBuilder;
use petrivet::marking::{Marking, Omega};
use petrivet::system::boundedness::Boundedness;
use petrivet::{Net, PetriNet, Place, Transition};

fn two_place_cycle() -> (Net, Place, Transition, Place, Transition) {
    let mut b = NetBuilder::new();
    let [p0, p1] = b.add_places();
    let [t0, t1] = b.add_transitions();
    b.add_arcs((p0, t0, p1, t1, p0));
    let net = b.build().expect("valid net");
    (net, p0, t0, p1, t1)
}

#[test]
fn boundedness_ord() {
    assert!(Boundedness::Bounded(0) < Boundedness::Bounded(1));
    assert!(Boundedness::Bounded(usize::MAX) < Boundedness::Unbounded);
}

#[test]
fn boundedness_predicates() {
    assert!(Boundedness::Bounded(1).is_safe());
    assert!(!Boundedness::Bounded(2).is_safe());
    assert!(Boundedness::Bounded(2).is_k_bounded(2));
    assert!(!Boundedness::Unbounded.is_k_bounded(usize::MAX));
    assert!(Boundedness::Unbounded.is_unbounded());
    assert!(Boundedness::Bounded(3).is_bounded());
}

#[test]
fn basic_firing() {
    let (net, p0, t0, p1, _t1) = two_place_cycle();
    let mut sys = PetriNet::new(&net, Marking::from_entries(vec![(p0, 1)]));
    assert_eq!(sys.marking(), Marking::from_entries(vec![(p0, 1)]));
    assert!(sys.is_enabled(t0));
    sys.try_fire(t0).unwrap();
    assert_eq!(sys.marking(), Marking::from_entries(vec![(p1, 1)]));
}

#[test]
fn try_fire_not_enabled() {
    let (net, p0, _t0, _p1, t1) = two_place_cycle();
    let mut sys = PetriNet::new(&net, Marking::from_entries(vec![(p0, 1)]));
    assert!(sys.try_fire(t1).is_err());
    assert_eq!(sys.try_fire(t1).unwrap_err().message(), "transition is not enabled");
}

#[test]
fn fire_any_deadlock() {
    let (net, _p0, _t0, _p1, _t1) = two_place_cycle();
    let mut sys = PetriNet::new(&net, Marking::empty());
    assert!(sys.is_deadlocked());
    assert!(sys.fire_any().is_none());
}

#[test]
fn enabled_transitions_query() {
    let (net, p0, t0, p1, t1) = two_place_cycle();
    let sys = PetriNet::new(&net, Marking::from_entries(vec![(p0, 1), (p1, 1)]));
    let enabled = sys.enabled_transitions();
    assert!(enabled.contains(&t0));
    assert!(enabled.contains(&t1));
}

#[test]
fn into_parts() {
    let (net, p0, t0, p1, _t1) = two_place_cycle();
    let mut sys = PetriNet::new(&net, Marking::from_entries(vec![(p0, 1)]));
    sys.try_fire(t0).unwrap();
    let parts = sys.into_parts();
    assert_eq!(parts.1, Marking::from_entries(vec![(p1, 1)]));
    assert_eq!(parts.2, Marking::from_entries(vec![(p0, 1)]));
}

#[test]
fn reset_returns_previous_marking() {
    let (net, p0, t0, p1, _t1) = two_place_cycle();
    let mut sys = PetriNet::new(&net, Marking::from_entries(vec![(p0, 1)]));
    sys.fire_unchecked(t0);
    assert_eq!(sys.tokens_in(p1), 1);
    let previous = sys.reset();
    assert_eq!(previous, Marking::from_entries(vec![(p1, 1)]));
    assert_eq!(sys.tokens_in(p0), 1);
    assert_eq!(sys.tokens_in(p1), 0);
}

#[test]
fn fire_any_fires_an_enabled_transition() {
    let (net, p0, t0, p1, _t1) = two_place_cycle();
    let mut sys = PetriNet::new(&net, Marking::from_entries(vec![(p0, 1)]));
    assert_eq!(sys.fire_any(), Some(t0));
    assert_eq!(sys.tokens_in(p1), 1);
}

#[test]
fn net_is_deadlock() {
    let (net, p0, _t0, _p1, _t1) = two_place_cycle();
    assert!(net.is_deadlock(Marking::empty()));
    assert!(!net.is_deadlock(Marking::from_entries(vec![(p0, 1)])));
}

#[test]
fn marking_entries_are_canonical() {
    let (_net, p0, _t0, p1, _t1) = two_place_cycle();
    let m = Marking::from_entries(vec![(p1, 3), (p0, 0), (p0, 2), (p1, 7)]);
    assert_eq!(m.get(p0), 2);
    assert_eq!(m.get(p1), 3);
    assert_eq!(m.total_tokens(), 5);
    assert_eq!(m.max_token_count(), 3);
    assert_eq!(m.support().len(), 2);
    assert_eq!(Marking::<u32>::empty().max_token_count(), 0);
}

#[test]
fn omega_markings() {
    let (_net, p0, _t0, p1, _t1) = two_place_cycle();
    let m = Marking::from_entries(vec![(p0, 2)]);
    let om = Marking::<Omega>::from_marking(&m);
    assert!(om.is_finite());
    assert_eq!(om.get(p0), Omega::Finite(2));
    let w = Marking::from_entries(vec![(p1, Omega::Unbounded)]);
    assert!(w.has_omega());
    assert_eq!(w.get(p0), Omega::Finite(0));
}
