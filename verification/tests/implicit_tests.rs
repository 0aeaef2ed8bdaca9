use petrivet::builder::NetBuilder;
use petrivet::marking::Marking;
use petrivet::system::implicit::ImplicitPlaceWitness;
use petrivet::{Net, PetriNet, Place, Transition};

/// `r` duplicates `a`: `t: {a, r} → b` and `u: b → {a, r}`.
fn parallel_place_net() -> (Net, Place, Place, Place, Transition, Transition) {
    let mut nb = NetBuilder::new();
    let [pa, pb, pr] = nb.add_places();
    let [t_consume, t_produce] = nb.add_transitions();
    nb.add_arc((pa, t_consume));
    nb.add_arc((pr, t_consume));
    nb.add_arc((t_consume, pb));
    nb.add_arc((pb, t_produce));
    nb.add_arc((t_produce, pa));
    nb.add_arc((t_produce, pr));
    (nb.build().expect("valid net"), pa, pb, pr, t_consume, t_produce)
}

#[test]
fn parallel_place_witness_verifies() {
    let (net, a, _b, r, _, _) = parallel_place_net();
    let sys = PetriNet::new(&net, Marking::from_entries(vec![(a, 1), (r, 1)]));
    let wr = ImplicitPlaceWitness::new(r, vec![(a, 1)], 1);
    assert_eq!(wr.place(), r);
    assert_eq!(wr.weights(), &[(a, 1)]);
    assert_eq!(wr.scale(), 1);
    assert!(sys.verify_implicit_place(&wr));
    let wa = ImplicitPlaceWitness::new(a, vec![(r, 1)], 1);
    assert!(sys.verify_implicit_place(&wa));
    let scaled = ImplicitPlaceWitness::new(r, vec![(a, 2)], 2);
    assert!(sys.verify_implicit_place(&scaled));
}

#[test]
fn forged_witness_for_essential_place_is_rejected() {
    let (net, a, b, r, _, _) = parallel_place_net();
    let sys = PetriNet::new(&net, Marking::from_entries(vec![(a, 1), (r, 1)]));
    let forged = ImplicitPlaceWitness::new(b, Vec::new(), 1);
    assert!(!sys.verify_implicit_place(&forged), "a bogus witness must be rejected");
}

#[test]
fn enabling_condition_depends_on_marking() {
    let (net, a, _b, r, _, _) = parallel_place_net();
    // With a token on `a` but none on `r`, `r` alone disables the consumer.
    let sys = PetriNet::new(&net, Marking::from_entries(vec![(a, 1)]));
    let wr = ImplicitPlaceWitness::new(r, vec![(a, 1)], 1);
    assert!(!sys.verify_implicit_place(&wr));
}

#[test]
fn flow_condition_is_checked() {
    let (net, a, _b, r, _, _) = parallel_place_net();
    let sys = PetriNet::new(&net, Marking::from_entries(vec![(a, 1), (r, 1)]));
    // Twice the weight of `a` dominates the flow of `r` on no transition.
    let wr = ImplicitPlaceWitness::new(r, vec![(a, 2)], 1);
    assert!(!sys.verify_implicit_place(&wr));
}

#[test]
fn zero_scale_and_foreign_places_are_rejected() {
    let (net, a, _b, r, _, _) = parallel_place_net();
    let sys = PetriNet::new(&net, Marking::from_entries(vec![(a, 1), (r, 1)]));
    assert!(!sys.verify_implicit_place(&ImplicitPlaceWitness::new(r, vec![(a, 1)], 0)));
    let mut other = NetBuilder::new();
    let [_, _, _, _, foreign] = other.add_places();
    assert!(!sys.verify_implicit_place(&ImplicitPlaceWitness::new(foreign, vec![(a, 1)], 1)));
    assert!(!sys.verify_implicit_place(&ImplicitPlaceWitness::new(r, vec![(foreign, 1)], 1)));
}

#[test]
fn last_listed_weight_counts() {
    let (net, a, _b, r, _, _) = parallel_place_net();
    let sys = PetriNet::new(&net, Marking::from_entries(vec![(a, 1), (r, 1)]));
    assert!(sys.verify_implicit_place(&ImplicitPlaceWitness::new(r, vec![(a, 5), (a, 1)], 1)));
    assert!(!sys.verify_implicit_place(&ImplicitPlaceWitness::new(r, vec![(a, 1), (a, 5)], 1)));
}

#[test]
fn two_place_cycle_place_is_not_certified_by_empty_weights() {
    let mut b = NetBuilder::new();
    let [p0, p1] = b.add_places();
    let [t0, t1] = b.add_transitions();
    b.add_arcs((p0, t0, p1, t1, p0));
    let net = b.build().expect("valid net");
    let sys = PetriNet::new(&net, Marking::from_entries(vec![(p0, 1)]));
    assert!(!sys.verify_implicit_place(&ImplicitPlaceWitness::new(p0, Vec::new(), 1)));
    assert!(!sys.verify_implicit_place(&ImplicitPlaceWitness::new(p1, vec![(p0, 1)], 1)));
}

#[test]
fn certified_place_is_marked_whenever_the_other_input_is() {
    let (net, a, _b, r, t_consume, t_produce) = parallel_place_net();
    let mut sys = PetriNet::new(&net, Marking::from_entries(vec![(a, 1), (r, 1)]));
    assert!(sys.verify_implicit_place(&ImplicitPlaceWitness::new(r, vec![(a, 1)], 1)));
    for t in [t_consume, t_produce, t_consume, t_produce] {
        if sys.tokens_in(a) > 0 {
            assert!(sys.tokens_in(r) > 0);
        }
        sys.try_fire(t).expect("enabled");
    }
    assert!(sys.tokens_in(a) > 0 && sys.tokens_in(r) > 0);
}
