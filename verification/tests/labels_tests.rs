use petrivet::builder::NetBuilder;
use petrivet::pnml::labels::NetLabels;
use petrivet::Arc;

#[test]
fn set_and_get_place_name() {
    let [p0, p1] = NetBuilder::new().add_places();
    let mut l = NetLabels::new();
    l.set_place_name(p0, "Idle");
    assert_eq!(l.place_name(p0), Some("Idle"));
    assert_eq!(l.place_name(p1), None);
}

#[test]
fn clear_place_name() {
    let p0 = NetBuilder::new().add_place();
    let mut l = NetLabels::new();
    l.set_place_name(p0, "Idle");
    l.clear_place_name(p0);
    assert_eq!(l.place_name(p0), None);
}

#[test]
fn set_and_get_transition_name() {
    let t0 = NetBuilder::new().add_transition();
    let mut l = NetLabels::new();
    l.set_transition_name(t0, "Fire");
    assert_eq!(l.transition_name(t0), Some("Fire"));
}

#[test]
fn chaining() {
    let mut b = NetBuilder::new();
    let [p0, p1] = b.add_places();
    let [t0, t1] = b.add_transitions();
    let mut l = NetLabels::new();
    l.set_place_name(p0, "A")
        .set_place_name(p1, "B")
        .set_transition_name(t0, "X")
        .set_transition_name(t1, "Y")
        .set_net_name("My net");
    assert_eq!(l.place_name(p0), Some("A"));
    assert_eq!(l.place_name(p1), Some("B"));
    assert_eq!(l.transition_name(t0), Some("X"));
    assert_eq!(l.transition_name(t1), Some("Y"));
    assert_eq!(l.net_name(), Some("My net"));
}

#[test]
fn arc_labels() {
    let mut b = NetBuilder::new();
    let p0 = b.add_place();
    let t0 = b.add_transition();
    let arc = Arc::PlaceToTransition(p0, t0);
    let mut l = NetLabels::new();
    l.set_arc_name(arc, "flow").set_arc_id(arc, "a0");
    assert_eq!(l.arc_name(arc), Some("flow"));
    assert_eq!(l.arc_id(arc), Some("a0"));
    l.clear_arc_name(arc);
    assert_eq!(l.arc_name(arc), None);
}

#[test]
fn named_places_iterator() {
    let [p0, p1] = NetBuilder::new().add_places();
    let mut l = NetLabels::new();
    l.set_place_name(p0, "Alpha");
    let named = l.named_places();
    assert_eq!(named.len(), 1);
    assert_eq!(named[0], (p0, "Alpha"));
    assert!(!named.iter().any(|(p, _)| *p == p1));
}

#[test]
fn named_transitions_iterator() {
    let [t0, t1] = NetBuilder::new().add_transitions();
    let mut l = NetLabels::new();
    l.set_transition_name(t0, "Start");
    let named = l.named_transitions();
    assert_eq!(named.len(), 1);
    assert_eq!(named[0], (t0, "Start"));
    assert!(!named.iter().any(|(t, _)| *t == t1));
}

#[test]
fn net_level_labels() {
    let mut l = NetLabels::new();
    l.set_net_name("Ring").set_net_id("n0").set_net_description("A token ring.");
    assert_eq!(l.net_name(), Some("Ring"));
    assert_eq!(l.net_id(), Some("n0"));
    assert_eq!(l.net_description(), Some("A token ring."));
}

#[test]
fn later_setting_replaces_earlier_one() {
    let [p0] = NetBuilder::new().add_places();
    let mut l = NetLabels::new();
    l.set_place_id(&p0, "first").set_place_id(&p0, "second");
    assert_eq!(l.place_id(p0), Some("second"));
    l.set_place_name(p0, "N");
    l.clear_place_name(p0);
    l.set_place_name(p0, "M");
    assert_eq!(l.place_name(p0), Some("M"));
    assert_eq!(l.named_places(), vec![(p0, "M")]);
}
