use petrivet::builder::NetBuilder;
use petrivet::marking::Marking;
use petrivet::net::Net;
use petrivet::pnml::convert::{convert_pt_net, PnmlConversionError};
use petrivet::pnml::export::export_net;
use petrivet::pnml::labels::NetLabels;
use petrivet::pnml::net::{Arc as PArc, Place as PPlace, PnmlNet, Transition as PTransition};
use petrivet::pnml::{pt_net_uri, NaturalNumberLabel, Page, PageObject, ReferencePlace};
use petrivet::PetriNet;
use petrivet::Place;

fn simple_net() -> (Net, Place) {
    let mut b = NetBuilder::new();
    let [p0, p1] = b.add_places();
    let [t0, t1] = b.add_transitions();
    b.add_arcs((p0, t0, p1, t1, p0));
    (b.build().expect("valid net"), p0)
}

fn places_of(pnml_net: &PnmlNet) -> Vec<&PPlace> {
    pnml_net.pages[0]
        .objects
        .iter()
        .filter_map(|o| if let PageObject::Place(p) = o { Some(p) } else { None })
        .collect()
}

fn arcs_of(pnml_net: &PnmlNet) -> Vec<&PArc> {
    pnml_net.pages[0]
        .objects
        .iter()
        .filter_map(|o| if let PageObject::Arc(a) = o { Some(a) } else { None })
        .collect()
}

fn place(id: &str, tokens: Option<u64>) -> PageObject {
    PageObject::Place(PPlace {
        id: id.to_string(),
        name: None,
        initial_marking: tokens.map(|t| NaturalNumberLabel { text: Some(t) }),
    })
}

fn transition(id: &str) -> PageObject {
    PageObject::Transition(PTransition { id: id.to_string(), name: None })
}

fn arc(id: &str, source: &str, target: &str) -> PageObject {
    PageObject::Arc(PArc {
        id: id.to_string(),
        source: source.to_string(),
        target: target.to_string(),
        name: None,
        inscription: None,
        arc_type: None,
    })
}

fn pt_net(objects: Vec<PageObject>) -> PnmlNet {
    PnmlNet {
        id: "n".to_string(),
        net_type: pt_net_uri(),
        name: None,
        pages: vec![Page { id: "pg".to_string(), objects }],
        tool_specific: Vec::new(),
    }
}

#[test]
fn unlabeled_net_exports_generated_ids() {
    let (net, p0) = simple_net();
    let sys = PetriNet::new(&net, Marking::from_entries(vec![(p0, 2)]));
    let doc = sys.to_pnml();
    assert_eq!(doc.nets.len(), 1);
    let pnml_net = &doc.nets[0];
    assert_eq!(pnml_net.id, "net0");
    assert_eq!(pnml_net.net_type, pt_net_uri());
    assert_eq!(pnml_net.pages.len(), 1);
    assert_eq!(pnml_net.pages[0].id, "page0");

    let mut place_ids: Vec<&str> = places_of(pnml_net).iter().map(|p| p.id.as_str()).collect();
    place_ids.sort_unstable();
    assert_eq!(place_ids, ["p0", "p1"]);

    let mut arc_ids: Vec<&str> = arcs_of(pnml_net).iter().map(|a| a.id.as_str()).collect();
    arc_ids.sort_unstable();
    assert_eq!(arc_ids, ["a0", "a1", "a2", "a3"]);
}

#[test]
fn marking_written_only_for_marked_places() {
    let (net, p0) = simple_net();
    let sys = PetriNet::new(&net, Marking::from_entries(vec![(p0, 2)]));
    let doc = sys.to_pnml();
    let places = places_of(&doc.nets[0]);
    let marked: Vec<_> = places
        .iter()
        .filter_map(|p| p.initial_marking.as_ref().and_then(|m| m.text))
        .collect();
    assert_eq!(marked, [2], "exactly one place carries the two tokens");
    assert_eq!(
        places.iter().filter(|p| p.initial_marking.is_none()).count(),
        1,
        "the unmarked place has no initialMarking label"
    );
}

#[test]
fn net_without_marking_exports_no_initial_marking() {
    let (net, _) = simple_net();
    let doc = net.to_pnml();
    assert!(places_of(&doc.nets[0]).iter().all(|p| p.initial_marking.is_none()));
}

#[test]
fn arc_endpoints_reference_exported_node_ids() {
    let (net, p0) = simple_net();
    let sys = PetriNet::new(&net, Marking::from_entries(vec![(p0, 2)]));
    let doc = sys.to_pnml();
    let pnml_net = &doc.nets[0];
    let node_ids: Vec<&str> = pnml_net.pages[0]
        .objects
        .iter()
        .filter_map(|o| match o {
            PageObject::Place(p) => Some(p.id.as_str()),
            PageObject::Transition(t) => Some(t.id.as_str()),
            _ => None,
        })
        .collect();
    let arcs = arcs_of(pnml_net);
    assert_eq!(arcs.len(), 4);
    for arc in arcs {
        assert!(node_ids.contains(&arc.source.as_str()), "dangling source {}", arc.source);
        assert!(node_ids.contains(&arc.target.as_str()), "dangling target {}", arc.target);
        assert!(arc.inscription.is_none(), "unweighted arcs carry no inscription");
    }
}

#[test]
fn export_lists_ten_or_more_places_with_distinct_ids() {
    let mut b = NetBuilder::new();
    let t = b.add_transition();
    let mut ps = Vec::new();
    for _ in 0..12 {
        let p = b.add_place();
        b.add_arc((p, t));
        ps.push(p);
    }
    let net = b.build().expect("valid net");
    let doc = export_net(&net, None);
    let ids: Vec<&str> = places_of(&doc).iter().map(|p| p.id.as_str()).collect();
    assert_eq!(ids, ["p0", "p1", "p2", "p3", "p4", "p5", "p6", "p7", "p8", "p9", "p10", "p11"]);
    assert_eq!(doc.pages[0].objects.len(), 12 + 1 + 12);
}

#[test]
fn convert_builds_net_and_marking() {
    let pnml = pt_net(vec![
        place("a", Some(3)),
        place("b", None),
        transition("t"),
        arc("x", "a", "t"),
        arc("y", "t", "b"),
    ]);
    let (net, m0) = convert_pt_net(&pnml).expect("valid net");
    assert_eq!(net.place_count(), 2);
    assert_eq!(net.transition_count(), 1);
    assert_eq!(net.arcs().len(), 2);
    let total: u32 = net.places().iter().map(|p| m0.get(*p)).sum();
    assert_eq!(total, 3);
}

#[test]
fn convert_caps_large_initial_marking() {
    let pnml = pt_net(vec![
        place("a", Some(u64::MAX)),
        transition("t"),
        arc("x", "a", "t"),
    ]);
    let (net, m0) = convert_pt_net(&pnml).expect("valid net");
    assert_eq!(m0.get(net.places()[0]), u32::MAX);
}

#[test]
fn convert_flattens_nested_pages_and_resolves_references() {
    let inner = Page {
        id: "inner".to_string(),
        objects: vec![
            transition("t"),
            PageObject::ReferencePlace(ReferencePlace { id: "ref1".to_string(), refers_to: "ref0".to_string() }),
        ],
    };
    let pnml = pt_net(vec![
        place("a", Some(1)),
        PageObject::ReferencePlace(ReferencePlace { id: "ref0".to_string(), refers_to: "a".to_string() }),
        PageObject::Page(inner),
        arc("x", "ref1", "t"),
        arc("y", "t", "a"),
    ]);
    let (net, _) = convert_pt_net(&pnml).expect("valid net");
    assert_eq!(net.place_count(), 1);
    assert_eq!(net.transition_count(), 1);
    assert_eq!(net.arcs().len(), 2);
}

#[test]
fn convert_rejects_duplicate_ids() {
    let pnml = pt_net(vec![place("a", None), transition("a"), arc("x", "a", "a")]);
    assert_eq!(convert_pt_net(&pnml).err(), Some(PnmlConversionError::DuplicateId("a".to_string())));
}

#[test]
fn convert_rejects_dangling_and_same_kind_arcs() {
    let pnml = pt_net(vec![place("a", None), transition("t"), arc("x", "a", "nowhere")]);
    assert_eq!(
        convert_pt_net(&pnml).err(),
        Some(PnmlConversionError::UnresolvedArcEndpoint { arc_id: "x".to_string(), endpoint_id: "nowhere".to_string() })
    );
    let pnml = pt_net(vec![place("a", None), place("b", None), transition("t"), arc("x", "a", "b")]);
    assert_eq!(
        convert_pt_net(&pnml).err(),
        Some(PnmlConversionError::UnresolvedArcEndpoint { arc_id: "x".to_string(), endpoint_id: "b".to_string() })
    );
}

#[test]
fn convert_rejects_cyclic_references() {
    let pnml = pt_net(vec![
        place("a", None),
        transition("t"),
        PageObject::ReferencePlace(ReferencePlace { id: "r0".to_string(), refers_to: "r1".to_string() }),
        PageObject::ReferencePlace(ReferencePlace { id: "r1".to_string(), refers_to: "r0".to_string() }),
        arc("x", "r0", "t"),
    ]);
    assert_eq!(
        convert_pt_net(&pnml).err(),
        Some(PnmlConversionError::UnresolvedArcEndpoint { arc_id: "x".to_string(), endpoint_id: "r0".to_string() })
    );
}

#[test]
fn convert_rejects_disconnected_net() {
    let pnml = pt_net(vec![place("a", None), place("b", None), transition("t"), arc("x", "a", "t")]);
    assert!(matches!(convert_pt_net(&pnml).err(), Some(PnmlConversionError::InvalidTopology(_))));
}

#[test]
fn to_pt_system_rejects_other_net_types() {
    let mut pnml = pt_net(vec![place("a", None), transition("t"), arc("x", "a", "t")]);
    pnml.net_type = "http://www.pnml.org/version-2009/grammar/symmetricnet".to_string();
    assert!(matches!(pnml.to_pt_system().err(), Some(PnmlConversionError::WrongNetType(_))));
}

#[test]
fn export_then_convert_keeps_the_net() {
    let (net, p0) = simple_net();
    let sys = PetriNet::new(&net, Marking::from_entries(vec![(p0, 2)]));
    let doc = sys.to_pnml();
    let (back, m0) = convert_pt_net(&doc.nets[0]).expect("valid net");
    assert_eq!(back.place_count(), 2);
    assert_eq!(back.transition_count(), 2);
    assert_eq!(back.arcs().len(), 4);
    let total: u32 = back.places().iter().map(|p| m0.get(*p)).sum();
    assert_eq!(total, 2);
}

fn two_place_net() -> (Net, Place, Place) {
    let mut b = NetBuilder::new();
    let [p0, p1] = b.add_places();
    let t0 = b.add_transition();
    b.add_arcs((p0, t0, p1));
    (b.build().expect("valid net"), p0, p1)
}

#[test]
fn label_ids_and_names_are_reused() {
    let (mut pt_net, p0, _) = two_place_net();
    let mut labels = NetLabels::new();
    labels.set_net_id("demo1").set_net_name("Demo").set_place_id(&p0, "idle-place").set_place_name(p0, "Idle");
    pt_net.set_labels(labels);

    let doc = pt_net.to_pnml();
    let pnml_net = &doc.nets[0];
    assert_eq!(pnml_net.id, "demo1");
    assert_eq!(pnml_net.name.as_deref(), Some("Demo"));

    let places = places_of(pnml_net);
    let idle = places.iter().find(|p| p.id == "idle-place").expect("label-provided id is reused");
    assert_eq!(idle.name.as_deref(), Some("Idle"));
}

#[test]
fn generated_ids_avoid_label_ids() {
    let (mut pt_net, p0, _) = two_place_net();
    // One place claims "p0"; the generator must skip it for the other,
    // regardless of iteration order.
    let mut labels = NetLabels::new();
    labels.set_place_id(&p0, "p0");
    pt_net.set_labels(labels);

    let doc = pt_net.to_pnml();
    let mut place_ids: Vec<&str> = places_of(&doc.nets[0]).iter().map(|p| p.id.as_str()).collect();
    place_ids.sort_unstable();
    assert_eq!(place_ids, ["p0", "p1"]);
}

#[test]
fn duplicate_label_ids_are_repaired() {
    let (mut pt_net, p0, p1) = two_place_net();
    // Both places claim the same identifier; the export must not emit it twice.
    let mut labels = NetLabels::new();
    labels.set_place_id(&p0, "dup").set_place_id(&p1, "dup");
    pt_net.set_labels(labels);

    let doc = pt_net.to_pnml();
    let mut place_ids: Vec<&str> = places_of(&doc.nets[0]).iter().map(|p| p.id.as_str()).collect();
    place_ids.sort_unstable();
    place_ids.dedup();
    assert_eq!(place_ids.len(), 2, "identifiers must remain unique");
    assert!(place_ids.contains(&"dup"), "the first claimant keeps the identifier");
}

#[test]
fn generated_ids_skip_reserved_arc_and_net_ids() {
    let (mut pt_net, p0, _) = two_place_net();
    let t0 = pt_net.transitions()[0];
    let mut labels = NetLabels::new();
    labels.set_arc_id(petrivet::Arc::PlaceToTransition(p0, t0), "net0").set_transition_id(t0, "page0");
    pt_net.set_labels(labels);

    let doc = pt_net.to_pnml();
    let pnml_net = &doc.nets[0];
    assert_eq!(pnml_net.id, "net1");
    assert_eq!(pnml_net.pages[0].id, "page1");
    let arc_ids: Vec<&str> = arcs_of(pnml_net).iter().map(|a| a.id.as_str()).collect();
    assert!(arc_ids.contains(&"net0"));
}

#[test]
fn import_then_export_keeps_ids_and_names() {
    let mut pnml = pt_net(vec![
        PageObject::Place(PPlace {
            id: "a".to_string(),
            name: Some("Alpha".to_string()),
            initial_marking: Some(NaturalNumberLabel { text: Some(1) }),
        }),
        place("b", None),
        PageObject::Transition(PTransition { id: "t".to_string(), name: Some("Go".to_string()) }),
        arc("x", "a", "t"),
        arc("y", "t", "b"),
    ]);
    pnml.name = Some("Small".to_string());
    let (net, m0) = convert_pt_net(&pnml).expect("valid net");
    let sys = PetriNet::new(&net, m0);
    let doc = sys.to_pnml();
    let back = &doc.nets[0];
    assert_eq!(back.id, "n");
    assert_eq!(back.name.as_deref(), Some("Small"));
    let mut ids: Vec<(&str, Option<&str>)> = places_of(back).iter().map(|p| (p.id.as_str(), p.name.as_deref())).collect();
    ids.sort_unstable();
    assert_eq!(ids, [("a", Some("Alpha")), ("b", None)]);
    let mut arc_ids: Vec<(&str, &str, &str)> =
        arcs_of(back).iter().map(|a| (a.id.as_str(), a.source.as_str(), a.target.as_str())).collect();
    arc_ids.sort_unstable();
    assert_eq!(arc_ids, [("x", "a", "t"), ("y", "t", "b")]);
    let t_names: Vec<(&str, Option<&str>)> = back.pages[0]
        .objects
        .iter()
        .filter_map(|o| if let PageObject::Transition(t) = o { Some((t.id.as_str(), t.name.as_deref())) } else { None })
        .collect();
    assert_eq!(t_names, [("t", Some("Go"))]);
}
