//! The PNML data model (ISO/IEC 15909-2) for place/transition nets, and its
//! conversion to and from the native [`Net`](crate::net::Net).
//!
//! The model keeps what the conversions read and write: identifiers, names,
//! arc endpoints, reference nodes, nested pages and initial markings. Graphics,
//! which carry floating-point coordinates, are not part of it.

use vstd::prelude::*;

pub mod convert;
pub mod export;
pub mod labels;
pub mod net;
pub mod round_trip;

verus! {

/// The type URI of place/transition nets.
pub open spec fn pt_net_type() -> Seq<char> {
    "http://www.pnml.org/version-2009/grammar/ptnet"@
}

/// The type URI of place/transition nets, as a string.
pub fn pt_net_uri() -> (r: String)
    ensures
        r@ == pt_net_type(),
{
    "http://www.pnml.org/version-2009/grammar/ptnet".to_owned()
}

/// A PNML document: a sequence of nets.
#[derive(Debug)]
pub struct PnmlDocument {
    pub nets: Vec<net::PnmlNet>,
}

/// A page: a container of net objects, possibly nested.
#[derive(Debug)]
pub struct Page {
    pub id: String,
    pub objects: Vec<PageObject>,
}

/// One object on a page.
#[derive(Debug)]
pub enum PageObject {
    Place(net::Place),
    Transition(net::Transition),
    Arc(net::Arc),
    ReferencePlace(ReferencePlace),
    ReferenceTransition(ReferenceTransition),
    Page(Page),
}

/// A node standing for the place whose identifier `refers_to` names (directly
/// or through further reference nodes).
#[derive(Debug, Clone, PartialEq, Eq)]
pub struct ReferencePlace {
    pub id: String,
    pub refers_to: String,
}

/// A node standing for the transition whose identifier `refers_to` names.
#[derive(Debug, Clone, PartialEq, Eq)]
pub struct ReferenceTransition {
    pub id: String,
    pub refers_to: String,
}

/// A label holding a natural number (`<initialMarking>`).
#[derive(Debug, Clone, PartialEq, Eq)]
pub struct NaturalNumberLabel {
    pub text: Option<u64>,
}

/// A label holding a positive integer (`<inscription>`).
#[derive(Debug, Clone, PartialEq, Eq)]
pub struct PositiveIntegerLabel {
    pub text: Option<u64>,
}

/// The kind of an arc (`<arctype>`), for net types beyond place/transition nets.
#[derive(Debug, Clone, Copy, PartialEq, Eq)]
pub enum ArcType {
    Normal,
    Inhibitor,
    Read,
    Reset,
}

/// A tool-specific annotation block (`<toolspecific tool=".." version="..">`).
#[derive(Debug, Clone, PartialEq, Eq)]
pub struct ToolSpecific {
    pub tool: String,
    pub version: String,
    pub content: Option<String>,
}

/// A net object reduced to what conversion reads: a place with its initial
/// token count and name, a transition with its name, an arc with its
/// endpoints and name, or a reference node with its target.
#[derive(Debug, Clone, PartialEq, Eq)]
pub enum NodeEntry {
    Place(String, Option<u64>, Option<String>),
    Transition(String, Option<String>),
    Arc(String, String, String, Option<String>),
    Reference(String, String),
}

/// The initial token count written on a place, if any.
pub open spec fn initial_count(p: net::Place) -> Option<u64> {
    match p.initial_marking {
        Some(label) => label.text,
        None => None,
    }
}

/// The entry of a non-page object.
pub open spec fn entry_of(o: PageObject) -> NodeEntry {
    match o {
        PageObject::Place(p) => NodeEntry::Place(p.id, initial_count(p), p.name),
        PageObject::Transition(t) => NodeEntry::Transition(t.id, t.name),
        PageObject::Arc(a) => NodeEntry::Arc(a.id, a.source, a.target, a.name),
        PageObject::ReferencePlace(r) => NodeEntry::Reference(r.id, r.refers_to),
        PageObject::ReferenceTransition(r) => NodeEntry::Reference(r.id, r.refers_to),
        PageObject::Page(_) => arbitrary(),
    }
}

/// The objects of a page tree flattened in document order: nested pages are
/// replaced by their own flattened objects.
pub open spec fn flat_entries(objs: Seq<PageObject>) -> Seq<NodeEntry>
    decreases objs,
{
    if objs.len() == 0 {
        seq![]
    } else {
        let rest = flat_entries(objs.drop_last());
        match objs.last() {
            PageObject::Page(pg) => {
                proof {
                    assert(decreases_to!(objs => objs[objs.len() - 1]));
                }
                rest + flat_entries(pg.objects@)
            },
            o => rest.push(entry_of(o)),
        }
    }
}

/// The objects of all pages of a net, flattened in document order.
pub open spec fn net_entries(pages: Seq<Page>) -> Seq<NodeEntry>
    decreases pages.len(),
{
    if pages.len() == 0 {
        seq![]
    } else {
        net_entries(pages.drop_last()) + flat_entries(pages.last().objects@)
    }
}

/// A copy of an optional string.
pub fn copy_text(o: &Option<String>) -> (r: Option<String>)
    ensures
        r == *o,
{
    match o {
        Some(s) => Some(s.clone()),
        None => None,
    }
}

/// Appends the flattened objects of `objs` to `out`.
fn collect_entries(objs: &Vec<PageObject>, out: &mut Vec<NodeEntry>)
    ensures
        final(out)@ == old(out)@ + flat_entries(objs@),
    decreases objs@,
{
    let mut i: usize = 0;
    while i < objs.len()
        invariant
            0 <= i <= objs@.len(),
            out@ == old(out)@ + flat_entries(objs@.take(i as int)),
        decreases objs@.len() - i,
    {
        let ghost before = out@;
        proof {
            assert(objs@.take(i + 1).drop_last() == objs@.take(i as int));
            assert(objs@.take(i + 1).last() == objs@[i as int]);
        }
        match &objs[i] {
            PageObject::Place(p) => {
                let count = match &p.initial_marking {
                    Some(label) => label.text,
                    None => None,
                };
                out.push(NodeEntry::Place(p.id.clone(), count, copy_text(&p.name)));
            },
            PageObject::Transition(t) => {
                out.push(NodeEntry::Transition(t.id.clone(), copy_text(&t.name)));
            },
            PageObject::Arc(a) => {
                out.push(NodeEntry::Arc(a.id.clone(), a.source.clone(), a.target.clone(), copy_text(&a.name)));
            },
            PageObject::ReferencePlace(r) => {
                out.push(NodeEntry::Reference(r.id.clone(), r.refers_to.clone()));
            },
            PageObject::ReferenceTransition(r) => {
                out.push(NodeEntry::Reference(r.id.clone(), r.refers_to.clone()));
            },
            PageObject::Page(pg) => {
                proof {
                    assert(decreases_to!(objs@ => objs@[i as int]));
                }
                collect_entries(&pg.objects, out);
            },
        }
        proof {
            assert(flat_entries(objs@.take(i + 1)) == flat_entries(objs@.take(i as int)) + (match objs@[i as int] {
                PageObject::Page(pg) => flat_entries(pg.objects@),
                o => seq![entry_of(o)],
            }));
            assert(out@ =~= old(out)@ + flat_entries(objs@.take(i + 1)));
        }
        i = i + 1;
    }
    proof {
        assert(objs@.take(objs@.len() as int) == objs@);
    }
}

/// The objects of all pages of `pages`, flattened in document order.
pub fn collect_net_entries(pages: &Vec<Page>) -> (r: Vec<NodeEntry>)
    ensures
        r@ == net_entries(pages@),
{
    let mut out: Vec<NodeEntry> = Vec::new();
    let mut i: usize = 0;
    while i < pages.len()
        invariant
            0 <= i <= pages@.len(),
            out@ == net_entries(pages@.take(i as int)),
        decreases pages@.len() - i,
    {
        proof {
            assert(pages@.take(i + 1).drop_last() == pages@.take(i as int));
            assert(pages@.take(i + 1).last() == pages@[i as int]);
        }
        collect_entries(&pages[i].objects, &mut out);
        i = i + 1;
    }
    proof {
        assert(pages@.take(pages@.len() as int) == pages@);
    }
    out
}

} // verus!
