//! Paths and circuits through the bipartite graph of a net.

use crate::net::{Arc, Node, Place, Transition};
use vstd::prelude::*;

verus! {

/// Whether two nodes are of different kinds (a place and a transition).
pub open spec fn kinds_differ(a: Node, b: Node) -> bool {
    (a is Place) != (b is Place)
}

/// Whether places and transitions alternate along `s`.
pub open spec fn alternates(s: Seq<Node>) -> bool {
    forall|i: int| 0 <= i < s.len() - 1 ==> #[trigger] kinds_differ(s[i], s[i + 1])
}

/// The arc from node `a` to node `b` of the other kind.
pub open spec fn arc_between(a: Node, b: Node) -> Arc {
    match (a, b) {
        (Node::Place(p), Node::Transition(t)) => Arc::PlaceToTransition(p, t),
        (Node::Transition(t), Node::Place(p)) => Arc::TransitionToPlace(t, p),
        _ => arbitrary(),
    }
}

/// The arc from node `a` to node `b`, which must be of different kinds.
fn arc_of(a: Node, b: Node) -> (r: Arc)
    requires
        kinds_differ(a, b),
    ensures
        r == arc_between(a, b),
{
    match (a, b) {
        (Node::Place(p), Node::Transition(t)) => Arc::PlaceToTransition(p, t),
        (Node::Transition(t), Node::Place(p)) => Arc::TransitionToPlace(t, p),
        _ => {
            proof {
                assert(false);
            }
            unreached()
        },
    }
}

/// Along an alternating sequence, the node at `i` is of the kind of the
/// first node exactly when `i` is even.
pub(crate) proof fn lemma_parity(s: Seq<Node>, i: int)
    requires
        alternates(s),
        0 <= i < s.len(),
    ensures
        ((s[i] is Place) == (s[0] is Place)) == (i % 2 == 0),
    decreases i,
{
    if i > 0 {
        lemma_parity(s, i - 1);
        let j = i - 1;
        assert(kinds_differ(s[j], s[j + 1]));
    }
}

/// The places along `s`, in order.
pub open spec fn places_along(s: Seq<Node>) -> Seq<Place>
    decreases s.len(),
{
    if s.len() == 0 {
        seq![]
    } else {
        places_along(s.drop_last()) + match s.last() {
            Node::Place(p) => seq![p],
            Node::Transition(_) => seq![],
        }
    }
}

/// The transitions along `s`, in order.
pub open spec fn transitions_along(s: Seq<Node>) -> Seq<Transition>
    decreases s.len(),
{
    if s.len() == 0 {
        seq![]
    } else {
        transitions_along(s.drop_last()) + match s.last() {
            Node::Transition(t) => seq![t],
            Node::Place(_) => seq![],
        }
    }
}

/// The arcs between consecutive nodes of `s`.
pub open spec fn arcs_along(s: Seq<Node>) -> Seq<Arc> {
    Seq::new((if s.len() == 0 { 0 } else { s.len() - 1 }) as nat, |i: int| arc_between(s[i], s[i + 1]))
}

/// An alternating sequence of places and transitions, with implied arcs
/// between consecutive nodes. It may start and end with either kind; it knows
/// nothing of the net it runs through.
#[derive(Debug, PartialEq, Eq, Hash)]
pub struct Path {
    member_nodes: Vec<Node>,
}

impl Path {
    /// The nodes of the path.
    pub closed spec fn node_seq(&self) -> Seq<Node> {
        self.member_nodes@
    }

    /// Places and transitions alternate along every path.
    #[verifier::type_invariant]
    closed spec fn alternating(&self) -> bool {
        alternates(self.member_nodes@)
    }

    /// The empty path.
    pub fn new() -> (r: Path)
        ensures
            r.node_seq() == Seq::<Node>::empty(),
    {
        Path { member_nodes: Vec::new() }
    }

    /// Appends `node`, which must be of the other kind than the last node;
    /// leaves the path unchanged and fails otherwise.
    pub fn push(&mut self, node: Node) -> (r: Result<(), ()>)
        ensures
            r is Ok <==> old(self).node_seq().len() == 0 || kinds_differ(old(self).node_seq().last(), node),
            r is Ok ==> final(self).node_seq() == old(self).node_seq().push(node),
            r is Err ==> final(self).node_seq() == old(self).node_seq(),
    {
        proof {
            use_type_invariant(&*self);
        }
        let len = self.member_nodes.len();
        let ok = if len == 0 {
            true
        } else {
            let last = self.member_nodes[len - 1];
            match (last, node) {
                (Node::Place(_), Node::Transition(_)) | (Node::Transition(_), Node::Place(_)) => true,
                _ => false,
            }
        };
        if ok {
            let mut nodes: Vec<Node> = Vec::new();
            std::mem::swap(&mut nodes, &mut self.member_nodes);
            let ghost before = nodes@;
            nodes.push(node);
            proof {
                assert forall|i: int| 0 <= i < nodes@.len() - 1 implies #[trigger] kinds_differ(nodes@[i], nodes@[i + 1]) by {
                    if i < before.len() - 1 {
                        assert(kinds_differ(before[i], before[i + 1]));
                    }
                }
            }
            self.member_nodes = nodes;
            Ok(())
        } else {
            Err(())
        }
    }

    /// Removes and returns the last node, if any.
    pub fn pop(&mut self) -> (r: Option<Node>)
        ensures
            old(self).node_seq().len() == 0 ==> r is None && final(self).node_seq() == old(self).node_seq(),
            old(self).node_seq().len() > 0 ==> r == Some(old(self).node_seq().last()) && final(self).node_seq() == old(self).node_seq().drop_last(),
    {
        proof {
            use_type_invariant(&*self);
        }
        let mut nodes: Vec<Node> = Vec::new();
            std::mem::swap(&mut nodes, &mut self.member_nodes);
        let ghost before = nodes@;
        let r = nodes.pop();
        proof {
            assert forall|i: int| 0 <= i < nodes@.len() - 1 implies #[trigger] kinds_differ(nodes@[i], nodes@[i + 1]) by {
                assert(kinds_differ(before[i], before[i + 1]));
            }
        }
        self.member_nodes = nodes;
        r
    }

    /// The path made of `nodes`, if places and transitions alternate along them.
    pub fn try_from_nodes(nodes: Vec<Node>) -> (r: Result<Path, ()>)
        ensures
            r is Ok <==> alternates(nodes@),
            r matches Ok(p) ==> p.node_seq() == nodes@,
    {
        if nodes.len() == 0 {
            return Ok(Path { member_nodes: nodes });
        }
        let mut i: usize = 0;
        while i < nodes.len() - 1
            invariant
                nodes@.len() > 0,
                0 <= i <= nodes@.len() - 1,
                forall|k: int| 0 <= k < i ==> #[trigger] kinds_differ(nodes@[k], nodes@[k + 1]),
            decreases nodes@.len() - i,
        {
            let ok = match (nodes[i], nodes[i + 1]) {
                (Node::Place(_), Node::Transition(_)) | (Node::Transition(_), Node::Place(_)) => true,
                _ => false,
            };
            if !ok {
                proof {
                    assert(!kinds_differ(nodes@[i as int], nodes@[i + 1]));
                }
                return Err(());
            }
            i = i + 1;
        }
        Ok(Path { member_nodes: nodes })
    }

    /// The nodes of the path; places and transitions alternate along them.
    pub fn nodes(&self) -> (r: &Vec<Node>)
        ensures
            r@ == self.node_seq(),
            alternates(r@),
    {
        proof {
            use_type_invariant(self);
        }
        &self.member_nodes
    }

    /// The number of nodes.
    pub fn len(&self) -> (r: usize)
        ensures
            r == self.node_seq().len(),
    {
        self.member_nodes.len()
    }

    /// Whether the path has no node.
    pub fn is_empty(&self) -> (r: bool)
        ensures
            r == (self.node_seq().len() == 0),
    {
        self.member_nodes.len() == 0
    }

    /// The places on the path, in order.
    pub fn places(&self) -> (r: Vec<Place>)
        ensures
            r@ == places_along(self.node_seq()),
    {
        let mut r: Vec<Place> = Vec::new();
        let mut i: usize = 0;
        while i < self.member_nodes.len()
            invariant
                0 <= i <= self.member_nodes@.len(),
                r@ == places_along(self.member_nodes@.take(i as int)),
            decreases self.member_nodes@.len() - i,
        {
            proof {
                assert(self.member_nodes@.take(i + 1).drop_last() == self.member_nodes@.take(i as int));
            }
            match self.member_nodes[i] {
                Node::Place(p) => r.push(p),
                Node::Transition(_) => {},
            }
            i = i + 1;
        }
        proof {
            assert(self.member_nodes@.take(i as int) == self.member_nodes@);
        }
        r
    }

    /// The transitions on the path, in order.
    pub fn transitions(&self) -> (r: Vec<Transition>)
        ensures
            r@ == transitions_along(self.node_seq()),
    {
        let mut r: Vec<Transition> = Vec::new();
        let mut i: usize = 0;
        while i < self.member_nodes.len()
            invariant
                0 <= i <= self.member_nodes@.len(),
                r@ == transitions_along(self.member_nodes@.take(i as int)),
            decreases self.member_nodes@.len() - i,
        {
            proof {
                assert(self.member_nodes@.take(i + 1).drop_last() == self.member_nodes@.take(i as int));
            }
            match self.member_nodes[i] {
                Node::Transition(t) => r.push(t),
                Node::Place(_) => {},
            }
            i = i + 1;
        }
        proof {
            assert(self.member_nodes@.take(i as int) == self.member_nodes@);
        }
        r
    }

    /// The arcs between consecutive nodes of the path.
    pub fn arcs(&self) -> (r: Vec<Arc>)
        ensures
            r@ == arcs_along(self.node_seq()),
    {
        proof {
            use_type_invariant(self);
        }
        let mut r: Vec<Arc> = Vec::new();
        let n = self.member_nodes.len();
        if n == 0 {
            proof {
                assert(r@ == arcs_along(self.node_seq()));
            }
            return r;
        }
        let mut i: usize = 0;
        while i + 1 < n
            invariant
                n == self.member_nodes@.len(),
                alternates(self.member_nodes@),
                n > 0,
                0 <= i < n,
                r@.len() == i,
                forall|k: int| 0 <= k < i ==> #[trigger] r@[k] == arc_between(self.member_nodes@[k], self.member_nodes@[k + 1]),
            decreases n - i,
        {
            let a = self.member_nodes[i];
            let b = self.member_nodes[i + 1];
            proof {
                assert(kinds_differ(self.member_nodes@[i as int], self.member_nodes@[i + 1]));
            }
            r.push(arc_of(a, b));
            i = i + 1;
        }
        proof {
            assert(r@ == arcs_along(self.node_seq()));
        }
        r
    }
}

impl Default for Path {
    fn default() -> (r: Path)
        ensures
            r.node_seq() == Seq::<Node>::empty(),
    {
        Path::new()
    }
}

/// A path whose last node leads back to its first: nonempty, of even length,
/// so that the closing arc also joins two nodes of different kinds. The
/// nodes need not be distinct.
#[derive(Debug, PartialEq, Eq, Hash)]
pub struct Circuit {
    path: Path,
}

impl Circuit {
    /// The nodes of the circuit.
    pub closed spec fn node_seq(&self) -> Seq<Node> {
        self.path.node_seq()
    }

    /// A circuit is a nonempty path of even length.
    #[verifier::type_invariant]
    closed spec fn closes(&self) -> bool {
        &&& self.path.node_seq().len() > 0
        &&& self.path.node_seq().len() % 2 == 0
    }

    /// The circuit along `path`, if the path is nonempty and of even length.
    pub fn try_from_path(path: Path) -> (r: Result<Circuit, ()>)
        ensures
            r is Ok <==> path.node_seq().len() > 0 && path.node_seq().len() % 2 == 0,
            r matches Ok(c) ==> c.node_seq() == path.node_seq(),
    {
        let n = path.len();
        if n == 0 || n % 2 != 0 {
            return Err(());
        }
        Ok(Circuit { path })
    }

    /// The underlying path: nonempty and of even length.
    pub fn path(&self) -> (r: &Path)
        ensures
            r.node_seq() == self.node_seq(),
            r.node_seq().len() > 0,
            r.node_seq().len() % 2 == 0,
    {
        proof {
            use_type_invariant(self);
        }
        &self.path
    }

    /// The arcs of the circuit: those of its path, then the arc from the last
    /// node back to the first.
    pub fn arcs(&self) -> (r: Vec<Arc>)
        ensures
            r@ == arcs_along(self.node_seq()).push(arc_between(self.node_seq().last(), self.node_seq()[0])),
    {
        proof {
            use_type_invariant(self);
        }
        let mut r = self.path.arcs();
        let nodes = self.path.nodes();
        let n = nodes.len();
        let last = nodes[n - 1];
        let first = nodes[0];
        proof {
            lemma_parity(nodes@, n - 1);
        }
        r.push(arc_of(last, first));
        r
    }
}

} // verus!
