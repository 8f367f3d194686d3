//! A directed graph over labelled nodes that keeps every edge it is given,
//! repeated edges too, each node with its successors in the order in which
//! the edges came.

use crate::k_mer_utils::texts;
use vstd::hash_map::StringHashMap;
use vstd::prelude::*;

verus! {

/// Whether an edge leaves `node`.
pub open spec fn leaves(node: Seq<char>) -> spec_fn((Seq<char>, Seq<char>)) -> bool {
    |edge: (Seq<char>, Seq<char>)| edge.0 == node
}

/// The node that an edge leads to.
pub open spec fn target() -> spec_fn((Seq<char>, Seq<char>)) -> Seq<char> {
    |edge: (Seq<char>, Seq<char>)| edge.1
}

/// The successors of `node` along `walk`: where the edges that leave the
/// node lead to, once for each such edge, in the order of the walk.
pub open spec fn successors_in(walk: Seq<(Seq<char>, Seq<char>)>, node: Seq<char>) -> Seq<
    Seq<char>,
> {
    walk.filter(leaves(node)).map_values(target())
}

/// Whether some edge of `walk` leaves `node` or leads to it.
pub open spec fn is_node_in(walk: Seq<(Seq<char>, Seq<char>)>, node: Seq<char>) -> bool {
    exists|i: int| 0 <= i < walk.len() && ((#[trigger] walk[i]).0 == node || walk[i].1 == node)
}

/// One more edge adds its target to the successors of the node that it
/// leaves, and changes no other node's successors.
pub proof fn lemma_successors_push(
    walk: Seq<(Seq<char>, Seq<char>)>,
    edge: (Seq<char>, Seq<char>),
    node: Seq<char>,
)
    ensures
        successors_in(walk.push(edge), node) == if edge.0 == node {
            successors_in(walk, node).push(edge.1)
        } else {
            successors_in(walk, node)
        },
{
    walk.lemma_filter_push(edge, leaves(node));
    if edge.0 == node {
        walk.filter(leaves(node)).lemma_push_map_commute(target(), edge);
    }
}

/// A label that no edge of the walk leaves has no successors.
pub proof fn lemma_successors_of_stranger(walk: Seq<(Seq<char>, Seq<char>)>, node: Seq<char>)
    requires
        forall|i: int| 0 <= i < walk.len() ==> (#[trigger] walk[i]).0 != node,
    ensures
        successors_in(walk, node) == Seq::<Seq<char>>::empty(),
    decreases walk.len(),
{
    if walk.len() == 0 {
        reveal(Seq::filter);
    } else {
        let before = walk.drop_last();
        assert forall|i: int| 0 <= i < before.len() implies (#[trigger] before[i]).0 != node by {}
        lemma_successors_of_stranger(before, node);
        assert(walk =~= before.push(walk.last()));
        lemma_successors_push(before, walk.last(), node);
    }
}

/// A node with the nodes that its edges lead to.
struct Node {
    label: String,
    successors: Vec<String>,
}

/// The graph: its nodes in the order in which they first occurred, and where
/// each label stands among them.
pub struct Adjacency {
    nodes: Vec<Node>,
    lookup: StringHashMap<usize>,
    walk: Ghost<Seq<(Seq<char>, Seq<char>)>>,
}

/// Whether each label is looked up to the node that bears it.
spec fn nodes_agree(lookup: Map<Seq<char>, usize>, nodes: Seq<Node>) -> bool {
    &&& forall|label: Seq<char>| #[trigger]
        lookup.contains_key(label) ==> lookup[label] < nodes.len() && nodes[lookup[label] as int].label@
            == label
    &&& forall|p: int|
        0 <= p < nodes.len() ==> lookup.contains_key((#[trigger] nodes[p]).label@)
            && lookup[nodes[p].label@] == p
}

/// Whether the nodes are those of `walk`, each with its successors.
spec fn nodes_hold(
    lookup: Map<Seq<char>, usize>,
    nodes: Seq<Node>,
    walk: Seq<(Seq<char>, Seq<char>)>,
) -> bool {
    &&& forall|label: Seq<char>| #[trigger] lookup.contains_key(label) <==> is_node_in(walk, label)
    &&& forall|p: int|
        0 <= p < nodes.len() ==> texts((#[trigger] nodes[p]).successors@) == successors_in(
            walk,
            nodes[p].label@,
        )
}

proof fn lemma_is_node_push(
    walk: Seq<(Seq<char>, Seq<char>)>,
    edge: (Seq<char>, Seq<char>),
    node: Seq<char>,
)
    ensures
        is_node_in(walk.push(edge), node) <==> is_node_in(walk, node) || edge.0 == node || edge.1
            == node,
{
    let more = walk.push(edge);
    if is_node_in(walk, node) {
        let i = choose|i: int|
            0 <= i < walk.len() && ((#[trigger] walk[i]).0 == node || walk[i].1 == node);
        assert(more[i] == walk[i]);
    }
    if edge.0 == node || edge.1 == node {
        assert(more[walk.len() as int] == edge);
    }
}

/// What one more edge does to the nodes: the node that it leaves gains a
/// successor, and both of its ends are nodes from then on.
proof fn lemma_link(
    lookup: Map<Seq<char>, usize>,
    nodes: Seq<Node>,
    lookup2: Map<Seq<char>, usize>,
    nodes2: Seq<Node>,
    walk: Seq<(Seq<char>, Seq<char>)>,
    edge: (Seq<char>, Seq<char>),
)
    requires
        nodes_agree(lookup, nodes),
        nodes_hold(lookup, nodes, walk),
        nodes_agree(lookup2, nodes2),
        forall|label: Seq<char>| #[trigger]
            lookup2.contains_key(label) <==> lookup.contains_key(label) || label == edge.0 || label
                == edge.1,
        nodes2.len() >= nodes.len(),
        forall|p: int| 0 <= p < nodes.len() ==> (#[trigger] nodes2[p]).label@ == nodes[p].label@,
        forall|p: int|
            0 <= p < nodes2.len() ==> texts((#[trigger] nodes2[p]).successors@) == if nodes2[p].label@
                == edge.0 {
                (if p < nodes.len() {
                    texts(nodes[p].successors@)
                } else {
                    Seq::<Seq<char>>::empty()
                }).push(edge.1)
            } else if p < nodes.len() {
                texts(nodes[p].successors@)
            } else {
                Seq::<Seq<char>>::empty()
            },
    ensures
        nodes_hold(lookup2, nodes2, walk.push(edge)),
{
    let more = walk.push(edge);
    assert forall|label: Seq<char>| #[trigger]
        lookup2.contains_key(label) <==> is_node_in(more, label) by {
        lemma_is_node_push(walk, edge, label);
    }
    assert forall|p: int| 0 <= p < nodes2.len() implies texts((#[trigger] nodes2[p]).successors@)
        == successors_in(more, nodes2[p].label@) by {
        let label = nodes2[p].label@;
        lemma_successors_push(walk, edge, label);
        if p >= nodes.len() {
            // A node that is new was on no edge before.
            if lookup.contains_key(label) {
                let q = lookup[label] as int;
                assert(nodes2[q].label@ == label);
            }
            lemma_successors_of_stranger(walk, label);
        }
    }
}

impl View for Adjacency {
    type V = Seq<(Seq<char>, Seq<char>)>;

    /// The edges that the graph was given, in the order in which they came.
    closed spec fn view(&self) -> Seq<(Seq<char>, Seq<char>)> {
        self.walk@
    }
}

impl Adjacency {
    /// The invariant of the graph: its nodes are the ends of its edges, and
    /// each holds its successors.
    pub closed spec fn wf(&self) -> bool {
        &&& nodes_agree(self.lookup@, self.nodes@)
        &&& nodes_hold(self.lookup@, self.nodes@, self.walk@)
    }

    /// A graph without edges.
    pub fn new() -> (graph: Adjacency)
        ensures
            graph.wf(),
            graph@ == Seq::<(Seq<char>, Seq<char>)>::empty(),
    {
        Adjacency { nodes: Vec::new(), lookup: StringHashMap::new(), walk: Ghost(Seq::empty()) }
    }

    /// The place of the node with this label, which is added without
    /// successors where the graph does not have it yet.
    fn node_at(&mut self, label: &str) -> (at: usize)
        requires
            nodes_agree(old(self).lookup@, old(self).nodes@),
        ensures
            nodes_agree(final(self).lookup@, final(self).nodes@),
            final(self).walk == old(self).walk,
            at < final(self).nodes.len(),
            final(self).nodes[at as int].label@ == label@,
            final(self).lookup@ == old(self).lookup@.insert(label@, at),
            old(self).lookup@.contains_key(label@) ==> final(self).nodes@ == old(self).nodes@,
            !old(self).lookup@.contains_key(label@) ==> at == old(self).nodes.len(),
            !old(self).lookup@.contains_key(label@) ==> final(self).nodes@.len() == at + 1,
            !old(self).lookup@.contains_key(label@) ==> final(self).nodes[at as int].successors@.len()
                == 0,
            !old(self).lookup@.contains_key(label@) ==> forall|p: int|
                0 <= p < at ==> final(self).nodes[p] == old(self).nodes[p],
    {
        let found: Option<usize> = match self.lookup.get(label) {
            Some(at) => Some(*at),
            None => None,
        };
        match found {
            Some(at) => at,
            None => {
                let at: usize = self.nodes.len();
                self.nodes.push(Node { label: label.to_string(), successors: Vec::new() });
                self.lookup.insert(label.to_string(), at);
                proof {
                    assert forall|p: int| 0 <= p < self.nodes.len() implies self.lookup@.contains_key(
                        (#[trigger] self.nodes[p]).label@,
                    ) && self.lookup@[self.nodes[p].label@] == p by {}
                    assert forall|other: Seq<char>| #[trigger]
                        self.lookup@.contains_key(other) implies self.lookup@[other]
                        < self.nodes.len() && self.nodes[self.lookup@[other] as int].label@
                        == other by {}
                }
                at
            },
        }
    }

    /// Adds an edge from the node `from` to the node `to`.
    pub fn link(&mut self, from: &str, to: &str)
        requires
            old(self).wf(),
        ensures
            final(self).wf(),
            final(self)@ == old(self)@.push((from@, to@)),
    {
        let ghost lookup = self.lookup@;
        let ghost nodes = self.nodes@;
        let ghost walk = self.walk@;
        let at: usize = self.node_at(from);
        let ghost nodes1 = self.nodes@;
        self.nodes[at].successors.push(to.to_string());
        let ghost nodes2 = self.nodes@;
        proof {
            assert forall|p: int| 0 <= p < nodes2.len() implies (#[trigger] nodes2[p]).label@
                == nodes1[p].label@ by {}
        }
        let _end: usize = self.node_at(to);
        self.walk = Ghost(walk.push((from@, to@)));
        proof {
            let nodes3 = self.nodes@;
            let edge = (from@, to@);
            assert forall|p: int| 0 <= p < nodes.len() implies (#[trigger] nodes3[p]).label@
                == nodes[p].label@ by {}
            assert forall|p: int| 0 <= p < nodes3.len() implies texts(
                (#[trigger] nodes3[p]).successors@,
            ) == if nodes3[p].label@ == edge.0 {
                (if p < nodes.len() {
                    texts(nodes[p].successors@)
                } else {
                    Seq::<Seq<char>>::empty()
                }).push(edge.1)
            } else if p < nodes.len() {
                texts(nodes[p].successors@)
            } else {
                Seq::<Seq<char>>::empty()
            } by {}
            lemma_link(lookup, nodes, self.lookup@, nodes3, walk, edge);
        }
    }

    /// The successors of the node with this label, one for each edge that
    /// leaves it, in the order in which the edges came; `None` where the
    /// graph has no such node.
    pub fn successors(&self, node: &str) -> (found: Option<&Vec<String>>)
        requires
            self.wf(),
        ensures
            found is Some <==> is_node_in(self@, node@),
            found is Some ==> texts(found->0@) == successors_in(self@, node@),
    {
        match self.lookup.get(node) {
            Some(at) => Some(&self.nodes[*at].successors),
            None => None,
        }
    }
}

} // verus!
