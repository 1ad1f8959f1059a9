//! In-memory graph memory: nodes with labels and properties, and directed weighted
//! relationships between them.
//!
//! A [`MemoryGraph`] keeps six collections: the nodes and the relationships by id, and for each
//! direction the relationships of each node with the position of each relationship there. What
//! every operation keeps ([`MemoryGraph::wf`]):
//!
//! 1. both ends of every relationship are nodes of the graph;
//! 2. ids are unique, and each node and relationship stands under its own id;
//! 3. the two adjacency indexes mirror the relationships exactly.

use crate::error::PluginError;
use crate::float::{double_same, finite_double, Double, DoubleView};
use crate::json::{
    copy_object, json_text, members_same, object_text, object_view, same_object, Json, JsonView,
};
use crate::string_map::{
    lemma_strictly_sorted_distinct, lemma_strictly_sorted_unique, strictly_sorted, StringMap,
};
use crate::text::{decimal, decimal_text, lemma_decimal_injective, str_eq, text_less};
use crate::types::{copy_texts, same_texts, texts};
use vstd::prelude::*;
use vstd::string::*;

verus! {

/// The start of the first line of [`MemoryGraph::render`].
pub const GRAPH_RENDER_MARKER: &'static str = "CUCA graph memory:";

/// A node: an id, labels, and properties.
#[derive(Debug, PartialEq)]
pub struct GraphNode {
    /// The id, unique within a graph.
    pub id: String,
    /// Categories, such as `person`.
    pub labels: Vec<String>,
    /// Any further properties.
    pub properties: StringMap<Json>,
}

/// What a [`GraphNode`] is.
#[verifier::ext_equal]
pub struct NodeView {
    pub id: Seq<char>,
    pub labels: Seq<Seq<char>>,
    pub properties: Seq<(Seq<char>, JsonView)>,
}

impl View for GraphNode {
    type V = NodeView;

    open spec fn view(&self) -> NodeView {
        NodeView {
            id: self.id@,
            labels: texts(self.labels@),
            properties: object_view(self.properties),
        }
    }
}

impl Clone for GraphNode {
    fn clone(&self) -> (r: GraphNode)
        ensures
            r@ == self@,
    {
        GraphNode {
            id: self.id.clone(),
            labels: copy_texts(&self.labels),
            properties: copy_object(&self.properties),
        }
    }
}

/// Equality of nodes.
pub open spec fn node_same(a: NodeView, b: NodeView) -> bool {
    a.id == b.id && a.labels == b.labels && members_same(a.properties, b.properties)
}

impl GraphNode {
    /// Whether two nodes are equal.
    pub fn same(&self, other: &GraphNode) -> (r: bool)
        ensures
            r == node_same(self@, other@),
    {
        str_eq(self.id.as_str(), other.id.as_str()) && same_texts(&self.labels, &other.labels)
            && same_object(&self.properties, &other.properties)
    }
}

/// A directed, weighted relationship between two nodes.
#[derive(Debug, PartialEq)]
pub struct GraphRelationship {
    /// The id, unique within a graph.
    pub id: String,
    /// The id of the source node.
    pub from: String,
    /// The id of the target node.
    pub to: String,
    /// The kind, such as `knows`.
    pub kind: String,
    /// The weight; any number, and "not a number" too.
    pub weight: Double,
    /// Any further properties.
    pub properties: StringMap<Json>,
}

/// What a [`GraphRelationship`] is.
#[verifier::ext_equal]
pub struct RelationshipView {
    pub id: Seq<char>,
    pub from: Seq<char>,
    pub to: Seq<char>,
    pub kind: Seq<char>,
    pub weight: DoubleView,
    pub properties: Seq<(Seq<char>, JsonView)>,
}

impl View for GraphRelationship {
    type V = RelationshipView;

    open spec fn view(&self) -> RelationshipView {
        RelationshipView {
            id: self.id@,
            from: self.from@,
            to: self.to@,
            kind: self.kind@,
            weight: self.weight@,
            properties: object_view(self.properties),
        }
    }
}

impl Clone for GraphRelationship {
    fn clone(&self) -> (r: GraphRelationship)
        ensures
            r@ == self@,
    {
        GraphRelationship {
            id: self.id.clone(),
            from: self.from.clone(),
            to: self.to.clone(),
            kind: self.kind.clone(),
            weight: self.weight.copy(),
            properties: copy_object(&self.properties),
        }
    }
}

/// Equality of relationships.
pub open spec fn relationship_same(a: RelationshipView, b: RelationshipView) -> bool {
    &&& a.id == b.id
    &&& a.from == b.from
    &&& a.to == b.to
    &&& a.kind == b.kind
    &&& double_same(a.weight.bits, b.weight.bits)
    &&& members_same(a.properties, b.properties)
}

impl GraphRelationship {
    /// Whether two relationships are equal.
    pub fn same(&self, other: &GraphRelationship) -> (r: bool)
        ensures
            r == relationship_same(self@, other@),
    {
        str_eq(self.id.as_str(), other.id.as_str()) && str_eq(
            self.from.as_str(),
            other.from.as_str(),
        ) && str_eq(self.to.as_str(), other.to.as_str()) && str_eq(
            self.kind.as_str(),
            other.kind.as_str(),
        ) && self.weight.same(&other.weight) && same_object(&self.properties, &other.properties)
    }
}

/// The direction in which a query follows relationships.
#[derive(Debug, Clone, Copy, PartialEq, Eq, Structural)]
pub enum GraphDirection {
    /// From source to target.
    Outgoing,
    /// From target to source.
    Incoming,
    /// Both ways.
    Any,
}

/// What [`MemoryGraph::merge`] does with a node id that both graphs have.
#[derive(Debug, Clone, Copy, PartialEq, Eq, Structural)]
pub enum MergePolicy {
    /// The node that was there stays.
    Keep,
    /// The incoming node replaces it.
    Overwrite,
}

/// What [`MemoryGraph::merge`] did.
#[derive(Debug, Clone, Copy, PartialEq, Eq, Structural)]
pub struct MergeReport {
    /// Incoming nodes whose id was new.
    pub nodes_added: usize,
    /// Incoming nodes that replaced a node.
    pub nodes_overwritten: usize,
    /// Incoming nodes that were dropped for the node that was there.
    pub nodes_kept: usize,
    /// Incoming relationships that kept their id.
    pub relationships_added: usize,
    /// Incoming relationships that got another id.
    pub relationships_renamed: usize,
}

impl Default for MergeReport {
    fn default() -> (r: MergeReport)
        ensures
            r.nodes_added == 0,
            r.nodes_overwritten == 0,
            r.nodes_kept == 0,
            r.relationships_added == 0,
            r.relationships_renamed == 0,
    {
        MergeReport {
            nodes_added: 0,
            nodes_overwritten: 0,
            nodes_kept: 0,
            relationships_added: 0,
            relationships_renamed: 0,
        }
    }
}

/// All nodes and relationships of a graph, each sorted by id.
#[derive(Debug, PartialEq)]
pub struct GraphSnapshot {
    /// The nodes.
    pub nodes: Vec<GraphNode>,
    /// The relationships.
    pub relationships: Vec<GraphRelationship>,
}

/// What a [`GraphSnapshot`] is.
#[verifier::ext_equal]
pub struct SnapshotView {
    pub nodes: Seq<NodeView>,
    pub relationships: Seq<RelationshipView>,
}

/// The views of a sequence of nodes.
pub open spec fn node_views(v: Seq<GraphNode>) -> Seq<NodeView> {
    Seq::new(v.len(), |i: int| v[i]@)
}

/// The views of a sequence of relationships.
pub open spec fn relationship_views(v: Seq<GraphRelationship>) -> Seq<RelationshipView> {
    Seq::new(v.len(), |i: int| v[i]@)
}

impl View for GraphSnapshot {
    type V = SnapshotView;

    open spec fn view(&self) -> SnapshotView {
        SnapshotView {
            nodes: node_views(self.nodes@),
            relationships: relationship_views(self.relationships@),
        }
    }
}

/// Which node each relationship is listed under.
type Ends = Map<Seq<char>, Seq<char>>;

/// The relationships of each node in one direction, with the position of each relationship in
/// its node's list.
#[derive(Debug, PartialEq)]
struct Adjacency {
    lists: StringMap<Vec<String>>,
    positions: StringMap<usize>,
}

impl Adjacency {
    /// The index lists every relationship of `ends` under its node, once, and nothing else.
    spec fn mirrors(&self, ends: Ends) -> bool {
        &&& self.positions@.dom() == ends.dom()
        &&& forall|rid: Seq<char>| #[trigger]
            ends.dom().contains(rid) ==> self.lists@.dom().contains(ends[rid])
                && self.positions@[rid] < self.lists@[ends[rid]]@.len()
                && self.lists@[ends[rid]]@[self.positions@[rid] as int]@ == rid
        &&& forall|node: Seq<char>, i: int|
            self.lists@.dom().contains(node) && 0 <= i < self.lists@[node]@.len()
                ==> ends.dom().contains((#[trigger] self.lists@[node]@[i])@)
                && ends[self.lists@[node]@[i]@] == node
                && self.positions@[self.lists@[node]@[i]@] == i
    }

    fn new() -> (r: Adjacency)
        ensures
            r.mirrors(Map::empty()),
            r.lists@ == Map::<Seq<char>, Vec<String>>::empty(),
    {
        Adjacency { lists: StringMap::new(), positions: StringMap::new() }
    }

    /// The same index again.
    fn copy(&self) -> (r: Adjacency)
        ensures
            forall|ends: Ends| #[trigger] self.mirrors(ends) ==> r.mirrors(ends),
            r.lists@.dom() == self.lists@.dom(),
    {
        proof {
            use_type_invariant(&self.lists);
            use_type_invariant(&self.positions);
        }
        let mut lists: StringMap<Vec<String>> = StringMap::new();
        let n: usize = self.lists.len();
        let ghost keys = self.lists.keys();
        let mut i: usize = 0;
        while i < n
            invariant
                self.lists.ordered(),
                keys == self.lists.keys(),
                n == keys.len(),
                i <= n,
                lists@.dom() =~= keys.take(i as int).to_set(),
                forall|k: Seq<char>| #[trigger]
                    lists@.dom().contains(k) ==> texts(lists@[k]@) == texts(self.lists@[k]@),
            decreases n - i,
        {
            proof {
                lemma_take_more(keys, i as int);
                StringMap::lemma_view_at(self.lists, i as int);
            }
            let list = copy_texts(self.lists.value_at(i));
            lists.insert(self.lists.key_at(i).clone(), list);
            i = i + 1;
        }
        let mut positions: StringMap<usize> = StringMap::new();
        let m: usize = self.positions.len();
        let ghost ids = self.positions.keys();
        let mut j: usize = 0;
        while j < m
            invariant
                self.positions.ordered(),
                ids == self.positions.keys(),
                m == ids.len(),
                j <= m,
                positions@.dom() =~= ids.take(j as int).to_set(),
                forall|k: Seq<char>| #[trigger]
                    positions@.dom().contains(k) ==> positions@[k] == self.positions@[k],
            decreases m - j,
        {
            proof {
                lemma_take_more(ids, j as int);
                StringMap::lemma_view_at(self.positions, j as int);
            }
            let at: usize = *self.positions.value_at(j);
            positions.insert(self.positions.key_at(j).clone(), at);
            j = j + 1;
        }
        let r = Adjacency { lists, positions };
        proof {
            assert(keys.take(n as int) =~= keys);
            assert(ids.take(m as int) =~= ids);
            StringMap::lemma_view_len(self.lists);
            StringMap::lemma_view_len(self.positions);
            assert(r.positions@ =~= self.positions@);
            assert forall|k: Seq<char>| #[trigger] self.lists@.dom().contains(
                k,
            ) implies r.lists@[k]@.len() == self.lists@[k]@.len() && forall|i: int|
                0 <= i < self.lists@[k]@.len() ==> (#[trigger] r.lists@[k]@[i])@
                    == self.lists@[k]@[i]@ by {
                assert(texts(r.lists@[k]@).len() == texts(self.lists@[k]@).len());
                assert forall|i: int| 0 <= i < self.lists@[k]@.len() implies (
                #[trigger] r.lists@[k]@[i])@ == self.lists@[k]@[i]@ by {
                    assert(texts(r.lists@[k]@)[i] == texts(self.lists@[k]@)[i]);
                }
            }
            assert forall|ends: Ends| #[trigger] self.mirrors(ends) implies r.mirrors(ends) by {
                assert forall|node: Seq<char>, i: int|
                    r.lists@.dom().contains(node) && 0 <= i
                        < r.lists@[node]@.len() implies ends.dom().contains(
                    (#[trigger] r.lists@[node]@[i])@,
                ) && ends[r.lists@[node]@[i]@] == node && r.positions@[r.lists@[node]@[i]@]
                    == i by {
                    assert(self.lists@.dom().contains(node));
                    assert(self.lists@[node]@[i]@ == r.lists@[node]@[i]@);
                }
            }
        }
        r
    }

    /// Lists `rid` under `node`.
    fn add(&mut self, node: &String, rid: &String, Ghost(ends): Ghost<Ends>)
        requires
            old(self).mirrors(ends),
            !ends.dom().contains(rid@),
        ensures
            final(self).mirrors(ends.insert(rid@, node@)),
            final(self).lists@.dom() == old(self).lists@.dom().insert(node@),
    {
        let ghost before = *self;
        let taken = self.lists.remove(node.as_str());
        let mut list: Vec<String> = match taken {
            Some(list) => list,
            None => Vec::new(),
        };
        let ghost listed = list@;
        let at: usize = list.len();
        self.positions.insert(rid.clone(), at);
        list.push(rid.clone());
        self.lists.insert(node.clone(), list);
        proof {
            let after = ends.insert(rid@, node@);
            assert(self.positions@.dom() =~= after.dom());
            assert forall|q: Seq<char>| #[trigger] after.dom().contains(q) implies self.lists@.dom().contains(
                after[q],
            ) && self.positions@[q] < self.lists@[after[q]]@.len()
                && self.lists@[after[q]]@[self.positions@[q] as int]@ == q by {
                if q != rid@ {
                    assert(ends.dom().contains(q));
                    if after[q] == node@ {
                        assert(listed == before.lists@[node@]@);
                    }
                }
            }
            assert forall|n: Seq<char>, i: int|
                self.lists@.dom().contains(n) && 0 <= i
                    < self.lists@[n]@.len() implies after.dom().contains(
                (#[trigger] self.lists@[n]@[i])@,
            ) && after[self.lists@[n]@[i]@] == n && self.positions@[self.lists@[n]@[i]@] == i by {
                if n == node@ {
                    if i < listed.len() {
                        assert(before.lists@.dom().contains(n));
                        assert(listed[i] == before.lists@[n]@[i]);
                    }
                } else {
                    assert(self.lists@[n]@[i] == before.lists@[n]@[i]);
                }
            }
        }
    }

    /// Takes `rid` out of the list of `node`.
    fn remove(&mut self, node: &str, rid: &str, Ghost(ends): Ghost<Ends>)
        requires
            old(self).mirrors(ends),
            ends.dom().contains(rid@),
            ends[rid@] == node@,
        ensures
            final(self).mirrors(ends.remove(rid@)),
            final(self).lists@.dom() == old(self).lists@.dom(),
    {
        let ghost before = *self;
        let position = self.positions.remove(rid);
        let taken = self.lists.remove(node);
        if let (Some(at), Some(found)) = (position, taken) {
            let mut list: Vec<String> = found;
            let ghost listed = list@;
            let moved = list.swap_remove(at);
            let last: usize = list.len();
            let ghost shorter = list@;
            if at < last {
                self.positions.insert(list[at].clone(), at);
            }
            self.lists.insert(node.to_owned(), list);
            proof {
                let after = ends.remove(rid@);
                assert(listed == before.lists@[node@]@);
                assert(moved@ == rid@);
                assert forall|i: int| 0 <= i < shorter.len() implies shorter[i] == (if i == at {
                    listed[last as int]
                } else {
                    listed[i]
                }) by {}
                assert(ends.dom().contains(listed[last as int]@));
                assert forall|q: Seq<char>| #[trigger] self.positions@.dom().contains(q)
                    <==> after.dom().contains(q) by {}
                assert(self.positions@.dom() =~= after.dom());
                assert forall|q: Seq<char>| #[trigger] after.dom().contains(
                    q,
                ) implies self.lists@.dom().contains(after[q]) && self.positions@[q]
                    < self.lists@[after[q]]@.len()
                    && self.lists@[after[q]]@[self.positions@[q] as int]@ == q by {
                    assert(ends.dom().contains(q));
                    if after[q] == node@ {
                        let p = before.positions@[q] as int;
                        assert(listed[p]@ == q);
                        assert(p != at);
                        if p == last {
                            assert(shorter[at as int]@ == q);
                        } else {
                            assert(shorter[p] == listed[p]);
                            if at < last {
                                assert(listed[last as int]@ != q) by {
                                    assert(before.positions@[listed[last as int]@] == last);
                                }
                            }
                        }
                    } else {
                        if at < last {
                            assert(ends[listed[last as int]@] == node@);
                        }
                    }
                }
                assert forall|n: Seq<char>, i: int|
                    self.lists@.dom().contains(n) && 0 <= i
                        < self.lists@[n]@.len() implies after.dom().contains(
                    (#[trigger] self.lists@[n]@[i])@,
                ) && after[self.lists@[n]@[i]@] == n && self.positions@[self.lists@[n]@[i]@]
                    == i by {
                    if n == node@ {
                        let p = if i == at { last as int } else { i };
                        assert(shorter[i] == listed[p]);
                        assert(before.lists@[n]@[p] == listed[p]);
                        assert(before.positions@[listed[p]@] == p);
                        assert(before.positions@[rid@] == at);
                        assert(listed[p]@ != rid@);
                        if at < last && i != at {
                            assert(before.positions@[listed[last as int]@] == last);
                        }
                    } else {
                        assert(self.lists@[n]@[i] == before.lists@[n]@[i]);
                        assert(ends[before.lists@[n]@[i]@] == n);
                        if at < last {
                            assert(ends[listed[last as int]@] == node@);
                        }
                    }
                }
            }
        }
    }

    /// Drops the empty list of `node`, where there is one. Every other list and every position
    /// stays.
    fn drop_node(&mut self, node: &str, Ghost(ends): Ghost<Ends>)
        requires
            old(self).mirrors(ends),
            forall|rid: Seq<char>| #[trigger] ends.dom().contains(rid) ==> ends[rid] != node@,
        ensures
            final(self).mirrors(ends),
            final(self).lists@ == old(self).lists@.remove(node@),
            final(self).positions@ == old(self).positions@,
    {
        let ghost before = *self;
        self.lists.remove(node);
        proof {
            assert forall|n: Seq<char>, i: int|
                self.lists@.dom().contains(n) && 0 <= i
                    < self.lists@[n]@.len() implies ends.dom().contains(
                (#[trigger] self.lists@[n]@[i])@,
            ) && ends[self.lists@[n]@[i]@] == n && self.positions@[self.lists@[n]@[i]@] == i by {
                assert(self.lists@[n]@[i] == before.lists@[n]@[i]);
            }
        }
    }
}

/// What a graph holds: its nodes and its relationships by id.
#[verifier::ext_equal]
pub struct GraphView {
    pub nodes: Map<Seq<char>, NodeView>,
    pub relationships: Map<Seq<char>, RelationshipView>,
}

/// The graph: nodes, relationships, and the adjacency index of each direction.
#[derive(Debug, PartialEq)]
pub struct MemoryGraph {
    nodes: StringMap<GraphNode>,
    relationships: StringMap<GraphRelationship>,
    outgoing: Adjacency,
    incoming: Adjacency,
}

/// The nodes by id, each by its view.
pub open spec fn node_map(m: Map<Seq<char>, GraphNode>) -> Map<Seq<char>, NodeView> {
    Map::new(|k: Seq<char>| m.dom().contains(k), |k: Seq<char>| m[k]@)
}

/// The relationships by id, each by its view.
pub open spec fn relationship_map(
    m: Map<Seq<char>, GraphRelationship>,
) -> Map<Seq<char>, RelationshipView> {
    Map::new(|k: Seq<char>| m.dom().contains(k), |k: Seq<char>| m[k]@)
}

/// The source of each relationship.
pub open spec fn sources(m: Map<Seq<char>, RelationshipView>) -> Map<Seq<char>, Seq<char>> {
    Map::new(|k: Seq<char>| m.dom().contains(k), |k: Seq<char>| m[k].from)
}

/// The target of each relationship.
pub open spec fn targets(m: Map<Seq<char>, RelationshipView>) -> Map<Seq<char>, Seq<char>> {
    Map::new(|k: Seq<char>| m.dom().contains(k), |k: Seq<char>| m[k].to)
}

/// Every node and relationship stands under its own id, and both ends of every relationship
/// are nodes.
pub open spec fn consistent(g: GraphView) -> bool {
    &&& g.nodes.dom().finite()
    &&& g.relationships.dom().finite()
    &&& forall|id: Seq<char>| #[trigger] g.nodes.dom().contains(id) ==> g.nodes[id].id == id
    &&& forall|id: Seq<char>| #[trigger]
        g.relationships.dom().contains(id) ==> g.relationships[id].id == id
            && g.nodes.dom().contains(g.relationships[id].from) && g.nodes.dom().contains(
            g.relationships[id].to,
        )
}

/// The refusal of a relationship whose end is no node.
pub open spec fn unknown_end_message(
    id: Seq<char>,
    node: Seq<char>,
    end: Seq<char>,
) -> Seq<char> {
    "graph relationship '"@ + id + "' references unknown node '"@ + node + "' ("@ + end + ")"@
}

impl View for MemoryGraph {
    type V = GraphView;

    closed spec fn view(&self) -> GraphView {
        GraphView {
            nodes: node_map(self.nodes@),
            relationships: relationship_map(self.relationships@),
        }
    }
}

impl MemoryGraph {
    /// What every graph keeps: consistent nodes and relationships, mirrored by both adjacency
    /// indexes, which have lists for nodes alone.
    pub closed spec fn wf(&self) -> bool {
        &&& consistent(self@)
        &&& self.outgoing.mirrors(sources(self@.relationships))
        &&& self.incoming.mirrors(targets(self@.relationships))
        &&& self.outgoing.lists@.dom().subset_of(self@.nodes.dom())
        &&& self.incoming.lists@.dom().subset_of(self@.nodes.dom())
    }

    /// A graph keeps its nodes and relationships consistent.
    pub proof fn law_graphs_are_consistent(g: MemoryGraph)
        requires
            g.wf(),
        ensures
            consistent(g@),
    {
    }

    /// An empty graph.
    pub fn new() -> (r: MemoryGraph)
        ensures
            r.wf(),
            r@.nodes == Map::<Seq<char>, NodeView>::empty(),
            r@.relationships == Map::<Seq<char>, RelationshipView>::empty(),
    {
        let r = MemoryGraph {
            nodes: StringMap::new(),
            relationships: StringMap::new(),
            outgoing: Adjacency::new(),
            incoming: Adjacency::new(),
        };
        proof {
            assert(r@.nodes =~= Map::<Seq<char>, NodeView>::empty());
            assert(r@.relationships =~= Map::<Seq<char>, RelationshipView>::empty());
            assert(sources(r@.relationships) =~= Map::<Seq<char>, Seq<char>>::empty());
            assert(targets(r@.relationships) =~= Map::<Seq<char>, Seq<char>>::empty());
        }
        r
    }

    /// An empty graph with room for some nodes and relationships.
    pub fn with_capacity(nodes: usize, relationships: usize) -> (r: MemoryGraph)
        ensures
            r.wf(),
            r@.nodes == Map::<Seq<char>, NodeView>::empty(),
            r@.relationships == Map::<Seq<char>, RelationshipView>::empty(),
    {
        let r = MemoryGraph {
            nodes: StringMap::with_capacity(nodes),
            relationships: StringMap::with_capacity(relationships),
            outgoing: Adjacency {
                lists: StringMap::with_capacity(nodes),
                positions: StringMap::with_capacity(relationships),
            },
            incoming: Adjacency {
                lists: StringMap::with_capacity(nodes),
                positions: StringMap::with_capacity(relationships),
            },
        };
        proof {
            assert(r@.nodes =~= Map::<Seq<char>, NodeView>::empty());
            assert(r@.relationships =~= Map::<Seq<char>, RelationshipView>::empty());
            assert(sources(r@.relationships) =~= Map::<Seq<char>, Seq<char>>::empty());
            assert(targets(r@.relationships) =~= Map::<Seq<char>, Seq<char>>::empty());
        }
        r
    }

    /// Makes room for more nodes and relationships.
    pub fn reserve(&mut self, nodes: usize, relationships: usize)
        requires
            old(self).wf(),
        ensures
            final(self).wf(),
            final(self)@ == old(self)@,
    {
        let ghost before = *self;
        self.nodes.reserve(nodes);
        self.relationships.reserve(relationships);
        self.outgoing.lists.reserve(nodes);
        self.incoming.lists.reserve(nodes);
        self.outgoing.positions.reserve(relationships);
        self.incoming.positions.reserve(relationships);
        proof {
            assert(self@ =~= before@);
            assert(before.outgoing.mirrors(sources(before@.relationships)));
            assert(before.incoming.mirrors(targets(before@.relationships)));
        }
    }

    /// Inserts `node`, or replaces the node with its id, labels and properties and all.
    /// Returns whether the id was new.
    pub fn upsert_node(&mut self, node: GraphNode) -> (r: bool)
        requires
            old(self).wf(),
        ensures
            final(self).wf(),
            final(self)@.nodes == old(self)@.nodes.insert(node.id@, node@),
            final(self)@.relationships == old(self)@.relationships,
            r == !old(self)@.nodes.dom().contains(node.id@),
    {
        let ghost before = *self;
        let id = node.id.clone();
        let replaced = self.nodes.insert(id, node);
        proof {
            assert(self@.nodes =~= before@.nodes.insert(node.id@, node@));
            assert(self@.relationships =~= before@.relationships);
        }
        replaced.is_none()
    }

    /// Puts in a relationship whose id is new and whose ends are nodes.
    fn insert_new(&mut self, rel: GraphRelationship)
        requires
            old(self).wf(),
            !old(self)@.relationships.dom().contains(rel.id@),
            old(self)@.nodes.dom().contains(rel.from@),
            old(self)@.nodes.dom().contains(rel.to@),
        ensures
            final(self).wf(),
            final(self)@.nodes == old(self)@.nodes,
            final(self)@.relationships == old(self)@.relationships.insert(rel.id@, rel@),
    {
        let ghost before = *self;
        self.outgoing.add(&rel.from, &rel.id, Ghost(sources(before@.relationships)));
        self.incoming.add(&rel.to, &rel.id, Ghost(targets(before@.relationships)));
        let id = rel.id.clone();
        self.relationships.insert(id, rel);
        proof {
            let after = before@.relationships.insert(rel.id@, rel@);
            assert(self@.nodes =~= before@.nodes);
            assert(self@.relationships =~= after);
            assert(sources(after) =~= sources(before@.relationships).insert(rel.id@, rel.from@));
            assert(targets(after) =~= targets(before@.relationships).insert(rel.id@, rel.to@));
        }
    }

    /// Adds `rel`, or replaces the relationship with its id. Both ends must be nodes.
    pub fn add_relationship(&mut self, rel: GraphRelationship) -> (r: Result<(), PluginError>)
        requires
            old(self).wf(),
        ensures
            final(self).wf(),
            final(self)@.nodes == old(self)@.nodes,
            if !old(self)@.nodes.dom().contains(rel.from@) {
                &&& final(self)@ == old(self)@
                &&& r matches Err(PluginError::Internal(m)) && m@ == unknown_end_message(
                    rel.id@,
                    rel.from@,
                    "from"@,
                )
            } else if !old(self)@.nodes.dom().contains(rel.to@) {
                &&& final(self)@ == old(self)@
                &&& r matches Err(PluginError::Internal(m)) && m@ == unknown_end_message(
                    rel.id@,
                    rel.to@,
                    "to"@,
                )
            } else {
                &&& r is Ok
                &&& final(self)@.relationships == old(self)@.relationships.insert(rel.id@, rel@)
            },
    {
        let ghost before = *self;
        if !self.nodes.contains_key(rel.from.as_str()) {
            return Err(
                PluginError::Internal(
                    unknown_end_text(rel.id.as_str(), rel.from.as_str(), "from"),
                ),
            );
        }
        if !self.nodes.contains_key(rel.to.as_str()) {
            return Err(
                PluginError::Internal(unknown_end_text(rel.id.as_str(), rel.to.as_str(), "to")),
            );
        }
        self.remove_relationship(rel.id.as_str());
        self.insert_new(rel);
        proof {
            assert(self@.relationships =~= before@.relationships.insert(rel.id@, rel@));
        }
        Ok(())
    }

    /// The node `id`.
    pub fn node(&self, id: &str) -> (r: Option<&GraphNode>)
        requires
            self.wf(),
        ensures
            r is Some <==> self@.nodes.dom().contains(id@),
            r matches Some(n) ==> n@ == self@.nodes[id@] && n.id@ == id@,
    {
        let r = self.nodes.get(id);
        assert(r is Some ==> self@.nodes.dom().contains(id@));
        r
    }

    /// The relationship `id`.
    pub fn relationship(&self, id: &str) -> (r: Option<&GraphRelationship>)
        requires
            self.wf(),
        ensures
            r is Some <==> self@.relationships.dom().contains(id@),
            r matches Some(x) ==> x@ == self@.relationships[id@] && x.id@ == id@,
    {
        let r = self.relationships.get(id);
        assert(r is Some ==> self@.relationships.dom().contains(id@));
        r
    }

    /// The number of nodes.
    pub fn len(&self) -> (r: usize)
        requires
            self.wf(),
        ensures
            r == self@.nodes.dom().len(),
    {
        assert(self@.nodes.dom() =~= self.nodes@.dom());
        self.nodes.len()
    }

    /// The number of relationships.
    pub fn relationship_count(&self) -> (r: usize)
        requires
            self.wf(),
        ensures
            r == self@.relationships.dom().len(),
    {
        assert(self@.relationships.dom() =~= self.relationships@.dom());
        self.relationships.len()
    }

    /// Whether the graph has no node (and so no relationship either).
    pub fn is_empty(&self) -> (r: bool)
        requires
            self.wf(),
        ensures
            r == (self@.nodes.dom().len() == 0),
            r ==> self@.relationships.dom().len() == 0,
    {
        let n: usize = self.len();
        proof {
            if n == 0 && self@.relationships.dom().len() > 0 {
                let id = self@.relationships.dom().choose();
                assert(self@.relationships.dom().contains(id));
                assert(self@.nodes.dom().contains(self@.relationships[id].from));
            }
        }
        n == 0
    }

    /// Takes the relationship `id` out. Returns whether there was one.
    pub fn remove_relationship(&mut self, id: &str) -> (r: bool)
        requires
            old(self).wf(),
        ensures
            final(self).wf(),
            final(self)@.nodes == old(self)@.nodes,
            final(self)@.relationships == old(self)@.relationships.remove(id@),
            r == old(self)@.relationships.dom().contains(id@),
    {
        let ghost before = *self;
        let taken = self.relationships.remove(id);
        match taken {
            None => {
                assert(self@.relationships =~= before@.relationships.remove(id@));
                assert(self@.relationships =~= before@.relationships);
                assert(self@.nodes =~= before@.nodes);
                false
            },
            Some(rel) => {
                self.outgoing.remove(
                    rel.from.as_str(),
                    id,
                    Ghost(sources(before@.relationships)),
                );
                self.incoming.remove(rel.to.as_str(), id, Ghost(targets(before@.relationships)));
                proof {
                    let after = before@.relationships.remove(id@);
                    assert(self@.relationships =~= after);
                    assert(self@.nodes =~= before@.nodes);
                    assert(sources(after) =~= sources(before@.relationships).remove(id@));
                    assert(targets(after) =~= targets(before@.relationships).remove(id@));
                }
                true
            },
        }
    }
}

/// The refusal of a relationship whose end is no node.
fn unknown_end_text(id: &str, node: &str, end: &str) -> (r: String)
    ensures
        r@ == unknown_end_message(id@, node@, end@),
{
    "graph relationship '".to_owned().concat(id).concat("' references unknown node '").concat(
        node,
    ).concat("' (").concat(end).concat(")")
}

/// Following `rel` in direction `d` leads from `a` to `b`.
pub open spec fn leads(
    rel: RelationshipView,
    a: Seq<char>,
    b: Seq<char>,
    d: GraphDirection,
) -> bool {
    match d {
        GraphDirection::Outgoing => rel.from == a && rel.to == b,
        GraphDirection::Incoming => rel.to == a && rel.from == b,
        GraphDirection::Any => (rel.from == a && rel.to == b) || (rel.to == a && rel.from == b),
    }
}

/// Some relationship leads from `a` to `b`.
pub open spec fn adjacent(
    g: GraphView,
    a: Seq<char>,
    b: Seq<char>,
    d: GraphDirection,
) -> bool {
    exists|rid: Seq<char>| #[trigger]
        g.relationships.dom().contains(rid) && leads(g.relationships[rid], a, b, d)
}

/// The nodes next to `a`.
pub open spec fn next_to(g: GraphView, a: Seq<char>, d: GraphDirection) -> Set<Seq<char>> {
    Set::new(|b: Seq<char>| adjacent(g, a, b, d))
}

/// The nodes next to some node of `from`.
pub open spec fn next_to_any(
    g: GraphView,
    from: Set<Seq<char>>,
    d: GraphDirection,
) -> Set<Seq<char>> {
    Set::new(|b: Seq<char>| exists|a: Seq<char>| from.contains(a) && #[trigger] adjacent(g, a, b, d))
}

/// The nodes at most `n` steps away from `starts`.
pub open spec fn reached(
    g: GraphView,
    starts: Set<Seq<char>>,
    n: nat,
    d: GraphDirection,
) -> Set<Seq<char>>
    decreases n,
{
    if n == 0 {
        starts
    } else {
        reached(g, starts, (n - 1) as nat, d).union(
            next_to_any(g, reached(g, starts, (n - 1) as nat, d), d),
        )
    }
}

/// The nodes exactly `n` steps away from `starts`.
pub open spec fn level(
    g: GraphView,
    starts: Set<Seq<char>>,
    n: nat,
    d: GraphDirection,
) -> Set<Seq<char>> {
    if n == 0 {
        starts
    } else {
        reached(g, starts, n, d).difference(reached(g, starts, (n - 1) as nat, d))
    }
}

/// The elements of `s` in increasing order.
pub open spec fn is_listing(q: Seq<Seq<char>>, s: Set<Seq<char>>) -> bool {
    &&& strictly_sorted(q)
    &&& forall|x: Seq<char>| #[trigger] q.contains(x) <==> s.contains(x)
}

/// The listing of a finite set.
pub open spec fn listing(s: Set<Seq<char>>) -> Seq<Seq<char>> {
    choose|q: Seq<Seq<char>>| is_listing(q, s)
}

/// A set has one listing.
pub proof fn lemma_listing(q: Seq<Seq<char>>, s: Set<Seq<char>>)
    requires
        is_listing(q, s),
    ensures
        listing(s) == q,
{
    lemma_strictly_sorted_unique(q, listing(s));
}

/// The nodes at most `n` steps away from `starts`, nearest first and each level in order.
pub open spec fn breadth_first(
    g: GraphView,
    starts: Set<Seq<char>>,
    n: nat,
    d: GraphDirection,
) -> Seq<Seq<char>>
    decreases n,
{
    if n == 0 {
        listing(starts)
    } else {
        breadth_first(g, starts, (n - 1) as nat, d) + listing(level(g, starts, n, d))
    }
}

/// From consistent starts only nodes are reached.
proof fn lemma_reached_nodes(g: GraphView, starts: Set<Seq<char>>, n: nat, d: GraphDirection)
    requires
        consistent(g),
        starts.subset_of(g.nodes.dom()),
    ensures
        reached(g, starts, n, d).subset_of(g.nodes.dom()),
    decreases n,
{
    if n > 0 {
        lemma_reached_nodes(g, starts, (n - 1) as nat, d);
    }
}

/// One more step from all that was reached is one more step from the last level.
proof fn lemma_frontier(g: GraphView, starts: Set<Seq<char>>, n: nat, d: GraphDirection)
    ensures
        reached(g, starts, n + 1, d) == reached(g, starts, n, d).union(
            next_to_any(g, level(g, starts, n, d), d),
        ),
        level(g, starts, n + 1, d) == next_to_any(g, level(g, starts, n, d), d).difference(
            reached(g, starts, n, d),
        ),
{
    let r = reached(g, starts, n, d);
    let l = level(g, starts, n, d);
    assert forall|b: Seq<char>| #[trigger] next_to_any(g, r, d).contains(b) implies r.contains(b)
        || next_to_any(g, l, d).contains(b) by {
        let a = choose|a: Seq<char>| r.contains(a) && #[trigger] adjacent(g, a, b, d);
        if !l.contains(a) {
            assert(n > 0);
            let before = reached(g, starts, (n - 1) as nat, d);
            assert(before.contains(a));
            assert(next_to_any(g, before, d).contains(b));
        }
    }
    assert forall|b: Seq<char>| #[trigger] next_to_any(g, l, d).contains(b) implies next_to_any(
        g,
        r,
        d,
    ).contains(b) by {
        let a = choose|a: Seq<char>| l.contains(a) && #[trigger] adjacent(g, a, b, d);
        assert(r.contains(a));
    }
    assert(reached(g, starts, n + 1, d) =~= r.union(next_to_any(g, l, d)));
    assert(level(g, starts, n + 1, d) =~= next_to_any(g, l, d).difference(r));
}

/// Once a level is empty, nothing more is reached.
proof fn lemma_stable(g: GraphView, starts: Set<Seq<char>>, n: nat, m: nat, d: GraphDirection)
    requires
        level(g, starts, n, d) == Set::<Seq<char>>::empty(),
        n <= m,
    ensures
        reached(g, starts, m, d) == reached(g, starts, n, d),
        level(g, starts, m, d) == Set::<Seq<char>>::empty(),
        breadth_first(g, starts, m, d) == breadth_first(g, starts, n, d),
    decreases m,
{
    if n < m {
        let k = (m - 1) as nat;
        lemma_stable(g, starts, n, k, d);
        lemma_frontier(g, starts, k, d);
        assert(next_to_any(g, level(g, starts, k, d), d) =~= Set::<Seq<char>>::empty());
        assert(reached(g, starts, m, d) =~= reached(g, starts, n, d));
        assert(level(g, starts, m, d) =~= Set::<Seq<char>>::empty());
        lemma_listing(Seq::<Seq<char>>::empty(), Set::<Seq<char>>::empty());
        assert(breadth_first(g, starts, m, d) =~= breadth_first(g, starts, n, d));
    }
}

/// One text more.
pub proof fn lemma_take_more(keys: Seq<Seq<char>>, i: int)
    requires
        0 <= i < keys.len(),
    ensures
        keys.take(i + 1).to_set() == keys.take(i).to_set().insert(keys[i]),
{
    let longer = keys.take(i + 1);
    let shorter = keys.take(i);
    assert forall|x: Seq<char>| #[trigger] longer.contains(x) <==> shorter.contains(x) || x
        == keys[i] by {
        if longer.contains(x) {
            let j = choose|j: int| 0 <= j < longer.len() && longer[j] == x;
            if j < i {
                assert(shorter[j] == x);
            }
        }
        if shorter.contains(x) {
            let j = choose|j: int| 0 <= j < shorter.len() && shorter[j] == x;
            assert(longer[j] == x);
        }
        assert(longer[i] == keys[i]);
    }
    assert(longer.to_set() =~= shorter.to_set().insert(keys[i]));
}

/// The keys of a set of texts, in order.
fn set_listing(set: &StringMap<()>) -> (r: Vec<String>)
    ensures
        texts(r@) == set.keys(),
        is_listing(texts(r@), set@.dom()),
        texts(r@) == listing(set@.dom()),
{
    proof {
        use_type_invariant(set);
    }
    let mut r: Vec<String> = Vec::new();
    let n: usize = set.len();
    let mut i: usize = 0;
    while i < n
        invariant
            n == set.keys().len(),
            i <= n,
            r@.len() == i,
            forall|k: int| 0 <= k < i ==> (#[trigger] r@[k])@ == set.keys()[k],
        decreases n - i,
    {
        r.push(set.key_at(i).clone());
        i = i + 1;
    }
    proof {
        assert(texts(r@) =~= set.keys());
        StringMap::lemma_view_len(*set);
        assert(is_listing(set.keys(), set@.dom()));
        lemma_listing(set.keys(), set@.dom());
    }
    r
}

impl MemoryGraph {
    /// Goes from `node` along its outgoing (or incoming) relationships: what is new to
    /// `visited` goes into it and into `next`.
    fn visit_one_way(
        &self,
        node: &str,
        backwards: bool,
        visited: &mut StringMap<()>,
        next: &mut StringMap<()>,
    )
        requires
            self.wf(),
        ensures
            final(visited)@.dom() == old(visited)@.dom().union(
                next_to(self@, node@, one_way(backwards)),
            ),
            final(next)@.dom() == old(next)@.dom().union(
                next_to(self@, node@, one_way(backwards)).difference(old(visited)@.dom()),
            ),
    {
        let index: &Adjacency = if backwards { &self.incoming } else { &self.outgoing };
        let ghost ends = if backwards {
            targets(self@.relationships)
        } else {
            sources(self@.relationships)
        };
        let ghost near = next_to(self@, node@, one_way(backwards));
        let ghost v0 = visited@.dom();
        let ghost n0 = next@.dom();
        match index.lists.get(node) {
            None => {
                proof {
                    assert forall|b: Seq<char>| !near.contains(b) by {
                        if near.contains(b) {
                            let rid = choose|rid: Seq<char>| #[trigger]
                                self@.relationships.dom().contains(rid) && leads(
                                    self@.relationships[rid],
                                    node@,
                                    b,
                                    one_way(backwards),
                                );
                            assert(ends.dom().contains(rid));
                        }
                    }
                    assert(v0.union(near) =~= v0);
                    assert(n0.union(near.difference(v0)) =~= n0);
                }
            },
            Some(list) => {
                let mut i: usize = 0;
                let ghost mut seen: Set<Seq<char>> = Set::empty();
                proof {
                    assert(v0.union(seen) =~= v0);
                    assert(n0.union(seen.difference(v0)) =~= n0);
                }
                while i < list.len()
                    invariant
                        self.wf(),
                        i <= list@.len(),
                        index == (if backwards {
                            &self.incoming
                        } else {
                            &self.outgoing
                        }),
                        ends == (if backwards {
                            targets(self@.relationships)
                        } else {
                            sources(self@.relationships)
                        }),
                        index.mirrors(ends),
                        index.lists@.dom().contains(node@),
                        *list == index.lists@[node@],
                        near == next_to(self@, node@, one_way(backwards)),
                        seen.subset_of(near),
                        forall|k: int|
                            0 <= k < i ==> seen.contains(
                                far_end(self@, (#[trigger] list@[k])@, backwards),
                            ),
                        visited@.dom() == v0.union(seen),
                        next@.dom() == n0.union(seen.difference(v0)),
                    decreases list@.len() - i,
                {
                    let rid: &String = &list[i];
                    proof {
                        assert(index.lists@[node@]@[i as int] == *rid);
                        assert(ends.dom().contains(rid@));
                        assert(self@.relationships.dom().contains(rid@));
                    }
                    if let Some(rel) = self.relationships.get(rid.as_str()) {
                        let neighbor: &String = if backwards { &rel.from } else { &rel.to };
                        let ghost b = neighbor@;
                        proof {
                            assert(self@.relationships[rid@] == rel@);
                            assert(leads(
                                self@.relationships[rid@],
                                node@,
                                b,
                                one_way(backwards),
                            ));
                            assert(near.contains(b));
                        }
                        let ghost v1 = visited@.dom();
                        let ghost n1 = next@.dom();
                        if !visited.contains_key(neighbor.as_str()) {
                            visited.insert(neighbor.clone(), ());
                            next.insert(neighbor.clone(), ());
                        }
                        proof {
                            let grown = seen.insert(b);
                            assert(visited@.dom() =~= v0.union(grown));
                            assert(next@.dom() =~= n0.union(grown.difference(v0)));
                            seen = grown;
                        }
                    }
                    i = i + 1;
                }
                proof {
                    assert forall|b: Seq<char>| #[trigger] near.contains(b) implies seen.contains(
                        b,
                    ) by {
                        let rid = choose|rid: Seq<char>| #[trigger]
                            self@.relationships.dom().contains(rid) && leads(
                                self@.relationships[rid],
                                node@,
                                b,
                                one_way(backwards),
                            );
                        assert(ends.dom().contains(rid));
                        let p = index.positions@[rid] as int;
                        assert(list@[p]@ == rid);
                        assert(far_end(self@, list@[p]@, backwards) == b);
                    }
                    assert(seen =~= near);
                }
            },
        }
    }

    /// Goes from `node` along its relationships in `direction`: what is new to `visited` goes
    /// into it and into `next`.
    fn visit(
        &self,
        node: &str,
        direction: GraphDirection,
        visited: &mut StringMap<()>,
        next: &mut StringMap<()>,
    )
        requires
            self.wf(),
        ensures
            final(visited)@.dom() == old(visited)@.dom().union(next_to(self@, node@, direction)),
            final(next)@.dom() == old(next)@.dom().union(
                next_to(self@, node@, direction).difference(old(visited)@.dom()),
            ),
    {
        match direction {
            GraphDirection::Outgoing => self.visit_one_way(node, false, visited, next),
            GraphDirection::Incoming => self.visit_one_way(node, true, visited, next),
            GraphDirection::Any => {
                let ghost v0 = visited@.dom();
                let ghost n0 = next@.dom();
                self.visit_one_way(node, false, visited, next);
                self.visit_one_way(node, true, visited, next);
                proof {
                    let out = next_to(self@, node@, GraphDirection::Outgoing);
                    let inc = next_to(self@, node@, GraphDirection::Incoming);
                    let any = next_to(self@, node@, GraphDirection::Any);
                    assert forall|b: Seq<char>| #[trigger] any.contains(b) <==> out.contains(b)
                        || inc.contains(b) by {
                        if any.contains(b) {
                            let rid = choose|rid: Seq<char>| #[trigger]
                                self@.relationships.dom().contains(rid) && leads(
                                    self@.relationships[rid],
                                    node@,
                                    b,
                                    GraphDirection::Any,
                                );
                            assert(leads(
                                self@.relationships[rid],
                                node@,
                                b,
                                GraphDirection::Outgoing,
                            ) || leads(
                                self@.relationships[rid],
                                node@,
                                b,
                                GraphDirection::Incoming,
                            ));
                        }
                        if out.contains(b) {
                            let rid = choose|rid: Seq<char>| #[trigger]
                                self@.relationships.dom().contains(rid) && leads(
                                    self@.relationships[rid],
                                    node@,
                                    b,
                                    GraphDirection::Outgoing,
                                );
                            assert(leads(
                                self@.relationships[rid],
                                node@,
                                b,
                                GraphDirection::Any,
                            ));
                        }
                        if inc.contains(b) {
                            let rid = choose|rid: Seq<char>| #[trigger]
                                self@.relationships.dom().contains(rid) && leads(
                                    self@.relationships[rid],
                                    node@,
                                    b,
                                    GraphDirection::Incoming,
                                );
                            assert(leads(
                                self@.relationships[rid],
                                node@,
                                b,
                                GraphDirection::Any,
                            ));
                        }
                    }
                    assert(visited@.dom() =~= v0.union(any));
                    assert(next@.dom() =~= n0.union(any.difference(v0)));
                }
            },
        }
    }

    /// The nodes next to `id`, in order and each once; none where `id` is no node.
    pub fn neighbors(&self, id: &str, direction: GraphDirection) -> (r: Vec<String>)
        requires
            self.wf(),
        ensures
            is_listing(texts(r@), next_to(self@, id@, direction)),
            texts(r@) == listing(next_to(self@, id@, direction)),
            !self@.nodes.dom().contains(id@) ==> r@.len() == 0,
    {
        let mut visited: StringMap<()> = StringMap::new();
        let mut next: StringMap<()> = StringMap::new();
        self.visit(id, direction, &mut visited, &mut next);
        proof {
            assert(next@.dom() =~= next_to(self@, id@, direction));
        }
        let r = set_listing(&next);
        proof {
            if !self@.nodes.dom().contains(id@) && r@.len() > 0 {
                assert(texts(r@).contains(texts(r@)[0]));
                let b = texts(r@)[0];
                let rid = choose|rid: Seq<char>| #[trigger]
                    self@.relationships.dom().contains(rid) && leads(
                        self@.relationships[rid],
                        id@,
                        b,
                        direction,
                    );
                assert(self@.relationships.dom().contains(rid));
            }
        }
        r
    }

    /// One step further: all that is next to `frontier` and new to `visited` goes into
    /// `visited`, and is returned.
    fn advance(
        &self,
        frontier: &StringMap<()>,
        direction: GraphDirection,
        visited: &mut StringMap<()>,
    ) -> (next: StringMap<()>)
        requires
            self.wf(),
        ensures
            final(visited)@.dom() == old(visited)@.dom().union(
                next_to_any(self@, frontier@.dom(), direction),
            ),
            next@.dom() == next_to_any(self@, frontier@.dom(), direction).difference(
                old(visited)@.dom(),
            ),
    {
        proof {
            use_type_invariant(frontier);
        }
        let mut next: StringMap<()> = StringMap::new();
        let n: usize = frontier.len();
        let ghost v0 = visited@.dom();
        let ghost keys = frontier.keys();
        let mut i: usize = 0;
        proof {
            assert(next_to_any(self@, keys.take(0).to_set(), direction) =~= Set::empty());
        }
        while i < n
            invariant
                self.wf(),
                keys == frontier.keys(),
                n == keys.len(),
                i <= n,
                visited@.dom() =~= v0.union(
                    next_to_any(self@, keys.take(i as int).to_set(), direction),
                ),
                next@.dom() =~= next_to_any(
                    self@,
                    keys.take(i as int).to_set(),
                    direction,
                ).difference(v0),
            decreases n - i,
        {
            let ghost done = keys.take(i as int).to_set();
            let ghost more = keys.take(i + 1).to_set();
            let ghost a = keys[i as int];
            self.visit(frontier.key_at(i).as_str(), direction, visited, &mut next);
            proof {
                lemma_take_more(keys, i as int);
                assert forall|b: Seq<char>| #[trigger]
                    next_to_any(self@, more, direction).contains(b) <==> next_to_any(
                        self@,
                        done,
                        direction,
                    ).contains(b) || next_to(self@, a, direction).contains(b) by {
                    if next_to_any(self@, more, direction).contains(b) {
                        let x = choose|x: Seq<char>|
                            more.contains(x) && #[trigger] adjacent(self@, x, b, direction);
                        assert(done.contains(x) || x == a);
                    }
                    if next_to_any(self@, done, direction).contains(b) {
                        let x = choose|x: Seq<char>|
                            done.contains(x) && #[trigger] adjacent(self@, x, b, direction);
                        assert(more.contains(x));
                    }
                    assert(more.contains(a));
                }
            }
            i = i + 1;
        }
        proof {
            assert(keys.take(n as int) =~= keys);
            StringMap::lemma_view_len(*frontier);
        }
        next
    }

    /// Whether a path of outgoing relationships leads from `from` to `to`. A node reaches
    /// itself.
    pub fn is_connected(&self, from: &str, to: &str) -> (r: bool)
        requires
            self.wf(),
        ensures
            r == (self@.nodes.dom().contains(from@) && exists|n: nat| #[trigger]
                reached(self@, set![from@], n, GraphDirection::Outgoing).contains(to@)),
    {
        let ghost starts = set![from@];
        let ghost d = GraphDirection::Outgoing;
        if !self.nodes.contains_key(from) {
            return false;
        }
        let mut visited: StringMap<()> = StringMap::new();
        visited.insert(from.to_owned(), ());
        let mut frontier: StringMap<()> = StringMap::new();
        frontier.insert(from.to_owned(), ());
        let ghost mut k: nat = 0;
        proof {
            assert(visited@.dom() =~= starts);
            assert(frontier@.dom() =~= starts);
            assert(self@.nodes.dom() =~= self.nodes@.dom());
        }
        while !frontier.is_empty()
            invariant
                self.wf(),
                self@.nodes.dom().contains(from@),
                starts == set![from@],
                d == GraphDirection::Outgoing,
                visited@.dom() == reached(self@, starts, k, d),
                frontier@.dom() == level(self@, starts, k, d),
            decreases
                    self@.nodes.dom().len() - visited@.dom().len(),
                    frontier@.dom().len(),
        {
            let ghost v0 = visited@.dom();
            let ghost f0 = frontier@.dom();
            let next = self.advance(&frontier, GraphDirection::Outgoing, &mut visited);
            proof {
                lemma_frontier(self@, starts, k, d);
                lemma_reached_nodes(self@, starts, k + 1, d);
                use_type_invariant(&visited);
                StringMap::lemma_view_len(visited);
                use_type_invariant(&next);
                StringMap::lemma_view_len(next);
                use_type_invariant(&frontier);
                StringMap::lemma_view_len(frontier);
                vstd::set_lib::lemma_len_subset(visited@.dom(), self@.nodes.dom());
                assert(v0.finite()) by {
                    vstd::set_lib::lemma_set_subset_finite(visited@.dom(), v0);
                }
                if next@.dom().len() > 0 {
                    let x = next@.dom().choose();
                    assert(next@.dom().contains(x));
                    assert(v0.subset_of(visited@.dom().remove(x)));
                    vstd::set_lib::lemma_len_subset(v0, visited@.dom().remove(x));
                } else {
                    vstd::set_lib::lemma_len_subset(v0, visited@.dom());
                    assert(next@.dom() =~= Set::empty());
                    assert forall|x: Seq<char>| #[trigger] visited@.dom().contains(x) implies v0.contains(
                        x,
                    ) by {
                        if !v0.contains(x) {
                            assert(next@.dom().contains(x));
                        }
                    }
                    assert(visited@.dom() =~= v0);
                }
                k = k + 1;
            }
            frontier = next;
        }
        let r = visited.contains_key(to);
        proof {
            assert forall|n: nat| #[trigger] reached(self@, starts, n, d).contains(to@) implies r by {
                if n >= k {
                    lemma_stable(self@, starts, k, n, d);
                } else {
                    lemma_reached_monotone(self@, starts, n, k, d);
                }
            }
        }
        r
    }

    /// The nodes at most `max_depth` steps away from `start`, `start` first, then level by
    /// level, each level in order. None where `start` is no node.
    pub fn traverse(
        &self,
        start: &str,
        max_depth: usize,
        direction: GraphDirection,
    ) -> (r: Vec<String>)
        requires
            self.wf(),
        ensures
            texts(r@) == (if self@.nodes.dom().contains(start@) {
                breadth_first(self@, set![start@], max_depth as nat, direction)
            } else {
                Seq::empty()
            }),
    {
        let ghost starts = set![start@];
        if !self.nodes.contains_key(start) {
            let none: Vec<String> = Vec::new();
            assert(texts(none@) =~= Seq::empty());
            return none;
        }
        let mut visited: StringMap<()> = StringMap::new();
        visited.insert(start.to_owned(), ());
        let mut frontier: StringMap<()> = StringMap::new();
        frontier.insert(start.to_owned(), ());
        proof {
            assert(visited@.dom() =~= starts);
            assert(frontier@.dom() =~= starts);
        }
        let mut out: Vec<String> = set_listing(&frontier);
        let mut k: usize = 0;
        while k < max_depth && !frontier.is_empty()
            invariant
                self.wf(),
                k <= max_depth,
                visited@.dom() == reached(self@, starts, k as nat, direction),
                frontier@.dom() == level(self@, starts, k as nat, direction),
                texts(out@) == breadth_first(self@, starts, k as nat, direction),
            decreases max_depth - k,
        {
            let next = self.advance(&frontier, direction, &mut visited);
            proof {
                lemma_frontier(self@, starts, k as nat, direction);
            }
            let ghost earlier = out@;
            let mut names = set_listing(&next);
            let ghost added = names@;
            out.append(&mut names);
            assert(texts(out@) =~= texts(earlier) + texts(added));
            frontier = next;
            k = k + 1;
        }
        proof {
            if k < max_depth {
                lemma_stable(self@, starts, k as nat, max_depth as nat, direction);
            }
        }
        out
    }

    /// The nodes at most `max_depth` steps away from `starts`, either way.
    fn explore(&self, starts: StringMap<()>, max_depth: usize) -> (r: StringMap<()>)
        requires
            self.wf(),
        ensures
            r@.dom() == reached(self@, starts@.dom(), max_depth as nat, GraphDirection::Any),
    {
        let ghost from = starts@.dom();
        let mut visited: StringMap<()> = StringMap::new();
        let mut i: usize = 0;
        let n: usize = starts.len();
        proof {
            assert(visited@.dom() =~= starts.keys().take(0).to_set());
        }
        while i < n
            invariant
                n == starts.keys().len(),
                i <= n,
                visited@.dom() =~= starts.keys().take(i as int).to_set(),
            decreases n - i,
        {
            let ghost keys = starts.keys();
            visited.insert(starts.key_at(i).clone(), ());
            proof {
                lemma_take_more(keys, i as int);
            }
            i = i + 1;
        }
        proof {
            assert(starts.keys().take(n as int) =~= starts.keys());
            use_type_invariant(&starts);
                StringMap::lemma_view_len(starts);
        }
        let mut frontier = starts;
        let mut k: usize = 0;
        while k < max_depth && !frontier.is_empty()
            invariant
                self.wf(),
                k <= max_depth,
                visited@.dom() == reached(self@, from, k as nat, GraphDirection::Any),
                frontier@.dom() == level(self@, from, k as nat, GraphDirection::Any),
            decreases max_depth - k,
        {
            let next = self.advance(&frontier, GraphDirection::Any, &mut visited);
            proof {
                lemma_frontier(self@, from, k as nat, GraphDirection::Any);
            }
            frontier = next;
            k = k + 1;
        }
        proof {
            if k < max_depth {
                lemma_stable(self@, from, k as nat, max_depth as nat, GraphDirection::Any);
            }
        }
        visited
    }
}

/// The direction that `visit_one_way` follows.
spec fn one_way(backwards: bool) -> GraphDirection {
    if backwards {
        GraphDirection::Incoming
    } else {
        GraphDirection::Outgoing
    }
}

/// Where the relationship `rid` leads.
spec fn far_end(g: GraphView, rid: Seq<char>, backwards: bool) -> Seq<char> {
    if backwards {
        g.relationships[rid].from
    } else {
        g.relationships[rid].to
    }
}

/// More steps lead to no fewer nodes.
pub proof fn lemma_reached_monotone(
    g: GraphView,
    starts: Set<Seq<char>>,
    n: nat,
    m: nat,
    d: GraphDirection,
)
    requires
        n <= m,
    ensures
        reached(g, starts, n, d).subset_of(reached(g, starts, m, d)),
    decreases m,
{
    if n < m {
        lemma_reached_monotone(g, starts, n, (m - 1) as nat, d);
    }
}

/// The relationships that touch the node `id` at neither end.
pub open spec fn not_incident(
    m: Map<Seq<char>, RelationshipView>,
    id: Seq<char>,
) -> Map<Seq<char>, RelationshipView> {
    Map::new(
        |k: Seq<char>| m.dom().contains(k) && m[k].from != id && m[k].to != id,
        |k: Seq<char>| m[k],
    )
}

impl MemoryGraph {
    /// Adds the relationships listed under `id` in one direction to `incident`.
    fn collect_incident(&self, id: &str, backwards: bool, incident: &mut StringMap<()>)
        requires
            self.wf(),
        ensures
            forall|rid: Seq<char>| #[trigger]
                final(incident)@.dom().contains(rid) <==> old(incident)@.dom().contains(rid) || (
                self@.relationships.dom().contains(rid) && near_end(self@, rid, backwards) == id@),
    {
        let index: &Adjacency = if backwards { &self.incoming } else { &self.outgoing };
        let ghost ends = if backwards {
            targets(self@.relationships)
        } else {
            sources(self@.relationships)
        };
        let ghost before = incident@.dom();
        if let Some(list) = index.lists.get(id) {
            let mut i: usize = 0;
            while i < list.len()
                invariant
                    self.wf(),
                    i <= list@.len(),
                    index.mirrors(ends),
                    index.lists@.dom().contains(id@),
                    *list == index.lists@[id@],
                    ends == (if backwards {
                        targets(self@.relationships)
                    } else {
                        sources(self@.relationships)
                    }),
                    forall|rid: Seq<char>| #[trigger]
                        incident@.dom().contains(rid) <==> before.contains(rid) || exists|k: int|
                            0 <= k < i && (#[trigger] list@[k])@ == rid,
                decreases list@.len() - i,
            {
                incident.insert(list[i].clone(), ());
                i = i + 1;
            }
            proof {
                assert forall|rid: Seq<char>| #[trigger] incident@.dom().contains(rid)
                    <==> before.contains(rid) || (self@.relationships.dom().contains(rid)
                    && near_end(self@, rid, backwards) == id@) by {
                    if self@.relationships.dom().contains(rid) && near_end(self@, rid, backwards)
                        == id@ {
                        assert(ends.dom().contains(rid));
                        assert(list@[index.positions@[rid] as int]@ == rid);
                    }
                    if exists|k: int| 0 <= k < list@.len() && (#[trigger] list@[k])@ == rid {
                        let k = choose|k: int| 0 <= k < list@.len() && (#[trigger] list@[k])@ == rid;
                        assert(index.lists@[id@]@[k] == list@[k]);
                    }
                }
            }
        } else {
            proof {
                assert forall|rid: Seq<char>| #[trigger] self@.relationships.dom().contains(
                    rid,
                ) implies near_end(self@, rid, backwards) != id@ by {
                    assert(ends.dom().contains(rid));
                }
            }
        }
    }

    /// Takes the node `id` out, with every relationship that touches it. Returns whether there
    /// was such a node.
    pub fn remove_node(&mut self, id: &str) -> (r: bool)
        requires
            old(self).wf(),
        ensures
            final(self).wf(),
            r == old(self)@.nodes.dom().contains(id@),
            final(self)@.nodes == old(self)@.nodes.remove(id@),
            final(self)@.relationships == not_incident(old(self)@.relationships, id@),
    {
        let ghost before = *self;
        if !self.nodes.contains_key(id) {
            proof {
                assert(self@.nodes =~= before@.nodes.remove(id@));
                assert(not_incident(before@.relationships, id@) =~= before@.relationships);
            }
            return false;
        }
        let mut incident: StringMap<()> = StringMap::new();
        self.collect_incident(id, false, &mut incident);
        self.collect_incident(id, true, &mut incident);
        let n: usize = incident.len();
        let ghost keys = incident.keys();
        let mut i: usize = 0;
        while i < n
            invariant
                self.wf(),
                keys == incident.keys(),
                n == keys.len(),
                i <= n,
                self@.nodes == before@.nodes,
                forall|k: Seq<char>| #[trigger]
                    self@.relationships.dom().contains(k) <==> before@.relationships.dom().contains(
                        k,
                    ) && !keys.take(i as int).contains(k),
                forall|k: Seq<char>| #[trigger]
                    self@.relationships.dom().contains(k) ==> self@.relationships[k]
                        == before@.relationships[k],
            decreases n - i,
        {
            proof {
                lemma_take_more(keys, i as int);
                assert forall|k: Seq<char>| #[trigger] keys.take(i + 1).contains(k) <==> keys.take(
                    i as int,
                ).contains(k) || k == keys[i as int] by {
                    assert(keys.take(i + 1).to_set().contains(k) <==> keys.take(
                        i as int,
                    ).to_set().insert(keys[i as int]).contains(k));
                }
            }
            self.remove_relationship(incident.key_at(i).as_str());
            i = i + 1;
        }
        proof {
            assert(keys.take(n as int) =~= keys);
            use_type_invariant(&incident);
            StringMap::lemma_view_len(incident);
            assert forall|k: Seq<char>| #[trigger] keys.contains(k) <==> incident@.dom().contains(
                k,
            ) by {
                assert(keys.to_set().contains(k) <==> incident@.dom().contains(k));
            }
            assert(self@.relationships =~= not_incident(before@.relationships, id@));
        }
        let ghost left = self@;
        self.nodes.remove(id);
        self.outgoing.drop_node(id, Ghost(sources(left.relationships)));
        self.incoming.drop_node(id, Ghost(targets(left.relationships)));
        proof {
            assert(self@.nodes =~= before@.nodes.remove(id@));
            assert(self@.relationships =~= left.relationships);
        }
        true
    }
}

/// The end of the relationship `rid` at which one direction lists it.
spec fn near_end(g: GraphView, rid: Seq<char>, backwards: bool) -> Seq<char> {
    if backwards {
        g.relationships[rid].to
    } else {
        g.relationships[rid].from
    }
}

/// The ids of a sequence of nodes.
pub open spec fn node_ids(v: Seq<NodeView>) -> Seq<Seq<char>> {
    Seq::new(v.len(), |i: int| v[i].id)
}

/// The ids of a sequence of relationships.
pub open spec fn relationship_ids(v: Seq<RelationshipView>) -> Seq<Seq<char>> {
    Seq::new(v.len(), |i: int| v[i].id)
}

/// `s` lists the nodes and the relationships of `g`, each sorted by id.
pub open spec fn is_snapshot(s: SnapshotView, g: GraphView) -> bool {
    &&& is_listing(node_ids(s.nodes), g.nodes.dom())
    &&& forall|i: int| 0 <= i < s.nodes.len() ==> #[trigger] s.nodes[i] == g.nodes[s.nodes[i].id]
    &&& is_listing(relationship_ids(s.relationships), g.relationships.dom())
    &&& forall|i: int|
        0 <= i < s.relationships.len() ==> #[trigger] s.relationships[i]
            == g.relationships[s.relationships[i].id]
}

/// The nodes of `v` by id; of two with one id the later one counts.
pub open spec fn nodes_by_id(v: Seq<NodeView>) -> Map<Seq<char>, NodeView>
    decreases v.len(),
{
    if v.len() == 0 {
        Map::empty()
    } else {
        nodes_by_id(v.drop_last()).insert(v.last().id, v.last())
    }
}

/// The relationships of `v` by id; of two with one id the later one counts.
pub open spec fn relationships_by_id(v: Seq<RelationshipView>) -> Map<Seq<char>, RelationshipView>
    decreases v.len(),
{
    if v.len() == 0 {
        Map::empty()
    } else {
        relationships_by_id(v.drop_last()).insert(v.last().id, v.last())
    }
}

/// The graph that a snapshot describes.
pub open spec fn graph_of(s: SnapshotView) -> GraphView {
    GraphView {
        nodes: nodes_by_id(s.nodes),
        relationships: relationships_by_id(s.relationships),
    }
}

/// What is wrong with the nodes of a snapshot from position `k` on: the first id that came
/// before.
pub open spec fn nodes_refusal(nodes: Seq<NodeView>, k: int) -> Option<Seq<char>>
    decreases nodes.len() - k,
{
    if k < 0 || k >= nodes.len() {
        None
    } else if node_ids(nodes.take(k)).contains(nodes[k].id) {
        Some("graph snapshot has duplicate node id '"@ + nodes[k].id + "'"@)
    } else {
        nodes_refusal(nodes, k + 1)
    }
}

/// What is wrong with the relationship in position `k` of a snapshot.
pub open spec fn relationship_refusal(s: SnapshotView, k: int) -> Option<Seq<char>> {
    let rel = s.relationships[k];
    if relationship_ids(s.relationships.take(k)).contains(rel.id) {
        Some("graph snapshot has duplicate relationship id '"@ + rel.id + "'"@)
    } else if !finite_double(rel.weight.bits) {
        Some(
            "graph snapshot relationship '"@ + rel.id + "' has non-finite weight "@
                + rel.weight.text,
        )
    } else if !node_ids(s.nodes).contains(rel.from) {
        Some(
            "graph snapshot relationship '"@ + rel.id + "' references unknown node '"@ + rel.from
                + "' (from)"@,
        )
    } else if !node_ids(s.nodes).contains(rel.to) {
        Some(
            "graph snapshot relationship '"@ + rel.id + "' references unknown node '"@ + rel.to
                + "' (to)"@,
        )
    } else {
        None
    }
}

/// What is wrong with the relationships of a snapshot from position `k` on.
pub open spec fn relationships_refusal(s: SnapshotView, k: int) -> Option<Seq<char>>
    decreases s.relationships.len() - k,
{
    if k < 0 || k >= s.relationships.len() {
        None
    } else if relationship_refusal(s, k) is Some {
        relationship_refusal(s, k)
    } else {
        relationships_refusal(s, k + 1)
    }
}

/// Why a snapshot is refused: the first defect of its nodes, or else of its relationships.
pub open spec fn snapshot_refusal(s: SnapshotView) -> Option<Seq<char>> {
    if nodes_refusal(s.nodes, 0) is Some {
        nodes_refusal(s.nodes, 0)
    } else {
        relationships_refusal(s, 0)
    }
}

/// One id more.
proof fn lemma_node_ids_more(v: Seq<NodeView>, k: int, id: Seq<char>)
    requires
        0 <= k < v.len(),
    ensures
        node_ids(v.take(k + 1)).contains(id) <==> node_ids(v.take(k)).contains(id) || id
            == v[k].id,
{
    let longer = node_ids(v.take(k + 1));
    let shorter = node_ids(v.take(k));
    if longer.contains(id) {
        let j = choose|j: int| 0 <= j < longer.len() && longer[j] == id;
        if j < k {
            assert(shorter[j] == id);
        }
    }
    if shorter.contains(id) {
        let j = choose|j: int| 0 <= j < shorter.len() && shorter[j] == id;
        assert(longer[j] == id);
    }
    assert(longer[k] == v[k].id);
}

/// One id more.
proof fn lemma_relationship_ids_more(v: Seq<RelationshipView>, k: int, id: Seq<char>)
    requires
        0 <= k < v.len(),
    ensures
        relationship_ids(v.take(k + 1)).contains(id) <==> relationship_ids(v.take(k)).contains(id)
            || id == v[k].id,
{
    let longer = relationship_ids(v.take(k + 1));
    let shorter = relationship_ids(v.take(k));
    if longer.contains(id) {
        let j = choose|j: int| 0 <= j < longer.len() && longer[j] == id;
        if j < k {
            assert(shorter[j] == id);
        }
    }
    if shorter.contains(id) {
        let j = choose|j: int| 0 <= j < shorter.len() && shorter[j] == id;
        assert(longer[j] == id);
    }
    assert(longer[k] == v[k].id);
}

/// The ids of a graph made of a sequence of nodes are the ids of the sequence.
proof fn lemma_nodes_by_id_dom(v: Seq<NodeView>, id: Seq<char>)
    ensures
        nodes_by_id(v).dom().contains(id) <==> node_ids(v).contains(id),
        nodes_by_id(v).dom().finite(),
        nodes_by_id(v).dom().contains(id) ==> nodes_by_id(v)[id].id == id,
    decreases v.len(),
{
    if v.len() > 0 {
        lemma_nodes_by_id_dom(v.drop_last(), id);
        assert(v.take(v.len() - 1) =~= v.drop_last());
        assert(v.take(v.len() as int) =~= v);
        lemma_node_ids_more(v, v.len() - 1, id);
    }
}

/// The ids of a graph made of a sequence of relationships are the ids of the sequence.
proof fn lemma_relationships_by_id_dom(v: Seq<RelationshipView>, id: Seq<char>)
    ensures
        relationships_by_id(v).dom().contains(id) <==> relationship_ids(v).contains(id),
        relationships_by_id(v).dom().finite(),
        relationships_by_id(v).dom().contains(id) ==> relationships_by_id(v)[id].id == id,
    decreases v.len(),
{
    if v.len() > 0 {
        lemma_relationships_by_id_dom(v.drop_last(), id);
        assert(v.take(v.len() - 1) =~= v.drop_last());
        assert(v.take(v.len() as int) =~= v);
        lemma_relationship_ids_more(v, v.len() - 1, id);
    }
}

impl GraphSnapshot {
    /// Why the snapshot is refused, or the set of its node ids.
    fn check(&self) -> (r: Result<StringMap<()>, String>)
        ensures
            match snapshot_refusal(self@) {
                Some(m) => r matches Err(e) && e@ == m,
                None => r is Ok,
            },
    {
        let ghost v = self@.nodes;
        let mut ids: StringMap<()> = StringMap::new();
        let mut i: usize = 0;
        while i < self.nodes.len()
            invariant
                v == self@.nodes,
                i <= v.len(),
                v.len() == self.nodes@.len(),
                forall|id: Seq<char>| #[trigger]
                    ids@.dom().contains(id) <==> node_ids(v.take(i as int)).contains(id),
                nodes_refusal(v, 0) == nodes_refusal(v, i as int),
            decreases v.len() - i,
        {
            let node = &self.nodes[i];
            assert(v[i as int] == node@);
            if ids.contains_key(node.id.as_str()) {
                return Err(
                    "graph snapshot has duplicate node id '".to_owned().concat(
                        node.id.as_str(),
                    ).concat("'"),
                );
            }
            ids.insert(node.id.clone(), ());
            proof {
                assert forall|id: Seq<char>| #[trigger] ids@.dom().contains(id) <==> node_ids(
                    v.take(i + 1),
                ).contains(id) by {
                    lemma_node_ids_more(v, i as int, id);
                }
            }
            i = i + 1;
        }
        assert(v.take(i as int) =~= v);
        let ghost s = self@;
        let ghost w = self@.relationships;
        let mut rel_ids: StringMap<()> = StringMap::new();
        let mut k: usize = 0;
        while k < self.relationships.len()
            invariant
                s == self@,
                w == s.relationships,
                v == s.nodes,
                k <= w.len(),
                w.len() == self.relationships@.len(),
                forall|id: Seq<char>| #[trigger]
                    ids@.dom().contains(id) <==> node_ids(v).contains(id),
                forall|id: Seq<char>| #[trigger]
                    rel_ids@.dom().contains(id) <==> relationship_ids(w.take(k as int)).contains(
                        id,
                    ),
                nodes_refusal(v, 0) is None,
                relationships_refusal(s, 0) == relationships_refusal(s, k as int),
            decreases w.len() - k,
        {
            let rel = &self.relationships[k];
            assert(w[k as int] == rel@);
            if rel_ids.contains_key(rel.id.as_str()) {
                return Err(
                    "graph snapshot has duplicate relationship id '".to_owned().concat(
                        rel.id.as_str(),
                    ).concat("'"),
                );
            }
            if !rel.weight.is_finite() {
                return Err(
                    "graph snapshot relationship '".to_owned().concat(rel.id.as_str()).concat(
                        "' has non-finite weight ",
                    ).concat(rel.weight.text.as_str()),
                );
            }
            if !ids.contains_key(rel.from.as_str()) {
                return Err(
                    "graph snapshot relationship '".to_owned().concat(rel.id.as_str()).concat(
                        "' references unknown node '",
                    ).concat(rel.from.as_str()).concat("' (from)"),
                );
            }
            if !ids.contains_key(rel.to.as_str()) {
                return Err(
                    "graph snapshot relationship '".to_owned().concat(rel.id.as_str()).concat(
                        "' references unknown node '",
                    ).concat(rel.to.as_str()).concat("' (to)"),
                );
            }
            rel_ids.insert(rel.id.clone(), ());
            proof {
                assert forall|id: Seq<char>| #[trigger] rel_ids@.dom().contains(id)
                    <==> relationship_ids(w.take(k + 1)).contains(id) by {
                    lemma_relationship_ids_more(w, k as int, id);
                }
            }
            k = k + 1;
        }
        Ok(ids)
    }
}

/// A snapshot without defects: ends are nodes, and weights are finite.
proof fn lemma_no_refusal(s: SnapshotView, k: int, i: int)
    requires
        relationships_refusal(s, k) is None,
        0 <= k <= i < s.relationships.len(),
    ensures
        relationship_refusal(s, i) is None,
    decreases i - k,
{
    if k < i {
        lemma_no_refusal(s, k + 1, i);
    }
}

impl MemoryGraph {
    /// The nodes and relationships, each sorted by id.
    pub fn snapshot(&self) -> (r: GraphSnapshot)
        requires
            self.wf(),
        ensures
            is_snapshot(r@, self@),
    {
        proof {
            use_type_invariant(&self.nodes);
            use_type_invariant(&self.relationships);
        }
        let mut nodes: Vec<GraphNode> = Vec::new();
        let n: usize = self.nodes.len();
        let mut i: usize = 0;
        while i < n
            invariant
                self.wf(),
                self.nodes.ordered(),
                n == self.nodes.keys().len(),
                i <= n,
                nodes@.len() == i,
                forall|k: int|
                    0 <= k < i ==> (#[trigger] nodes@[k])@ == self@.nodes[self.nodes.keys()[k]]
                        && nodes@[k].id@ == self.nodes.keys()[k],
            decreases n - i,
        {
            let node = self.nodes.value_at(i);
            proof {
                StringMap::lemma_view_at(self.nodes, i as int);
                assert(self@.nodes.dom().contains(self.nodes.keys()[i as int]));
            }
            nodes.push(node.clone());
            i = i + 1;
        }
        let mut relationships: Vec<GraphRelationship> = Vec::new();
        let m: usize = self.relationships.len();
        let mut j: usize = 0;
        while j < m
            invariant
                self.wf(),
                self.relationships.ordered(),
                m == self.relationships.keys().len(),
                j <= m,
                relationships@.len() == j,
                forall|k: int|
                    0 <= k < j ==> (#[trigger] relationships@[k])@
                        == self@.relationships[self.relationships.keys()[k]]
                        && relationships@[k].id@ == self.relationships.keys()[k],
            decreases m - j,
        {
            let rel = self.relationships.value_at(j);
            proof {
                StringMap::lemma_view_at(self.relationships, j as int);
                assert(self@.relationships.dom().contains(self.relationships.keys()[j as int]));
            }
            relationships.push(rel.clone());
            j = j + 1;
        }
        let r = GraphSnapshot { nodes, relationships };
        proof {
            assert(node_ids(r@.nodes) =~= self.nodes.keys());
            assert(relationship_ids(r@.relationships) =~= self.relationships.keys());
            assert(forall|x: Seq<char>| #[trigger]
                self.nodes.keys().contains(x) <==> self@.nodes.dom().contains(x));
            assert(forall|x: Seq<char>| #[trigger]
                self.relationships.keys().contains(x) <==> self@.relationships.dom().contains(x));
        }
        r
    }

    /// Builds the graph that a snapshot describes, or refuses the snapshot: where a node id or a
    /// relationship id comes twice, where a weight is not finite, or where an end of a
    /// relationship is not among the nodes.
    pub fn from_snapshot(snapshot: GraphSnapshot) -> (r: Result<MemoryGraph, PluginError>)
        ensures
            match snapshot_refusal(snapshot@) {
                Some(m) => r matches Err(PluginError::Internal(e)) && e@ == m,
                None => r matches Ok(g) && g.wf() && g@ == graph_of(snapshot@),
            },
    {
        if let Err(message) = snapshot.check() {
            return Err(PluginError::Internal(message));
        }
        let ghost s = snapshot@;
        let mut graph = MemoryGraph::new();
        let nodes = snapshot.nodes;
        let relationships = snapshot.relationships;
        proof {
            assert(s.nodes.take(0) =~= Seq::empty());
            assert(s.relationships.take(0) =~= Seq::empty());
        }
        for node in it: nodes
            invariant
                it.seq() == nodes@,
                s.nodes == node_views(nodes@),
                graph.wf(),
                graph@.nodes == nodes_by_id(s.nodes.take(it.index() as int)),
                graph@.relationships == Map::<Seq<char>, RelationshipView>::empty(),
        {
            proof {
                let i = it.index() as int;
                assert(s.nodes[i] == node@);
                assert(s.nodes.take(i + 1).drop_last() =~= s.nodes.take(i));
            }
            graph.upsert_node(node);
        }
        assert(s.nodes.take(s.nodes.len() as int) =~= s.nodes);
        for rel in it: relationships
            invariant
                it.seq() == relationships@,
                s.relationships == relationship_views(relationships@),
                relationships_refusal(s, 0) is None,
                graph.wf(),
                graph@.nodes == nodes_by_id(s.nodes),
                graph@.relationships == relationships_by_id(
                    s.relationships.take(it.index() as int),
                ),
        {
            proof {
                let i = it.index() as int;
                assert(s.relationships[i] == rel@);
                assert(s.relationships.take(i + 1).drop_last() =~= s.relationships.take(i));
                lemma_no_refusal(s, 0, i);
                lemma_nodes_by_id_dom(s.nodes, rel.from@);
                lemma_nodes_by_id_dom(s.nodes, rel.to@);
            }
            let added = graph.add_relationship(rel);
            if let Err(error) = added {
                return Err(error);
            }
        }
        assert(s.relationships.take(s.relationships.len() as int) =~= s.relationships);
        Ok(graph)
    }
}

/// The part of a graph that lies within a set of nodes: these nodes, and the relationships
/// between them.
pub open spec fn induced(g: GraphView, keep: Set<Seq<char>>) -> GraphView {
    GraphView {
        nodes: Map::new(
            |k: Seq<char>| g.nodes.dom().contains(k) && keep.contains(k),
            |k: Seq<char>| g.nodes[k],
        ),
        relationships: Map::new(
            |k: Seq<char>|
                g.relationships.dom().contains(k) && keep.contains(g.relationships[k].from)
                    && keep.contains(g.relationships[k].to),
            |k: Seq<char>| g.relationships[k],
        ),
    }
}

/// The nodes of `g` among `roots`.
pub open spec fn known_roots(g: GraphView, roots: Seq<Seq<char>>) -> Set<Seq<char>> {
    Set::new(|k: Seq<char>| roots.contains(k) && g.nodes.dom().contains(k))
}

impl MemoryGraph {
    /// The part of the graph at most `max_depth` steps, either way, from one of `roots`; roots
    /// that are no nodes are skipped.
    pub fn subgraph(&self, roots: &[String], max_depth: usize) -> (r: MemoryGraph)
        requires
            self.wf(),
        ensures
            r.wf(),
            r@ == induced(
                self@,
                reached(
                    self@,
                    known_roots(self@, texts(roots@)),
                    max_depth as nat,
                    GraphDirection::Any,
                ),
            ),
    {
        let ghost names = texts(roots@);
        let mut starts: StringMap<()> = StringMap::new();
        let mut i: usize = 0;
        while i < roots.len()
            invariant
                self.wf(),
                names == texts(roots@),
                i <= roots@.len(),
                forall|k: Seq<char>| #[trigger]
                    starts@.dom().contains(k) <==> self@.nodes.dom().contains(k) && exists|j: int|
                        0 <= j < i && #[trigger] names[j] == k,
            decreases roots@.len() - i,
        {
            assert(names[i as int] == roots@[i as int]@);
            if self.nodes.contains_key(roots[i].as_str()) {
                starts.insert(roots[i].clone(), ());
            }
            i = i + 1;
        }
        proof {
            assert(starts@.dom() =~= known_roots(self@, names));
        }
        let ids = self.explore(starts, max_depth);
        let ghost keep = ids@.dom();
        let mut out = MemoryGraph::new();
        proof {
            use_type_invariant(&self.nodes);
            use_type_invariant(&self.relationships);
        }
        let n: usize = self.nodes.len();
        let ghost keys = self.nodes.keys();
        let mut k: usize = 0;
        while k < n
            invariant
                self.wf(),
                self.nodes.ordered(),
                keys == self.nodes.keys(),
                n == keys.len(),
                k <= n,
                keep == ids@.dom(),
                out.wf(),
                out@.relationships == Map::<Seq<char>, RelationshipView>::empty(),
                forall|id: Seq<char>| #[trigger]
                    out@.nodes.dom().contains(id) <==> keep.contains(id) && keys.take(
                        k as int,
                    ).to_set().contains(id),
                forall|id: Seq<char>| #[trigger]
                    out@.nodes.dom().contains(id) ==> out@.nodes[id] == self@.nodes[id],
            decreases n - k,
        {
            let id = self.nodes.key_at(k);
            proof {
                StringMap::lemma_view_at(self.nodes, k as int);
                assert(self@.nodes.dom().contains(id@));
                lemma_take_more(keys, k as int);
            }
            if ids.contains_key(id.as_str()) {
                let node = self.nodes.value_at(k).clone();
                out.upsert_node(node);
            }
            k = k + 1;
        }
        proof {
            assert(keys.take(n as int) =~= keys);
            StringMap::lemma_view_len(self.nodes);
            assert(self.nodes@.dom() =~= self@.nodes.dom());
            assert(out@.nodes =~= induced(self@, keep).nodes);
        }
        let m: usize = self.relationships.len();
        let ghost rids = self.relationships.keys();
        let mut j: usize = 0;
        while j < m
            invariant
                self.wf(),
                self.relationships.ordered(),
                rids == self.relationships.keys(),
                m == rids.len(),
                j <= m,
                keep == ids@.dom(),
                out.wf(),
                out@.nodes == induced(self@, keep).nodes,
                forall|id: Seq<char>| #[trigger]
                    out@.relationships.dom().contains(id) <==> induced(
                        self@,
                        keep,
                    ).relationships.dom().contains(id) && rids.take(j as int).to_set().contains(id),
                forall|id: Seq<char>| #[trigger]
                    out@.relationships.dom().contains(id) ==> out@.relationships[id]
                        == self@.relationships[id],
            decreases m - j,
        {
            let rel = self.relationships.value_at(j);
            let ghost rid = rids[j as int];
            proof {
                StringMap::lemma_view_at(self.relationships, j as int);
                assert(self@.relationships.dom().contains(rid));
                lemma_take_more(rids, j as int);
                assert(!rids.take(j as int).contains(rid)) by {
                    if rids.take(j as int).contains(rid) {
                        let q = choose|q: int|
                            0 <= q < rids.take(j as int).len() && rids.take(j as int)[q] == rid;
                        lemma_strictly_sorted_distinct(rids, q, j as int);
                    }
                }
            }
            if ids.contains_key(rel.from.as_str()) && ids.contains_key(rel.to.as_str()) {
                let copy = rel.clone();
                out.insert_new(copy);
            }
            j = j + 1;
        }
        proof {
            assert(rids.take(m as int) =~= rids);
            StringMap::lemma_view_len(self.relationships);
            assert(self.relationships@.dom() =~= self@.relationships.dom());
            assert(out@.relationships =~= induced(self@, keep).relationships);
        }
        out
    }
}

/// The nodes of two graphs: where both have an id, the policy tells which node stays.
pub open spec fn merged_nodes(
    a: Map<Seq<char>, NodeView>,
    b: Map<Seq<char>, NodeView>,
    policy: MergePolicy,
) -> Map<Seq<char>, NodeView> {
    Map::new(
        |k: Seq<char>| a.dom().contains(k) || b.dom().contains(k),
        |k: Seq<char>|
            if a.dom().contains(k) && (policy == MergePolicy::Keep || !b.dom().contains(k)) {
                a[k]
            } else {
                b[k]
            },
    )
}

/// The `n`th name for a relationship whose id is taken.
pub open spec fn candidate_id(id: Seq<char>, n: nat) -> Seq<char> {
    id + "-"@ + decimal(n)
}

/// `n` is the least number from two on whose name for `id` is not to be avoided.
pub open spec fn is_rename_number(id: Seq<char>, avoid: Set<Seq<char>>, n: nat) -> bool {
    &&& n >= 2
    &&& !avoid.contains(candidate_id(id, n))
    &&& forall|m: nat| 2 <= m < n ==> avoid.contains(#[trigger] candidate_id(id, m))
}

/// The new name of a relationship whose id is taken.
pub open spec fn renamed_id(id: Seq<char>, avoid: Set<Seq<char>>) -> Seq<char> {
    candidate_id(id, choose|n: nat| is_rename_number(id, avoid, n))
}

/// The new names of the relationships `ids`, given out in order: each avoids `taken` and the
/// names given out before.
pub open spec fn renames(ids: Seq<Seq<char>>, taken: Set<Seq<char>>) -> Map<Seq<char>, Seq<char>>
    decreases ids.len(),
{
    if ids.len() == 0 {
        Map::empty()
    } else {
        let before = renames(ids.drop_last(), taken);
        before.insert(ids.last(), renamed_id(ids.last(), taken.union(before.values())))
    }
}

/// The ids that both graphs use for a relationship.
pub open spec fn collisions(
    a: Map<Seq<char>, RelationshipView>,
    b: Map<Seq<char>, RelationshipView>,
) -> Set<Seq<char>> {
    a.dom().intersect(b.dom())
}

/// The new names that a merge gives to incoming relationships: the ids that both graphs use get
/// one, in order of their ids, and every new name avoids every id of both graphs.
pub open spec fn merge_renames(
    a: Map<Seq<char>, RelationshipView>,
    b: Map<Seq<char>, RelationshipView>,
) -> Map<Seq<char>, Seq<char>> {
    renames(listing(collisions(a, b)), a.dom().union(b.dom()))
}

/// The id of an incoming relationship after a merge.
pub open spec fn merged_id(names: Map<Seq<char>, Seq<char>>, id: Seq<char>) -> Seq<char> {
    if names.dom().contains(id) {
        names[id]
    } else {
        id
    }
}

/// The relationship `rel` under another id.
pub open spec fn with_id(rel: RelationshipView, id: Seq<char>) -> RelationshipView {
    RelationshipView { id, ..rel }
}

/// `r` holds the relationships of `a` unchanged and those of `b` under their merged ids, and
/// nothing else.
pub open spec fn is_merged(
    r: Map<Seq<char>, RelationshipView>,
    a: Map<Seq<char>, RelationshipView>,
    b: Map<Seq<char>, RelationshipView>,
) -> bool {
    let names = merge_renames(a, b);
    &&& forall|id: Seq<char>| #[trigger]
        a.dom().contains(id) ==> r.dom().contains(id) && r[id] == a[id]
    &&& forall|id: Seq<char>| #[trigger]
        b.dom().contains(id) ==> r.dom().contains(merged_id(names, id)) && r[merged_id(names, id)]
            == with_id(b[id], merged_id(names, id))
    &&& forall|id: Seq<char>| #[trigger]
        r.dom().contains(id) ==> a.dom().contains(id) || exists|k: Seq<char>| #[trigger]
            b.dom().contains(k) && merged_id(names, k) == id
}

/// Different numbers make different names.
proof fn lemma_candidate_injective(id: Seq<char>, m: nat, n: nat)
    requires
        candidate_id(id, m) == candidate_id(id, n),
    ensures
        m == n,
{
    let p = id + "-"@;
    assert(candidate_id(id, m).skip(p.len() as int) =~= decimal(m));
    assert(candidate_id(id, n).skip(p.len() as int) =~= decimal(n));
    lemma_decimal_injective(m, n);
}

/// Where the names below `n` are all to be avoided, there are that many names to avoid.
proof fn lemma_candidates_bound(id: Seq<char>, avoid: Set<Seq<char>>, n: nat)
    requires
        avoid.finite(),
        n >= 2,
        forall|m: nat| 2 <= m < n ==> avoid.contains(#[trigger] candidate_id(id, m)),
    ensures
        n - 2 <= avoid.len(),
    decreases n,
{
    if n > 2 {
        let last = candidate_id(id, (n - 1) as nat);
        assert(avoid.contains(last));
        assert forall|m: nat| 2 <= m < n - 1 implies avoid.remove(last).contains(
            #[trigger] candidate_id(id, m),
        ) by {
            if candidate_id(id, m) == last {
                lemma_candidate_injective(id, m, (n - 1) as nat);
            }
        }
        lemma_candidates_bound(id, avoid.remove(last), (n - 1) as nat);
    }
}

/// What new names are: one for each id, different from each other, and none of them taken.
pub proof fn lemma_renames(ids: Seq<Seq<char>>, taken: Set<Seq<char>>)
    requires
        taken.finite(),
        strictly_sorted(ids),
    ensures
        renames(ids, taken).dom() == ids.to_set(),
        renames(ids, taken).dom().finite(),
        renames(ids, taken).values().finite(),
        forall|x: Seq<char>| #[trigger]
            renames(ids, taken).dom().contains(x) ==> !taken.contains(renames(ids, taken)[x]),
        forall|x: Seq<char>, y: Seq<char>| #[trigger]
            renames(ids, taken).dom().contains(x) && #[trigger] renames(
                ids,
                taken,
            ).dom().contains(y) && x != y ==> renames(ids, taken)[x] != renames(ids, taken)[y],
    decreases ids.len(),
{
    let r = renames(ids, taken);
    if ids.len() == 0 {
        assert(r.dom() =~= ids.to_set());
        assert(r.values() =~= Set::empty());
    } else {
        let shorter = ids.drop_last();
        let before = renames(shorter, taken);
        lemma_renames(shorter, taken);
        let avoid = taken.union(before.values());
        let last = ids.last();
        lemma_rename_exists(last, avoid);
        let name = renamed_id(last, avoid);
        assert(!avoid.contains(name));
        assert(ids.take(ids.len() - 1) =~= shorter);
        assert(ids.take(ids.len() as int) =~= ids);
        lemma_take_more(ids, ids.len() - 1);
        assert(r.dom() =~= ids.to_set());
        assert(!shorter.contains(last)) by {
            if shorter.contains(last) {
                let q = choose|q: int| 0 <= q < shorter.len() && shorter[q] == last;
                lemma_strictly_sorted_distinct(ids, q, ids.len() - 1);
            }
        }
        assert forall|x: Seq<char>| #[trigger] before.dom().contains(x) implies r[x] == before[x]
            && before.values().contains(before[x]) by {
            assert(shorter.to_set().contains(x));
        }
        assert(r.values() =~= before.values().insert(name)) by {
            assert forall|v: Seq<char>| #[trigger] r.values().contains(v) implies before.values().insert(
                name,
            ).contains(v) by {
                let x = choose|x: Seq<char>| r.dom().contains(x) && r[x] == v;
                if x != last {
                    assert(before.dom().contains(x));
                }
            }
            assert forall|v: Seq<char>| #[trigger] before.values().insert(name).contains(
                v,
            ) implies r.values().contains(v) by {
                if v == name {
                    assert(r.dom().contains(last) && r[last] == name);
                } else {
                    let x = choose|x: Seq<char>| before.dom().contains(x) && before[x] == v;
                    assert(r.dom().contains(x) && r[x] == v);
                }
            }
        }
    }
}

/// There is always a name that is not to be avoided.
pub proof fn lemma_rename_exists(id: Seq<char>, avoid: Set<Seq<char>>)
    requires
        avoid.finite(),
    ensures
        exists|n: nat| is_rename_number(id, avoid, n),
{
    if !exists|n: nat| is_rename_number(id, avoid, n) {
        lemma_all_avoided(id, avoid, avoid.len() + 3);
        lemma_candidates_bound(id, avoid, avoid.len() + 3);
    }
}

/// Where no number is the least free one, every name is to be avoided.
proof fn lemma_all_avoided(id: Seq<char>, avoid: Set<Seq<char>>, n: nat)
    requires
        !exists|m: nat| is_rename_number(id, avoid, m),
    ensures
        forall|m: nat| 2 <= m < n ==> avoid.contains(#[trigger] candidate_id(id, m)),
    decreases n,
{
    if n > 2 {
        lemma_all_avoided(id, avoid, (n - 1) as nat);
        assert(!is_rename_number(id, avoid, (n - 1) as nat));
    }
}

/// The new name of the relationship `id`, as a string.
fn rename(id: &str, avoid: &StringMap<()>) -> (r: String)
    ensures
        r@ == renamed_id(id@, avoid@.dom()),
        !avoid@.dom().contains(r@),
{
    proof {
        use_type_invariant(avoid);
        StringMap::lemma_view_len(*avoid);
    }
    let total: usize = avoid.len();
    let mut n: u128 = 2;
    loop
        invariant
            2 <= n,
            total == avoid@.dom().len(),
            avoid@.dom().finite(),
            forall|m: nat| 2 <= m < n ==> avoid@.dom().contains(#[trigger] candidate_id(id@, m)),
        decreases total + 3 - n,
    {
        proof {
            lemma_candidates_bound(id@, avoid@.dom(), n as nat);
        }
        let name = id.to_owned().concat("-").concat(decimal_text(n).as_str());
        if !avoid.contains_key(name.as_str()) {
            proof {
                let set = avoid@.dom();
                assert(is_rename_number(id@, set, n as nat));
                let c = choose|c: nat| is_rename_number(id@, set, c);
                assert(is_rename_number(id@, set, c));
                if c < n {
                    assert(set.contains(candidate_id(id@, c)));
                } else if n < c {
                    assert(set.contains(candidate_id(id@, n as nat)));
                }
            }
            return name;
        }
        n = n + 1;
    }
}

/// What a merge reports: how many incoming nodes were new, replaced one, or were dropped, and
/// how many incoming relationships kept their id or got another.
pub open spec fn merge_report(a: GraphView, b: GraphView, policy: MergePolicy) -> MergeReport {
    let shared = b.nodes.dom().intersect(a.nodes.dom()).len() as usize;
    MergeReport {
        nodes_added: b.nodes.dom().difference(a.nodes.dom()).len() as usize,
        nodes_overwritten: if policy == MergePolicy::Overwrite {
            shared
        } else {
            0
        },
        nodes_kept: if policy == MergePolicy::Keep {
            shared
        } else {
            0
        },
        relationships_added: b.relationships.dom().difference(
            a.relationships.dom(),
        ).len() as usize,
        relationships_renamed: b.relationships.dom().intersect(
            a.relationships.dom(),
        ).len() as usize,
    }
}

/// Counting the keys of `keys.take(i)` inside and outside of `a`, one key further.
proof fn lemma_count_more(keys: Seq<Seq<char>>, i: int, a: Set<Seq<char>>)
    requires
        strictly_sorted(keys),
        0 <= i < keys.len(),
    ensures
        keys.take(i).to_set().finite(),
        keys.take(i).to_set().intersect(a).finite(),
        keys.take(i).to_set().difference(a).finite(),
        !keys.take(i).contains(keys[i]),
        a.contains(keys[i]) ==> {
            &&& keys.take(i + 1).to_set().intersect(a).len() == keys.take(i).to_set().intersect(
                a,
            ).len() + 1
            &&& keys.take(i + 1).to_set().difference(a) == keys.take(i).to_set().difference(a)
        },
        !a.contains(keys[i]) ==> {
            &&& keys.take(i + 1).to_set().difference(a).len() == keys.take(i).to_set().difference(
                a,
            ).len() + 1
            &&& keys.take(i + 1).to_set().intersect(a) == keys.take(i).to_set().intersect(a)
        },
{
    lemma_take_more(keys, i);
    let done = keys.take(i).to_set();
    let more = keys.take(i + 1).to_set();
    vstd::seq_lib::seq_to_set_is_finite(keys.take(i));
    assert(!keys.take(i).contains(keys[i])) by {
        if keys.take(i).contains(keys[i]) {
            let q = choose|q: int| 0 <= q < keys.take(i).len() && keys.take(i)[q] == keys[i];
            lemma_strictly_sorted_distinct(keys, q, i);
        }
    }
    if a.contains(keys[i]) {
        assert(more.intersect(a) =~= done.intersect(a).insert(keys[i]));
        assert(more.difference(a) =~= done.difference(a));
    } else {
        assert(more.difference(a) =~= done.difference(a).insert(keys[i]));
        assert(more.intersect(a) =~= done.intersect(a));
    }
}

/// What was counted of `keys.take(i)` is at most what was taken.
proof fn lemma_count_bound(keys: Seq<Seq<char>>, i: int, a: Set<Seq<char>>)
    requires
        0 <= i <= keys.len(),
    ensures
        keys.take(i).to_set().intersect(a).len() <= i,
        keys.take(i).to_set().difference(a).len() <= i,
{
    keys.take(i).lemma_cardinality_of_set();
    vstd::seq_lib::seq_to_set_is_finite(keys.take(i));
    vstd::set_lib::lemma_len_subset(
        keys.take(i).to_set().intersect(a),
        keys.take(i).to_set(),
    );
    vstd::set_lib::lemma_len_subset(
        keys.take(i).to_set().difference(a),
        keys.take(i).to_set(),
    );
}

/// The merged ids of incoming relationships are new and different from each other.
pub proof fn lemma_merged_ids(
    a: Map<Seq<char>, RelationshipView>,
    b: Map<Seq<char>, RelationshipView>,
    x: Seq<char>,
    y: Seq<char>,
)
    requires
        a.dom().finite(),
        b.dom().finite(),
        is_listing(listing(collisions(a, b)), collisions(a, b)),
        b.dom().contains(x),
    ensures
        !a.dom().contains(merged_id(merge_renames(a, b), x)),
        b.dom().contains(y) && x != y ==> merged_id(merge_renames(a, b), x) != merged_id(
            merge_renames(a, b),
            y,
        ),
{
    let ids = listing(collisions(a, b));
    let taken = a.dom().union(b.dom());
    let names = merge_renames(a, b);
    lemma_renames(ids, taken);
    assert(ids.to_set().contains(x) <==> ids.contains(x));
    assert(ids.to_set().contains(y) <==> ids.contains(y));
    assert(names.dom().contains(x) <==> collisions(a, b).contains(x));
    assert(names.dom().contains(y) <==> collisions(a, b).contains(y));
    if names.dom().contains(x) {
        assert(!taken.contains(names[x]));
    }
    if names.dom().contains(y) {
        assert(!taken.contains(names[y]));
    }
}

impl MemoryGraph {
    /// The new names that the relationships of `other` get when they are merged into this
    /// graph.
    fn rename_collisions(&self, other: &MemoryGraph) -> (r: StringMap<String>)
        requires
            self.wf(),
            other.wf(),
        ensures
            r@.dom() == merge_renames(self@.relationships, other@.relationships).dom(),
            forall|id: Seq<char>| #[trigger]
                r@.dom().contains(id) ==> r@[id]@ == merge_renames(
                    self@.relationships,
                    other@.relationships,
                )[id],
            is_listing(
                listing(collisions(self@.relationships, other@.relationships)),
                collisions(self@.relationships, other@.relationships),
            ),
    {
        proof {
            use_type_invariant(&self.relationships);
            use_type_invariant(&other.relationships);
            StringMap::lemma_view_len(self.relationships);
            StringMap::lemma_view_len(other.relationships);
            assert(self.relationships@.dom() =~= self@.relationships.dom());
            assert(other.relationships@.dom() =~= other@.relationships.dom());
        }
        let ghost a = self@.relationships;
        let ghost b = other@.relationships;
        let ghost mine = self.relationships.keys();
        let ghost keys = other.relationships.keys();
        let ghost taken = a.dom().union(b.dom());
        let n: usize = self.relationships.len();
        let m: usize = other.relationships.len();
        let mut avoid: StringMap<()> = StringMap::new();
        let mut i: usize = 0;
        while i < n
            invariant
                mine == self.relationships.keys(),
                n == mine.len(),
                i <= n,
                avoid@.dom() =~= mine.take(i as int).to_set(),
            decreases n - i,
        {
            proof {
                lemma_take_more(mine, i as int);
            }
            avoid.insert(self.relationships.key_at(i).clone(), ());
            i = i + 1;
        }
        assert(mine.take(n as int) =~= mine);
        let mut j: usize = 0;
        while j < m
            invariant
                keys == other.relationships.keys(),
                m == keys.len(),
                j <= m,
                a.dom() == mine.to_set(),
                avoid@.dom() =~= a.dom().union(keys.take(j as int).to_set()),
            decreases m - j,
        {
            proof {
                lemma_take_more(keys, j as int);
            }
            avoid.insert(other.relationships.key_at(j).clone(), ());
            j = j + 1;
        }
        assert(keys.take(m as int) =~= keys);
        let mut names: StringMap<String> = StringMap::new();
        let ghost mut done: Seq<Seq<char>> = Seq::empty();
        let mut k: usize = 0;
        proof {
            assert(renames(done, taken).values() =~= Set::empty());
            assert(avoid@.dom() =~= taken.union(renames(done, taken).values()));
        }
        while k < m
            invariant
                self.wf(),
                a == self@.relationships,
                a.dom() == self.relationships@.dom(),
                keys == other.relationships.keys(),
                strictly_sorted(keys),
                m == keys.len(),
                k <= m,
                taken.finite(),
                strictly_sorted(done),
                forall|x: Seq<char>| #[trigger]
                    done.contains(x) <==> a.dom().contains(x) && keys.take(k as int).contains(x),
                names@.dom() == renames(done, taken).dom(),
                forall|x: Seq<char>| #[trigger]
                    names@.dom().contains(x) ==> names@[x]@ == renames(done, taken)[x],
                avoid@.dom() == taken.union(renames(done, taken).values()),
            decreases m - k,
        {
            let id = other.relationships.key_at(k);
            proof {
                lemma_take_more(keys, k as int);
                assert forall|x: Seq<char>| #[trigger] keys.take(k + 1).contains(x) <==> keys.take(
                    k as int,
                ).contains(x) || x == id@ by {
                    assert(keys.take(k + 1).to_set().contains(x) <==> keys.take(
                        k as int,
                    ).to_set().insert(id@).contains(x));
                }
            }
            if self.relationships.contains_key(id.as_str()) {
                let name = rename(id.as_str(), &avoid);
                let ghost before = renames(done, taken);
                let ghost avoided = avoid@.dom();
                avoid.insert(name.clone(), ());
                names.insert(id.clone(), name);
                proof {
                    let next = done.push(id@);
                    assert(next.drop_last() =~= done);
                    let after = renames(next, taken);
                    assert(after == before.insert(id@, name@));
                    assert forall|q: int| 0 <= q < done.len() implies text_less(
                        #[trigger] done[q],
                        id@,
                    ) by {
                        assert(done.contains(done[q]));
                        let short = keys.take(k as int);
                        let p = choose|p: int| 0 <= p < short.len() && short[p] == done[q];
                        assert(text_less(keys[p], keys[k as int]));
                    }
                    assert forall|p: int, q: int| 0 <= p < q < next.len() implies text_less(
                        #[trigger] next[p],
                        #[trigger] next[q],
                    ) by {
                        if q < done.len() {
                            assert(text_less(done[p], done[q]));
                        } else {
                            assert(text_less(done[p], id@));
                        }
                    }
                    lemma_renames(done, taken);
                    assert(!before.dom().contains(id@)) by {
                        if before.dom().contains(id@) {
                            assert(done.to_set().contains(id@));
                            assert(done.contains(id@));
                            let short = keys.take(k as int);
                            let p = choose|p: int| 0 <= p < short.len() && short[p] == id@;
                            lemma_strictly_sorted_distinct(keys, p, k as int);
                        }
                    }
                    assert(after.values() =~= before.values().insert(name@)) by {
                        assert forall|v: Seq<char>| #[trigger] after.values().contains(
                            v,
                        ) implies before.values().insert(name@).contains(v) by {
                            let x = choose|x: Seq<char>| after.dom().contains(x) && after[x] == v;
                            if x != id@ {
                                assert(before.dom().contains(x) && before[x] == v);
                            }
                        }
                        assert forall|v: Seq<char>| #[trigger] before.values().insert(
                            name@,
                        ).contains(v) implies after.values().contains(v) by {
                            if v == name@ {
                                assert(after.dom().contains(id@) && after[id@] == v);
                            } else {
                                let x = choose|x: Seq<char>|
                                    before.dom().contains(x) && before[x] == v;
                                assert(after.dom().contains(x) && after[x] == v);
                            }
                        }
                    }
                    assert(avoid@.dom() =~= taken.union(after.values()));
                    assert forall|x: Seq<char>| #[trigger] next.contains(x) <==> a.dom().contains(x)
                        && keys.take(k + 1).contains(x) by {
                        if next.contains(x) {
                            let q = choose|q: int| 0 <= q < next.len() && next[q] == x;
                            if q < done.len() {
                                assert(done.contains(done[q]));
                            }
                        }
                        if done.contains(x) {
                            let q = choose|q: int| 0 <= q < done.len() && done[q] == x;
                            assert(next[q] == x);
                        }
                        assert(next[done.len() as int] == id@);
                    }
                    done = next;
                }
            }
            k = k + 1;
        }
        proof {
            assert forall|x: Seq<char>| #[trigger] done.contains(x) <==> collisions(a, b).contains(
                x,
            ) by {
                assert(keys.to_set().contains(x) <==> b.dom().contains(x));
                assert(keys.contains(x) <==> b.dom().contains(x));
            }
            assert(is_listing(done, collisions(a, b)));
            lemma_listing(done, collisions(a, b));
        }
        names
    }

    /// Merges `other` into the graph. A node id that both graphs have goes by `policy`. No
    /// relationship is lost: an incoming relationship whose id is taken gets the first of the
    /// ids `{id}-2`, `{id}-3`, … that neither graph uses.
    pub fn merge(&mut self, other: MemoryGraph, policy: MergePolicy) -> (report: MergeReport)
        requires
            old(self).wf(),
            other.wf(),
        ensures
            final(self).wf(),
            final(self)@.nodes == merged_nodes(old(self)@.nodes, other@.nodes, policy),
            is_merged(
                final(self)@.relationships,
                old(self)@.relationships,
                other@.relationships,
            ),
            report == merge_report(old(self)@, other@, policy),
    {
        let names = self.rename_collisions(&other);
        let ghost a = self@;
        let ghost b = other@;
        let ghost renamed = merge_renames(a.relationships, b.relationships);
        let ghost node_keys = other.nodes.keys();
        let ghost rel_keys = other.relationships.keys();
        proof {
            use_type_invariant(&other.nodes);
            use_type_invariant(&other.relationships);
            StringMap::lemma_view_len(other.nodes);
            StringMap::lemma_view_len(other.relationships);
            assert(other.nodes@.dom() =~= b.nodes.dom());
            assert(other.relationships@.dom() =~= b.relationships.dom());
        }
        let mut added: usize = 0;
        let mut kept: usize = 0;
        let mut overwritten: usize = 0;
        let ghost other_nodes = other.nodes;
        let ghost other_rels = other.relationships;
        let nodes = other.nodes.into_entries();
        let relationships = other.relationships.into_entries();
        let node_total: usize = nodes.len();
        let rel_total: usize = relationships.len();
        assert(node_keys.take(0).to_set().difference(a.nodes.dom()) =~= Set::empty());
        assert(node_keys.take(0).to_set().intersect(a.nodes.dom()) =~= Set::empty());
        for entry in it: nodes
            invariant
                it.seq() == nodes@,
                nodes@.len() == node_keys.len(),
                node_total == node_keys.len(),
                strictly_sorted(node_keys),
                other_nodes.ordered(),
                other_nodes.keys() == node_keys,
                b.nodes == node_map(other_nodes@),
                consistent(b),
                forall|k: int|
                    0 <= k < nodes@.len() ==> (#[trigger] nodes@[k]).0@ == node_keys[k]
                        && nodes@[k].1 == other_nodes.values()[k],
                self.wf(),
                self@.relationships == a.relationships,
                forall|id: Seq<char>| #[trigger]
                    self@.nodes.dom().contains(id) <==> a.nodes.dom().contains(id)
                        || node_keys.take(it.index() as int).contains(id),
                forall|id: Seq<char>| #[trigger]
                    self@.nodes.dom().contains(id) ==> self@.nodes[id] == (if a.nodes.dom().contains(
                        id,
                    ) && (policy == MergePolicy::Keep || !node_keys.take(
                        it.index() as int,
                    ).contains(id)) {
                        a.nodes[id]
                    } else {
                        b.nodes[id]
                    }),
                added == node_keys.take(it.index() as int).to_set().difference(a.nodes.dom()).len(),
                kept + overwritten == node_keys.take(it.index() as int).to_set().intersect(
                    a.nodes.dom(),
                ).len(),
                policy == MergePolicy::Keep ==> overwritten == 0,
                policy == MergePolicy::Overwrite ==> kept == 0,
        {
            let ghost i = it.index() as int;
            proof {
                StringMap::lemma_view_at(other_nodes, i);
                assert(b.nodes.dom().contains(node_keys[i]));
                lemma_count_more(node_keys, i, a.nodes.dom());
                lemma_count_bound(node_keys, i + 1, a.nodes.dom());
                lemma_count_bound(node_keys, i, a.nodes.dom());
                assert forall|x: Seq<char>| #[trigger] node_keys.take(i + 1).contains(x)
                    <==> node_keys.take(i).contains(x) || x == node_keys[i] by {
                    lemma_take_more(node_keys, i);
                    assert(node_keys.take(i + 1).to_set().contains(x) <==> node_keys.take(
                        i,
                    ).to_set().insert(node_keys[i]).contains(x));
                }
            }
            let (id, node) = entry;
            assert(id@ == node_keys[i]);
            assert(self@.nodes.dom().contains(id@) <==> a.nodes.dom().contains(id@));
            if self.nodes.contains_key(id.as_str()) {
                match policy {
                    MergePolicy::Keep => {
                        kept = kept + 1;
                    },
                    MergePolicy::Overwrite => {
                        self.upsert_node(node);
                        overwritten = overwritten + 1;
                    },
                }
            } else {
                self.upsert_node(node);
                added = added + 1;
            }
        }
        proof {
            assert(node_keys.take(node_keys.len() as int) =~= node_keys);
            assert forall|x: Seq<char>| #[trigger] node_keys.contains(x) <==> b.nodes.dom().contains(
                x,
            ) by {
                assert(node_keys.to_set().contains(x) <==> b.nodes.dom().contains(x));
            }
            assert(self@.nodes =~= merged_nodes(a.nodes, b.nodes, policy));
            assert(node_keys.to_set() =~= b.nodes.dom());
        }
        let ghost merged = self@.nodes;
        let mut fresh: usize = 0;
        let mut moved: usize = 0;
        assert(rel_keys.take(0).to_set().difference(a.relationships.dom()) =~= Set::empty());
        assert(rel_keys.take(0).to_set().intersect(a.relationships.dom()) =~= Set::empty());
        for entry in it: relationships
            invariant
                it.seq() == relationships@,
                relationships@.len() == rel_keys.len(),
                rel_total == rel_keys.len(),
                strictly_sorted(rel_keys),
                other_rels.ordered(),
                other_rels.keys() == rel_keys,
                b.relationships == relationship_map(other_rels@),
                b.relationships.dom() == rel_keys.to_set(),
                consistent(b),
                consistent(a),
                renamed == merge_renames(a.relationships, b.relationships),
                names@.dom() == renamed.dom(),
                forall|id: Seq<char>| #[trigger]
                    names@.dom().contains(id) ==> names@[id]@ == renamed[id],
                is_listing(
                    listing(collisions(a.relationships, b.relationships)),
                    collisions(a.relationships, b.relationships),
                ),
                forall|k: int|
                    0 <= k < relationships@.len() ==> (#[trigger] relationships@[k]).0@
                        == rel_keys[k] && relationships@[k].1 == other_rels.values()[k],
                self.wf(),
                self@.nodes == merged,
                merged == merged_nodes(a.nodes, b.nodes, policy),
                forall|id: Seq<char>| #[trigger]
                    a.relationships.dom().contains(id) ==> self@.relationships.dom().contains(id)
                        && self@.relationships[id] == a.relationships[id],
                forall|k: int|
                    0 <= k < it.index() ==> self@.relationships.dom().contains(
                        merged_id(renamed, #[trigger] rel_keys[k]),
                    ) && self@.relationships[merged_id(renamed, rel_keys[k])] == with_id(
                        b.relationships[rel_keys[k]],
                        merged_id(renamed, rel_keys[k]),
                    ),
                forall|id: Seq<char>| #[trigger]
                    self@.relationships.dom().contains(id) ==> a.relationships.dom().contains(id)
                        || exists|k: int|
                        0 <= k < it.index() && merged_id(renamed, #[trigger] rel_keys[k]) == id,
                fresh == rel_keys.take(it.index() as int).to_set().difference(
                    a.relationships.dom(),
                ).len(),
                moved == rel_keys.take(it.index() as int).to_set().intersect(
                    a.relationships.dom(),
                ).len(),
        {
            let ghost i = it.index() as int;
            let ghost key = rel_keys[i];
            proof {
                StringMap::lemma_view_at(other_rels, i);
                assert(b.relationships.dom().contains(key));
                lemma_count_more(rel_keys, i, a.relationships.dom());
                lemma_count_bound(rel_keys, i + 1, a.relationships.dom());
                lemma_renames(
                    listing(collisions(a.relationships, b.relationships)),
                    a.relationships.dom().union(b.relationships.dom()),
                );
                let ids = listing(collisions(a.relationships, b.relationships));
                assert(ids.to_set().contains(key) <==> ids.contains(key));
                assert(names@.dom().contains(key) <==> a.relationships.dom().contains(key));
                lemma_merged_ids(a.relationships, b.relationships, key, key);
                assert forall|k: int| 0 <= k < i implies merged_id(renamed, #[trigger] rel_keys[k])
                    != merged_id(renamed, key) by {
                    if rel_keys[k] == key {
                        lemma_strictly_sorted_distinct(rel_keys, k, i);
                    }
                    assert(rel_keys.to_set().contains(rel_keys[k])) by {
                        assert(rel_keys.contains(rel_keys[k]));
                    }
                    lemma_merged_ids(a.relationships, b.relationships, key, rel_keys[k]);
                }
            }
            let (id, incoming) = entry;
            let mut rel = incoming;
            if let Some(name) = names.get(id.as_str()) {
                rel.id = name.clone();
                moved = moved + 1;
            } else {
                fresh = fresh + 1;
            }
            let ghost before = self@.relationships;
            proof {
                assert(rel@ == with_id(b.relationships[key], merged_id(renamed, key)));
                assert(!before.dom().contains(rel.id@));
            }
            self.insert_new(rel);
        }
        proof {
            assert(rel_keys.take(rel_keys.len() as int) =~= rel_keys);
            assert(rel_keys.to_set() =~= b.relationships.dom());
            assert forall|id: Seq<char>| #[trigger] b.relationships.dom().contains(
                id,
            ) implies self@.relationships.dom().contains(merged_id(renamed, id))
                && self@.relationships[merged_id(renamed, id)] == with_id(
                b.relationships[id],
                merged_id(renamed, id),
            ) by {
                assert(rel_keys.contains(id));
                let k = choose|k: int| 0 <= k < rel_keys.len() && rel_keys[k] == id;
                assert(rel_keys[k] == id);
            }
            assert forall|id: Seq<char>| #[trigger] self@.relationships.dom().contains(
                id,
            ) implies a.relationships.dom().contains(id) || exists|k: Seq<char>| #[trigger]
                b.relationships.dom().contains(k) && merged_id(renamed, k) == id by {
                if !a.relationships.dom().contains(id) {
                    let k = choose|k: int|
                        0 <= k < rel_keys.len() && merged_id(renamed, #[trigger] rel_keys[k]) == id;
                    assert(rel_keys.contains(rel_keys[k]));
                    assert(rel_keys.to_set().contains(rel_keys[k]));
                    assert(b.relationships.dom().contains(rel_keys[k]));
                }
            }
        }
        MergeReport {
            nodes_added: added,
            nodes_overwritten: overwritten,
            nodes_kept: kept,
            relationships_added: fresh,
            relationships_renamed: moved,
        }
    }
}

/// Texts with `, ` between them.
pub open spec fn comma_joined(v: Seq<Seq<char>>) -> Seq<char>
    decreases v.len(),
{
    if v.len() == 0 {
        Seq::empty()
    } else if v.len() == 1 {
        v[0]
    } else {
        comma_joined(v.drop_last()) + ", "@ + v.last()
    }
}

/// The properties in a rendered line; nothing where there are none.
pub open spec fn props_part(properties: Seq<(Seq<char>, JsonView)>) -> Seq<char> {
    if properties.len() == 0 {
        Seq::empty()
    } else {
        " props="@ + json_text(JsonView::Object(properties))
    }
}

/// The labels in a rendered line; nothing where there are none.
pub open spec fn labels_part(labels: Seq<Seq<char>>) -> Seq<char> {
    if labels.len() == 0 {
        Seq::empty()
    } else {
        " labels=["@ + comma_joined(labels) + "]"@
    }
}

/// The line of a node.
pub open spec fn node_line(node: NodeView) -> Seq<char> {
    "node "@ + node.id + ":"@ + labels_part(node.labels) + props_part(node.properties) + "\n"@
}

/// The line of a relationship.
pub open spec fn relationship_line(rel: RelationshipView) -> Seq<char> {
    "rel "@ + rel.id + ": "@ + rel.from + " -["@ + rel.kind + "]-> "@ + rel.to + " weight="@
        + rel.weight.text + props_part(rel.properties) + "\n"@
}

/// The lines of the nodes `ids`.
pub open spec fn node_lines(m: Map<Seq<char>, NodeView>, ids: Seq<Seq<char>>) -> Seq<char>
    decreases ids.len(),
{
    if ids.len() == 0 {
        Seq::empty()
    } else {
        node_lines(m, ids.drop_last()) + node_line(m[ids.last()])
    }
}

/// The lines of the relationships `ids`.
pub open spec fn relationship_lines(
    m: Map<Seq<char>, RelationshipView>,
    ids: Seq<Seq<char>>,
) -> Seq<char>
    decreases ids.len(),
{
    if ids.len() == 0 {
        Seq::empty()
    } else {
        relationship_lines(m, ids.drop_last()) + relationship_line(m[ids.last()])
    }
}

/// The line that tells how many were left out; nothing where none was.
pub open spec fn omission_line(total: nat, max: nat, what: Seq<char>) -> Seq<char> {
    if total > max {
        "... "@ + decimal((total - max) as nat) + " more "@ + what + " omitted\n"@
    } else {
        Seq::empty()
    }
}

/// At most the first `max` of `ids`.
pub open spec fn first_ids(ids: Seq<Seq<char>>, max: nat) -> Seq<Seq<char>> {
    if ids.len() <= max {
        ids
    } else {
        ids.take(max as int)
    }
}

/// The listing of a graph: a line with the sizes, the first nodes and relationships in order of
/// their ids, and after each how many were left out.
pub open spec fn render_text(g: GraphView, max_nodes: nat, max_relationships: nat) -> Seq<char> {
    let node_count = g.nodes.dom().len();
    let relationship_count = g.relationships.dom().len();
    GRAPH_RENDER_MARKER@ + " "@ + decimal(node_count) + " nodes, "@ + decimal(relationship_count)
        + " relationships\n"@ + node_lines(g.nodes, first_ids(listing(g.nodes.dom()), max_nodes))
        + omission_line(node_count, max_nodes, "nodes"@) + relationship_lines(
        g.relationships,
        first_ids(listing(g.relationships.dom()), max_relationships),
    ) + omission_line(relationship_count, max_relationships, "relationships"@)
}

/// Texts with `, ` between them.
fn join_texts(v: &Vec<String>) -> (r: String)
    ensures
        r@ == comma_joined(texts(v@)),
{
    let ghost all = texts(v@);
    if v.len() == 0 {
        return String::new();
    }
    let mut r = v[0].clone();
    let mut i: usize = 1;
    proof {
        assert(all.take(1) =~= seq![all[0]]);
    }
    while i < v.len()
        invariant
            all == texts(v@),
            1 <= i <= v@.len(),
            r@ == comma_joined(all.take(i as int)),
        decreases v@.len() - i,
    {
        r = r.concat(", ").concat(v[i].as_str());
        proof {
            assert(all.take(i + 1).drop_last() =~= all.take(i as int));
        }
        i = i + 1;
    }
    assert(all.take(i as int) =~= all);
    r
}

/// The properties in a rendered line.
fn props_text(properties: &StringMap<Json>) -> (r: String)
    ensures
        r@ == props_part(object_view(*properties)),
{
    proof {
        use_type_invariant(properties);
    }
    if properties.is_empty() {
        String::new()
    } else {
        " props=".to_owned().concat(object_text(properties).as_str())
    }
}

/// The line of a node.
fn node_text(node: &GraphNode) -> (r: String)
    ensures
        r@ == node_line(node@),
{
    let labels = if node.labels.len() == 0 {
        String::new()
    } else {
        " labels=[".to_owned().concat(join_texts(&node.labels).as_str()).concat("]")
    };
    assert(labels@ == labels_part(node@.labels));
    "node ".to_owned().concat(node.id.as_str()).concat(":").concat(labels.as_str()).concat(
        props_text(&node.properties).as_str(),
    ).concat("\n")
}

/// The line of a relationship.
fn relationship_text(rel: &GraphRelationship) -> (r: String)
    ensures
        r@ == relationship_line(rel@),
{
    "rel ".to_owned().concat(rel.id.as_str()).concat(": ").concat(rel.from.as_str()).concat(
        " -[",
    ).concat(rel.kind.as_str()).concat("]-> ").concat(rel.to.as_str()).concat(" weight=").concat(
        rel.weight.text.as_str(),
    ).concat(props_text(&rel.properties).as_str()).concat("\n")
}

/// The line that tells how many were left out.
fn omission_text(total: usize, max: usize, what: &str) -> (r: String)
    ensures
        r@ == omission_line(total as nat, max as nat, what@),
{
    if total > max {
        let left: usize = total - max;
        "... ".to_owned().concat(decimal_text(left as u128).as_str()).concat(" more ").concat(
            what,
        ).concat(" omitted\n")
    } else {
        String::new()
    }
}

impl MemoryGraph {
    /// A listing of the graph for a model to read, the same for the same graph.
    pub fn render(&self, max_nodes: usize, max_relationships: usize) -> (r: String)
        requires
            self.wf(),
        ensures
            r@ == render_text(self@, max_nodes as nat, max_relationships as nat),
    {
        proof {
            use_type_invariant(&self.nodes);
            use_type_invariant(&self.relationships);
            StringMap::lemma_view_len(self.nodes);
            StringMap::lemma_view_len(self.relationships);
            assert(self.nodes@.dom() =~= self@.nodes.dom());
            assert(self.relationships@.dom() =~= self@.relationships.dom());
            assert(is_listing(self.nodes.keys(), self@.nodes.dom()));
            assert(is_listing(self.relationships.keys(), self@.relationships.dom()));
            lemma_listing(self.nodes.keys(), self@.nodes.dom());
            lemma_listing(self.relationships.keys(), self@.relationships.dom());
        }
        let node_count: usize = self.nodes.len();
        let relationship_count: usize = self.relationships.len();
        let mut out = GRAPH_RENDER_MARKER.to_owned().concat(" ").concat(
            decimal_text(node_count as u128).as_str(),
        ).concat(" nodes, ").concat(decimal_text(relationship_count as u128).as_str()).concat(
            " relationships\n",
        );
        let ghost head = out@;
        let ghost keys = self.nodes.keys();
        let shown: usize = if max_nodes < node_count { max_nodes } else { node_count };
        let mut i: usize = 0;
        assert(out@ =~= head + node_lines(self@.nodes, keys.take(0)));
        while i < shown
            invariant
                self.wf(),
                self.nodes.ordered(),
                keys == self.nodes.keys(),
                i <= shown <= keys.len(),
                out@ == head + node_lines(self@.nodes, keys.take(i as int)),
            decreases shown - i,
        {
            let node = self.nodes.value_at(i);
            proof {
                StringMap::lemma_view_at(self.nodes, i as int);
                assert(self@.nodes[keys[i as int]] == node@);
                assert(keys.take(i + 1).drop_last() =~= keys.take(i as int));
            }
            let ghost before = out@;
            out.append(node_text(node).as_str());
            assert(out@ =~= head + node_lines(self@.nodes, keys.take(i + 1)));
            i = i + 1;
        }
        assert(keys.take(shown as int) =~= first_ids(keys, max_nodes as nat));
        out.append(omission_text(node_count, max_nodes, "nodes").as_str());
        let ghost upper = out@;
        let ghost rids = self.relationships.keys();
        let listed: usize = if max_relationships < relationship_count {
            max_relationships
        } else {
            relationship_count
        };
        let mut j: usize = 0;
        assert(out@ =~= upper + relationship_lines(self@.relationships, rids.take(0)));
        while j < listed
            invariant
                self.wf(),
                self.relationships.ordered(),
                rids == self.relationships.keys(),
                j <= listed <= rids.len(),
                out@ == upper + relationship_lines(self@.relationships, rids.take(j as int)),
            decreases listed - j,
        {
            let rel = self.relationships.value_at(j);
            proof {
                StringMap::lemma_view_at(self.relationships, j as int);
                assert(self@.relationships[rids[j as int]] == rel@);
                assert(rids.take(j + 1).drop_last() =~= rids.take(j as int));
            }
            out.append(relationship_text(rel).as_str());
            assert(out@ =~= upper + relationship_lines(self@.relationships, rids.take(j + 1)));
            j = j + 1;
        }
        assert(rids.take(listed as int) =~= first_ids(rids, max_relationships as nat));
        out.append(
            omission_text(relationship_count, max_relationships, "relationships").as_str(),
        );
        out
    }

    /// The nodes, in order of their ids.
    pub fn nodes(&self) -> (r: Vec<&GraphNode>)
        requires
            self.wf(),
        ensures
            is_listing(Seq::new(r@.len(), |i: int| r@[i].id@), self@.nodes.dom()),
            forall|i: int| 0 <= i < r@.len() ==> (#[trigger] r@[i])@ == self@.nodes[r@[i].id@],
    {
        proof {
            use_type_invariant(&self.nodes);
        }
        let mut r: Vec<&GraphNode> = Vec::new();
        let n: usize = self.nodes.len();
        let mut i: usize = 0;
        while i < n
            invariant
                self.wf(),
                self.nodes.ordered(),
                n == self.nodes.keys().len(),
                i <= n,
                r@.len() == i,
                forall|k: int|
                    0 <= k < i ==> (#[trigger] r@[k])@ == self@.nodes[self.nodes.keys()[k]]
                        && r@[k].id@ == self.nodes.keys()[k],
            decreases n - i,
        {
            proof {
                StringMap::lemma_view_at(self.nodes, i as int);
                assert(self@.nodes.dom().contains(self.nodes.keys()[i as int]));
            }
            r.push(self.nodes.value_at(i));
            i = i + 1;
        }
        proof {
            assert(Seq::new(r@.len(), |i: int| r@[i].id@) =~= self.nodes.keys());
            assert(forall|x: Seq<char>| #[trigger]
                self.nodes.keys().contains(x) <==> self@.nodes.dom().contains(x));
        }
        r
    }

    /// The relationships, in order of their ids.
    pub fn relationships(&self) -> (r: Vec<&GraphRelationship>)
        requires
            self.wf(),
        ensures
            is_listing(Seq::new(r@.len(), |i: int| r@[i].id@), self@.relationships.dom()),
            forall|i: int|
                0 <= i < r@.len() ==> (#[trigger] r@[i])@ == self@.relationships[r@[i].id@],
    {
        proof {
            use_type_invariant(&self.relationships);
        }
        let mut r: Vec<&GraphRelationship> = Vec::new();
        let n: usize = self.relationships.len();
        let mut i: usize = 0;
        while i < n
            invariant
                self.wf(),
                self.relationships.ordered(),
                n == self.relationships.keys().len(),
                i <= n,
                r@.len() == i,
                forall|k: int|
                    0 <= k < i ==> (#[trigger] r@[k])@
                        == self@.relationships[self.relationships.keys()[k]] && r@[k].id@
                        == self.relationships.keys()[k],
            decreases n - i,
        {
            proof {
                StringMap::lemma_view_at(self.relationships, i as int);
                assert(self@.relationships.dom().contains(self.relationships.keys()[i as int]));
            }
            r.push(self.relationships.value_at(i));
            i = i + 1;
        }
        proof {
            assert(Seq::new(r@.len(), |i: int| r@[i].id@) =~= self.relationships.keys());
            assert(forall|x: Seq<char>| #[trigger]
                self.relationships.keys().contains(x) <==> self@.relationships.dom().contains(x));
        }
        r
    }
}

impl Default for MemoryGraph {
    fn default() -> (r: MemoryGraph)
        ensures
            r.wf(),
            r@.nodes == Map::<Seq<char>, NodeView>::empty(),
            r@.relationships == Map::<Seq<char>, RelationshipView>::empty(),
    {
        MemoryGraph::new()
    }
}

impl Clone for MemoryGraph {
    fn clone(&self) -> (r: MemoryGraph)
        ensures
            r@ == self@,
            self.wf() ==> r.wf(),
    {
        proof {
            use_type_invariant(&self.nodes);
            use_type_invariant(&self.relationships);
        }
        let mut nodes: StringMap<GraphNode> = StringMap::new();
        let n: usize = self.nodes.len();
        let ghost keys = self.nodes.keys();
        let mut i: usize = 0;
        while i < n
            invariant
                self.nodes.ordered(),
                keys == self.nodes.keys(),
                n == keys.len(),
                i <= n,
                nodes@.dom() =~= keys.take(i as int).to_set(),
                forall|k: Seq<char>| #[trigger]
                    nodes@.dom().contains(k) ==> nodes@[k]@ == self.nodes@[k]@,
            decreases n - i,
        {
            proof {
                lemma_take_more(keys, i as int);
                StringMap::lemma_view_at(self.nodes, i as int);
            }
            let node = self.nodes.value_at(i).clone();
            nodes.insert(self.nodes.key_at(i).clone(), node);
            i = i + 1;
        }
        let mut relationships: StringMap<GraphRelationship> = StringMap::new();
        let m: usize = self.relationships.len();
        let ghost rids = self.relationships.keys();
        let mut j: usize = 0;
        while j < m
            invariant
                self.relationships.ordered(),
                rids == self.relationships.keys(),
                m == rids.len(),
                j <= m,
                relationships@.dom() =~= rids.take(j as int).to_set(),
                forall|k: Seq<char>| #[trigger]
                    relationships@.dom().contains(k) ==> relationships@[k]@
                        == self.relationships@[k]@,
            decreases m - j,
        {
            proof {
                lemma_take_more(rids, j as int);
                StringMap::lemma_view_at(self.relationships, j as int);
            }
            let rel = self.relationships.value_at(j).clone();
            relationships.insert(self.relationships.key_at(j).clone(), rel);
            j = j + 1;
        }
        let r = MemoryGraph {
            nodes,
            relationships,
            outgoing: self.outgoing.copy(),
            incoming: self.incoming.copy(),
        };
        proof {
            assert(keys.take(n as int) =~= keys);
            assert(rids.take(m as int) =~= rids);
            StringMap::lemma_view_len(self.nodes);
            StringMap::lemma_view_len(self.relationships);
            assert(r@.nodes =~= self@.nodes);
            assert(r@.relationships =~= self@.relationships);
        }
        r
    }
}

impl Default for GraphSnapshot {
    fn default() -> (r: GraphSnapshot)
        ensures
            r@.nodes.len() == 0,
            r@.relationships.len() == 0,
    {
        GraphSnapshot { nodes: Vec::new(), relationships: Vec::new() }
    }
}

impl Clone for GraphSnapshot {
    fn clone(&self) -> (r: GraphSnapshot)
        ensures
            r@ == self@,
    {
        let mut nodes: Vec<GraphNode> = Vec::new();
        let mut i: usize = 0;
        while i < self.nodes.len()
            invariant
                i <= self.nodes@.len(),
                nodes@.len() == i,
                forall|k: int| 0 <= k < i ==> (#[trigger] nodes@[k])@ == self.nodes@[k]@,
            decreases self.nodes@.len() - i,
        {
            nodes.push(self.nodes[i].clone());
            i = i + 1;
        }
        let mut relationships: Vec<GraphRelationship> = Vec::new();
        let mut j: usize = 0;
        while j < self.relationships.len()
            invariant
                j <= self.relationships@.len(),
                relationships@.len() == j,
                forall|k: int|
                    0 <= k < j ==> (#[trigger] relationships@[k])@ == self.relationships@[k]@,
            decreases self.relationships@.len() - j,
        {
            relationships.push(self.relationships[j].clone());
            j = j + 1;
        }
        let r = GraphSnapshot { nodes, relationships };
        assert(r@ =~= self@);
        r
    }
}

} // verus!
