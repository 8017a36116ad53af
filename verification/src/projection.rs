//! The in-memory graph projection of the model: a `petgraph` directed graph
//! with one node per element and one edge per ownership link (owner → child)
//! and per relationship (source → target).
//!
//! The projection is a cache of the model's tables, rebuildable from them at
//! any time; the model updates it write-through on every applied mutation.

use vstd::prelude::*;

use std::collections::HashMap;

use petgraph::graph::DiGraph;

use crate::graph::{
    element_graph_add_edge, element_graph_add_node, element_graph_edge_count, element_graph_edge_endpoints,
    element_graph_edge_weight, element_graph_edges, element_graph_new, element_graph_node, element_graph_node_count, element_graph_out_edges,
    element_graph_nodes, element_graph_remove_edge, element_graph_remove_node, element_graph_set_node, kept_edges,
    avoids, relocated, renumbered, has_cycle, is_cycle, next_on, plain_graph_add_edge, plain_graph_add_node,
    plain_graph_edges, plain_graph_is_cyclic, plain_graph_new, plain_graph_size,
};
use crate::id::ElementId;
use crate::metaclass::{kind_of_name, MetaclassKind};
use crate::keyed::{keyed_map, lemma_keyed_index, lemma_keyed_take_step, unique_keys};
use crate::error::Error;
use crate::model::{ElementView, RelationshipView};
use crate::tree::{forest, is_root, lemma_nonempty_has_root, owner_fits};
use crate::rows::{
    corrupt_in, element_rows_read, elements_of_rows, read_element_rows, read_relationship_rows, relationship_rows_read,
    relationships_of_rows, ElementRow, RelationshipRow,
};
use crate::sort::{permutes, rearranged, sort_positions, Ordered};
use crate::text::clone_opt_string;
use crate::visibility::Visibility;

verus! {

broadcast use vstd::std_specs::hash::group_hash_axioms;

/// A node of the projection: an element snapshot.
#[derive(Debug, PartialEq, Eq)]
pub struct ElementNode {
    /// Immutable identity.
    pub id: ElementId,
    /// Metaclass kind.
    pub kind: MetaclassKind,
    /// Owning namespace id (`None` only for a root).
    pub owner: Option<ElementId>,
    /// Human-readable name (optional, not unique).
    pub name: Option<String>,
    /// UML visibility.
    pub visibility: Visibility,
}

/// What a projection edge represents.
#[derive(Debug, PartialEq, Eq)]
pub enum EdgeKind {
    /// The source node owns the target node.
    Ownership,
    /// A relationship from its source to its target, with the relationship's
    /// id and kind string.
    Relationship {
        /// The relationship's id.
        id: ElementId,
        /// The relationship kind string (e.g. `"Association"`).
        kind: String,
    },
}

/// The weight of a projection edge.
#[derive(Debug, PartialEq, Eq)]
pub struct EdgeNode {
    /// What this edge represents.
    pub kind: EdgeKind,
}

/// A projection edge by the ids of its endpoints.
#[derive(Debug, PartialEq, Eq)]
pub struct ProjectionEdge {
    /// Source element id.
    pub source: ElementId,
    /// Target element id.
    pub target: ElementId,
    /// Edge kind (ownership or relationship).
    pub kind: EdgeKind,
}

impl Clone for ElementNode {
    fn clone(&self) -> (r: Self)
        ensures
            r == *self,
    {
        ElementNode {
            id: self.id,
            kind: self.kind,
            owner: self.owner,
            name: clone_opt_string(&self.name),
            visibility: self.visibility,
        }
    }
}

impl Clone for EdgeKind {
    fn clone(&self) -> (r: Self)
        ensures
            r == *self,
    {
        match self {
            EdgeKind::Ownership => EdgeKind::Ownership,
            EdgeKind::Relationship { id, kind } => EdgeKind::Relationship { id: *id, kind: kind.clone() },
        }
    }
}

impl Clone for EdgeNode {
    fn clone(&self) -> (r: Self)
        ensures
            r == *self,
    {
        EdgeNode { kind: self.kind.clone() }
    }
}

impl Clone for ProjectionEdge {
    fn clone(&self) -> (r: Self)
        ensures
            r == *self,
    {
        ProjectionEdge { source: self.source, target: self.target, kind: self.kind.clone() }
    }
}

/// The node that stands for an element.
pub open spec fn node_of(v: ElementView) -> ElementNode {
    ElementNode { id: v.id, kind: v.kind, owner: v.owner, name: v.name, visibility: v.visibility }
}

/// The ownership edge from `owner` to `child`.
pub open spec fn ownership_edge(owner: ElementId, child: ElementId) -> ProjectionEdge {
    ProjectionEdge { source: owner, target: child, kind: EdgeKind::Ownership }
}

/// The edge that stands for a relationship.
pub open spec fn relationship_edge(r: RelationshipView) -> ProjectionEdge {
    ProjectionEdge { source: r.source, target: r.target, kind: EdgeKind::Relationship { id: r.id, kind: r.kind } }
}

/// The nodes a projection of these elements holds, by element id.
pub open spec fn expected_nodes(els: Map<ElementId, ElementView>) -> Map<ElementId, ElementNode> {
    Map::new(|id: ElementId| els.contains_key(id), |id: ElementId| node_of(els[id]))
}

/// `e` is the ownership edge of an element whose owner is present.
pub open spec fn is_ownership_edge_of(els: Map<ElementId, ElementView>, e: ProjectionEdge) -> bool {
    &&& e.kind is Ownership
    &&& els.contains_key(e.target)
    &&& els.contains_key(e.source)
    &&& els[e.target].owner == Some(e.source)
}

/// `e` is the edge of a relationship whose endpoints are present.
pub open spec fn is_relationship_edge_of(
    els: Map<ElementId, ElementView>,
    rels: Map<ElementId, RelationshipView>,
    e: ProjectionEdge,
) -> bool {
    &&& e.kind is Relationship
    &&& rels.contains_key(e.kind->Relationship_id)
    &&& relationship_edge(rels[e.kind->Relationship_id]) == e
    &&& els.contains_key(e.source)
    &&& els.contains_key(e.target)
}

/// The edges a projection of these elements and relationships holds: one
/// ownership edge per element whose owner is present, one edge per
/// relationship whose endpoints are present.
pub open spec fn expected_edges(
    els: Map<ElementId, ElementView>,
    rels: Map<ElementId, RelationshipView>,
) -> Set<ProjectionEdge> {
    Set::new(|e: ProjectionEdge| is_ownership_edge_of(els, e) || is_relationship_edge_of(els, rels, e))
}

/// An edge of the graph, by the ids of its endpoints.
pub open spec fn lift(ns: Seq<ElementNode>, e: (usize, usize, EdgeNode)) -> ProjectionEdge {
    ProjectionEdge { source: ns[e.0 as int].id, target: ns[e.1 as int].id, kind: e.2.kind }
}

/// All edges of the graph, by the ids of their endpoints.
pub open spec fn lifted(ns: Seq<ElementNode>, es: Seq<(usize, usize, EdgeNode)>) -> Seq<ProjectionEdge> {
    Seq::new(es.len(), |i: int| lift(ns, es[i]))
}

/// The in-memory graph projection.
pub struct Projection {
    graph: DiGraph<ElementNode, EdgeNode, usize>,
    /// Element id (its 128-bit value) → node index.
    id_to_node: HashMap<u128, usize>,
}

impl Projection {
    /// The node list of the graph.
    pub closed spec fn nodes(&self) -> Seq<ElementNode> {
        element_graph_nodes(self.graph)
    }

    /// The edge list of the graph, by node index.
    pub closed spec fn raw_edges(&self) -> Seq<(usize, usize, EdgeNode)> {
        element_graph_edges(self.graph)
    }

    /// The edge list of the graph, by element id.
    pub closed spec fn edge_list(&self) -> Seq<ProjectionEdge> {
        lifted(self.nodes(), self.raw_edges())
    }

    /// The nodes, by element id.
    pub closed spec fn node_view(&self) -> Map<ElementId, ElementNode> {
        Map::new(
            |id: ElementId| self.id_to_node@.contains_key(id.value()),
            |id: ElementId| self.nodes()[self.id_to_node@[id.value()] as int],
        )
    }

    /// The edges, by the ids of their endpoints.
    pub closed spec fn edge_view(&self) -> Set<ProjectionEdge> {
        self.edge_list().to_set()
    }

    /// The projection's invariant: the id index and the node list are in
    /// one-to-one correspondence, and every edge joins two nodes.
    pub closed spec fn wf(&self) -> bool {
        &&& forall|k: u128| #[trigger] self.id_to_node@.contains_key(k) ==> {
            &&& self.id_to_node@[k] < self.nodes().len()
            &&& self.nodes()[self.id_to_node@[k] as int].id.value() == k
        }
        &&& forall|i: int| 0 <= i < self.nodes().len() ==> {
            &&& self.id_to_node@.contains_key((#[trigger] self.nodes()[i]).id.value())
            &&& self.id_to_node@[self.nodes()[i].id.value()] == i
        }
        &&& forall|e: int| 0 <= e < self.raw_edges().len() ==> {
            &&& (#[trigger] self.raw_edges()[e]).0 < self.nodes().len()
            &&& self.raw_edges()[e].1 < self.nodes().len()
        }
    }

    /// An empty projection.
    pub fn new() -> (p: Projection)
        ensures
            p.wf(),
            p.node_view() == Map::<ElementId, ElementNode>::empty(),
            p.edge_view() == Set::<ProjectionEdge>::empty(),
            p.nodes() == Seq::<ElementNode>::empty(),
    {
        let p = Projection { graph: element_graph_new(), id_to_node: HashMap::new() };
        assert(p.node_view() =~= Map::<ElementId, ElementNode>::empty());
        assert(p.edge_list() =~= Seq::<ProjectionEdge>::empty());
        assert(p.edge_view() =~= Set::<ProjectionEdge>::empty());
        p
    }

    /// The node index of an element, if it has a node.
    fn index_of(&self, id: ElementId) -> (r: Option<usize>)
        requires
            self.wf(),
        ensures
            r matches Some(ix) ==> self.node_view().contains_key(id) && ix == self.id_to_node@[id.value()]
                && ix < self.nodes().len() && self.nodes()[ix as int].id == id,
            r is None ==> !self.node_view().contains_key(id),
    {
        match self.id_to_node.get(&id.as_u128()) {
            Some(ix) => {
                proof {
                    ElementId::lemma_value_injective(self.nodes()[*ix as int].id, id);
                }
                Some(*ix)
            },
            None => None,
        }
    }
}

/// Appending a node changes no edge, since every edge joins existing nodes.
proof fn lemma_lifted_push_node(ns: Seq<ElementNode>, es: Seq<(usize, usize, EdgeNode)>, w: ElementNode)
    requires
        forall|e: int| 0 <= e < es.len() ==> (#[trigger] es[e]).0 < ns.len() && es[e].1 < ns.len(),
    ensures
        lifted(ns.push(w), es) == lifted(ns, es),
{
    assert(lifted(ns.push(w), es) =~= lifted(ns, es));
}

/// The set of a sequence with one more element.
proof fn lemma_to_set_push<A>(s: Seq<A>, x: A)
    ensures
        s.push(x).to_set() == s.to_set().insert(x),
{
    assert forall|a: A| #[trigger] s.push(x).to_set().contains(a) implies s.to_set().insert(x).contains(a) by {
        let i = choose|i: int| 0 <= i < s.push(x).len() && s.push(x)[i] == a;
        if i < s.len() {
            assert(s[i] == a);
        }
    }
    assert forall|a: A| #[trigger] s.to_set().insert(x).contains(a) implies s.push(x).to_set().contains(a) by {
        if a == x {
            assert(s.push(x)[s.len() as int] == x);
        } else {
            let i = choose|i: int| 0 <= i < s.len() && s[i] == a;
            assert(s.push(x)[i] == a);
        }
    }
    assert(s.push(x).to_set() =~= s.to_set().insert(x));
}

/// Appending an edge appends its lifted form.
proof fn lemma_lifted_push_edge(ns: Seq<ElementNode>, es: Seq<(usize, usize, EdgeNode)>, x: (usize, usize, EdgeNode))
    ensures
        lifted(ns, es.push(x)) == lifted(ns, es).push(lift(ns, x)),
{
    assert forall|i: int| 0 <= i < es.len() + 1 implies #[trigger] lifted(ns, es.push(x))[i] == lifted(ns, es).push(lift(ns, x))[i] by {
        if i < es.len() {
            assert(es.push(x)[i] == es[i]);
        }
    }
    assert(lifted(ns, es.push(x)) =~= lifted(ns, es).push(lift(ns, x)));
}

/// Replacing a node's weight by one with the same id changes no edge.
proof fn lemma_lifted_update_node(ns: Seq<ElementNode>, es: Seq<(usize, usize, EdgeNode)>, a: int, w: ElementNode)
    requires
        0 <= a < ns.len(),
        w.id == ns[a].id,
        forall|e: int| 0 <= e < es.len() ==> (#[trigger] es[e]).0 < ns.len() && es[e].1 < ns.len(),
    ensures
        lifted(ns.update(a, w), es) == lifted(ns, es),
{
    assert forall|i: int| 0 <= i < es.len() implies #[trigger] lifted(ns.update(a, w), es)[i] == lifted(ns, es)[i] by {
        assert(es[i].0 < ns.len() && es[i].1 < ns.len());
    }
    assert(lifted(ns.update(a, w), es) =~= lifted(ns, es));
}

impl Projection {
    /// Add the node of a newly created element, and its ownership edge when
    /// the owner has a node.
    pub(crate) fn add_element(&mut self, v: &ElementView)
        requires
            old(self).wf(),
            !old(self).node_view().contains_key(v.id),
        ensures
            final(self).wf(),
            final(self).node_view() == old(self).node_view().insert(v.id, node_of(*v)),
            final(self).edge_view() == match v.owner {
                Some(o) => if old(self).node_view().contains_key(o) {
                    old(self).edge_view().insert(ownership_edge(o, v.id))
                } else {
                    old(self).edge_view()
                },
                None => old(self).edge_view(),
            },
    {
        let present = match v.owner {
            Some(o) => self.index_of(o).is_some(),
            None => false,
        };
        self.add_node(v);
        if present {
            if let Some(o) = v.owner {
                self.add_ownership_edge(o, v.id);
            }
        }
    }

    /// Add the node of an element (and no edge).
    pub(crate) fn add_node(&mut self, v: &ElementView)
        requires
            old(self).wf(),
            !old(self).node_view().contains_key(v.id),
        ensures
            final(self).wf(),
            final(self).node_view() == old(self).node_view().insert(v.id, node_of(*v)),
            final(self).edge_view() == old(self).edge_view(),
            final(self).nodes() == old(self).nodes().push(node_of(*v)),
    {
        let node = ElementNode {
            id: v.id,
            kind: v.kind,
            owner: v.owner,
            name: clone_opt_string(&v.name),
            visibility: v.visibility,
        };
        let ghost ns = self.nodes();
        let ghost es = self.raw_edges();
        let ix = element_graph_add_node(&mut self.graph, node);
        proof {
            lemma_lifted_push_node(ns, es, node_of(*v));
        }
        self.id_to_node.insert(v.id.as_u128(), ix);
        proof {
            assert forall|k: u128| #[trigger] self.id_to_node@.contains_key(k) implies {
                &&& self.id_to_node@[k] < self.nodes().len()
                &&& self.nodes()[self.id_to_node@[k] as int].id.value() == k
            } by {
                if k != v.id.value() {
                    assert(old(self).id_to_node@.contains_key(k));
                }
            }
            assert forall|i: int| 0 <= i < self.nodes().len() implies {
                &&& self.id_to_node@.contains_key((#[trigger] self.nodes()[i]).id.value())
                &&& self.id_to_node@[self.nodes()[i].id.value()] == i
            } by {
                if i < ns.len() {
                    assert(ns[i] == self.nodes()[i]);
                    if ns[i].id.value() == v.id.value() {
                        ElementId::lemma_value_injective(ns[i].id, v.id);
                        assert(old(self).node_view().contains_key(v.id));
                    }
                }
            }
            assert forall|id: ElementId| #[trigger] self.node_view().contains_key(id) implies
                old(self).node_view().insert(v.id, node_of(*v)).contains_key(id)
                && self.node_view()[id] == old(self).node_view().insert(v.id, node_of(*v))[id] by {
                if id != v.id {
                    ElementId::lemma_value_injective(id, v.id);
                    assert(old(self).id_to_node@.contains_key(id.value()));
                }
            }
            assert forall|id: ElementId| #[trigger] old(self).node_view().insert(v.id, node_of(*v)).contains_key(id)
                implies self.node_view().contains_key(id) by {
                if id != v.id {
                    ElementId::lemma_value_injective(id, v.id);
                }
            }
            assert(self.node_view() =~= old(self).node_view().insert(v.id, node_of(*v)));
        }
        assert(self.edge_list() =~= old(self).edge_list());
    }

    /// Add the ownership edge from `owner` to `child`, when both have nodes.
    pub(crate) fn add_ownership_edge(&mut self, owner: ElementId, child: ElementId)
        requires
            old(self).wf(),
        ensures
            final(self).wf(),
            final(self).node_view() == old(self).node_view(),
            final(self).nodes() == old(self).nodes(),
            final(self).edge_view() == if old(self).node_view().contains_key(owner) && old(self).node_view().contains_key(child) {
                old(self).edge_view().insert(ownership_edge(owner, child))
            } else {
                old(self).edge_view()
            },
    {
        match (self.index_of(owner), self.index_of(child)) {
            (Some(oix), Some(cix)) => {
                let ghost before = self.edge_list();
                let ghost old_raw = self.raw_edges();
                element_graph_add_edge(&mut self.graph, oix, cix, EdgeNode { kind: EdgeKind::Ownership });
                proof {
                    lemma_lifted_push_edge(self.nodes(), old_raw, (oix, cix, EdgeNode { kind: EdgeKind::Ownership }));
                    assert(self.edge_list() =~= before.push(ownership_edge(owner, child)));
                    lemma_to_set_push(before, ownership_edge(owner, child));
                    assert(self.node_view() =~= old(self).node_view());
                }
            },
            _ => {},
        }
    }

    /// Give the node of `id` a new name, if it has a node.
    pub(crate) fn rename_element(&mut self, id: ElementId, name: &Option<String>)
        requires
            old(self).wf(),
        ensures
            final(self).wf(),
            final(self).node_view() == (if old(self).node_view().contains_key(id) {
                old(self).node_view().insert(id, ElementNode { name: *name, ..old(self).node_view()[id] })
            } else {
                old(self).node_view()
            }),
            final(self).edge_view() == old(self).edge_view(),
    {
        if let Some(ix) = self.index_of(id) {
            let cur = element_graph_node(&self.graph, ix);
            let node = ElementNode {
                id: cur.id,
                kind: cur.kind,
                owner: cur.owner,
                name: clone_opt_string(name),
                visibility: cur.visibility,
            };
            let ghost ns = self.nodes();
            let ghost es = self.raw_edges();
            element_graph_set_node(&mut self.graph, ix, node);
            proof {
                lemma_lifted_update_node(ns, es, ix as int, node);
                assert forall|k: ElementId| #[trigger] self.node_view().contains_key(k) implies self.node_view()[k]
                    == old(self).node_view().insert(id, ElementNode { name: *name, ..old(self).node_view()[id] })[k] by {
                    if k != id {
                        ElementId::lemma_value_injective(k, id);
                        assert(self.id_to_node@[k.value()] != ix);
                    }
                }
                assert(self.node_view() =~= old(self).node_view().insert(
                    id,
                    ElementNode { name: *name, ..old(self).node_view()[id] },
                ));
            }
        }
    }

    /// Add the edge of a newly created relationship, when both its endpoints
    /// have nodes.
    pub(crate) fn add_relationship(&mut self, r: &RelationshipView)
        requires
            old(self).wf(),
        ensures
            final(self).wf(),
            final(self).node_view() == old(self).node_view(),
            final(self).nodes() == old(self).nodes(),
            final(self).edge_view() == (if old(self).node_view().contains_key(r.source)
                && old(self).node_view().contains_key(r.target) {
                old(self).edge_view().insert(relationship_edge(*r))
            } else {
                old(self).edge_view()
            }),
    {
        let s = self.index_of(r.source);
        let t = self.index_of(r.target);
        match (s, t) {
            (Some(six), Some(tix)) => {
                let ghost before = self.edge_list();
                let ghost old_raw = self.raw_edges();
                let kind = EdgeKind::Relationship { id: r.id, kind: r.kind.clone() };
                let ghost w = EdgeNode { kind };
                element_graph_add_edge(&mut self.graph, six, tix, EdgeNode { kind });
                proof {
                    lemma_lifted_push_edge(self.nodes(), old_raw, (six, tix, w));
                    assert(self.edge_list() =~= before.push(relationship_edge(*r)));
                    lemma_to_set_push(before, relationship_edge(*r));
                    assert(self.edge_view() =~= old(self).edge_view().insert(relationship_edge(*r)));
                    assert(self.node_view() =~= old(self).node_view());
                }
            },
            _ => {},
        }
    }

    /// A well-formed projection holds one node per id of its node view.
    pub proof fn lemma_node_count(&self)
        requires
            self.wf(),
        ensures
            self.nodes().len() == self.node_view().dom().len(),
    {
        let ns = self.nodes();
        let ids = ns.map_values(|n: ElementNode| n.id);
        assert forall|i: int, j: int| 0 <= i < ids.len() && 0 <= j < ids.len() && i != j implies ids[i] != ids[j] by {
            assert(self.id_to_node@.contains_key(ns[i].id.value()));
            assert(self.id_to_node@.contains_key(ns[j].id.value()));
        }
        assert forall|id: ElementId| #[trigger] self.node_view().dom().contains(id) implies ids.contains(id) by {
            let k = self.id_to_node@[id.value()];
            ElementId::lemma_value_injective(ns[k as int].id, id);
            assert(ids[k as int] == id);
        }
        assert forall|id: ElementId| ids.contains(id) implies #[trigger] self.node_view().dom().contains(id) by {
            let i = choose|i: int| 0 <= i < ids.len() && ids[i] == id;
            assert(self.id_to_node@.contains_key(ns[i].id.value()));
        }
        assert(ids.to_set() =~= self.node_view().dom());
        ids.unique_seq_to_set();
    }

    /// An element of a projection in sync with `els` sits at its index in the
    /// id index, below the node count.
    proof fn lemma_node_of_element(&self, els: Map<ElementId, ElementView>, id: ElementId)
        requires
            self.wf(),
            self.node_view() == expected_nodes(els),
            els.contains_key(id),
        ensures
            self.id_to_node@.contains_key(id.value()),
            self.id_to_node@[id.value()] < self.nodes().len(),
            self.nodes()[self.id_to_node@[id.value()] as int].id == id,
    {
        assert(expected_nodes(els).dom().contains(id));
        assert(self.node_view().dom().contains(id));
        let k = self.id_to_node@[id.value()];
        ElementId::lemma_value_injective(self.nodes()[k as int].id, id);
    }

    /// Every node of a projection in sync with `els` holds an element, and
    /// the id index points back at it.
    proof fn lemma_element_of_node(&self, els: Map<ElementId, ElementView>, i: int)
        requires
            self.wf(),
            self.node_view() == expected_nodes(els),
            0 <= i < self.nodes().len(),
        ensures
            els.contains_key(self.nodes()[i].id),
            self.id_to_node@[self.nodes()[i].id.value()] == i,
    {
        assert(self.id_to_node@.contains_key(self.nodes()[i].id.value()));
        assert(self.node_view().dom().contains(self.nodes()[i].id));
        assert(expected_nodes(els).dom().contains(self.nodes()[i].id));
    }

    /// An ownership edge of a projection in sync with the tables runs from
    /// an element's owner to that element.
    proof fn lemma_ownership_edge_owner(
        &self,
        els: Map<ElementId, ElementView>,
        rels: Map<ElementId, RelationshipView>,
        e: int,
    )
        requires
            self.wf(),
            self.edge_view() == expected_edges(els, rels),
            0 <= e < self.raw_edges().len(),
            self.raw_edges()[e].2.kind is Ownership,
        ensures
            els.contains_key(self.nodes()[self.raw_edges()[e].1 as int].id),
            els[self.nodes()[self.raw_edges()[e].1 as int].id].owner == Some(self.nodes()[self.raw_edges()[e].0 as int].id),
    {
        let l = lift(self.nodes(), self.raw_edges()[e]);
        assert(self.edge_list()[e] == l);
        assert(self.edge_list().contains(l));
        assert(self.edge_view().contains(l));
        assert(expected_edges(els, rels).contains(l));
    }

    /// An owned element of a projection in sync with the tables is the
    /// target of an ownership edge from its owner's node.
    proof fn lemma_owner_has_edge(
        &self,
        els: Map<ElementId, ElementView>,
        rels: Map<ElementId, RelationshipView>,
        x: ElementId,
    ) -> (e: int)
        requires
            self.wf(),
            self.node_view() == expected_nodes(els),
            self.edge_view() == expected_edges(els, rels),
            els.contains_key(x),
            els[x].owner is Some,
            els.contains_key(els[x].owner->0),
        ensures
            0 <= e < self.raw_edges().len(),
            self.raw_edges()[e].2.kind is Ownership,
            self.raw_edges()[e].0 == self.id_to_node@[(els[x].owner->0).value()],
            self.raw_edges()[e].1 == self.id_to_node@[x.value()],
    {
        let o = els[x].owner->0;
        let pe = ownership_edge(o, x);
        assert(is_ownership_edge_of(els, pe));
        assert(expected_edges(els, rels).contains(pe));
        assert(self.edge_list().to_set().contains(pe));
        let e = choose|e: int| 0 <= e < self.edge_list().len() && self.edge_list()[e] == pe;
        let es = self.raw_edges();
        assert(lift(self.nodes(), es[e]) == pe);
        self.lemma_element_of_node(els, es[e].0 as int);
        self.lemma_element_of_node(els, es[e].1 as int);
        e
    }

    /// In a projection in sync with a forest whose only root is `root`, every
    /// element's node can be reached from the root's node along ownership
    /// edges.
    proof fn lemma_reaches_from_root(
        &self,
        els: Map<ElementId, ElementView>,
        rels: Map<ElementId, RelationshipView>,
        dep: Map<ElementId, nat>,
        root: ElementId,
        x: ElementId,
    )
        requires
            self.wf(),
            self.node_view() == expected_nodes(els),
            self.edge_view() == expected_edges(els, rels),
            forest(els, dep),
            els.contains_key(root),
            els[root].owner is None,
            forall|a: ElementId| #[trigger] is_root(els, a) ==> a == root,
            els.contains_key(x),
        ensures
            reaches_ix(self.raw_edges(), self.id_to_node@[root.value()], self.id_to_node@[x.value()]),
        decreases dep[x],
    {
        let es = self.raw_edges();
        let r = self.id_to_node@[root.value()];
        assert(owner_fits(els, dep, x));
        match els[x].owner {
            None => {
                assert(is_root(els, x));
                let w = seq![r];
                assert(ownership_path(es, w));
            },
            Some(o) => {
                self.lemma_reaches_from_root(els, rels, dep, root, o);
                let ox = self.id_to_node@[o.value()];
                let xx = self.id_to_node@[x.value()];
                let w = choose|w: Seq<usize>| #[trigger] ownership_path(es, w) && w[0] == r && w.last() == ox;
                let e = self.lemma_owner_has_edge(els, rels, x);
                assert(owns_ix(es, ox, xx));
                let w2 = w.push(xx);
                assert forall|k: int| 0 <= k < w2.len() - 1 implies owns_ix(es, #[trigger] w2[k], w2[k + 1]) by {
                    if k < w.len() - 1 {
                        assert(w2[k] == w[k] && w2[k + 1] == w[k + 1]);
                    } else {
                        assert(w2[k] == ox && w2[k + 1] == xx);
                    }
                }
                assert(ownership_path(es, w2));
            },
        }
    }

    /// A projection in sync with tables whose owner relation is a forest with
    /// at most one root has connected ownership edges.
    pub proof fn lemma_one_root_connected(
        &self,
        els: Map<ElementId, ElementView>,
        rels: Map<ElementId, RelationshipView>,
        dep: Map<ElementId, nat>,
    )
        requires
            self.wf(),
            self.node_view() == expected_nodes(els),
            self.edge_view() == expected_edges(els, rels),
            forest(els, dep),
            forall|a: ElementId, b: ElementId| #[trigger] is_root(els, a) && #[trigger] is_root(els, b) ==> a == b,
        ensures
            ownership_connected_ix(self.nodes().len(), self.raw_edges()),
    {
        let ns = self.nodes();
        let es = self.raw_edges();
        let n = ns.len();
        if !(exists|i: usize| i < n && #[trigger] touches_before(es, es.len() as int, i)) {
            if n >= 2 {
                self.lemma_element_of_node(els, 0);
                self.lemma_element_of_node(els, 1);
                let a = ns[0].id;
                let b = ns[1].id;
                assert(owner_fits(els, dep, a));
                assert(owner_fits(els, dep, b));
                if els[a].owner is Some {
                    let e = self.lemma_owner_has_edge(els, rels, a);
                    assert(touches_before(es, es.len() as int, 0usize));
                }
                if els[b].owner is Some {
                    let e = self.lemma_owner_has_edge(els, rels, b);
                    assert(touches_before(es, es.len() as int, 1usize));
                }
                assert(is_root(els, a) && is_root(els, b));
                assert(a == b);
            }
        } else {
            let i = choose|i: usize| i < n && #[trigger] touches_before(es, es.len() as int, i);
            let e0 = choose|e: int| 0 <= e < es.len() && (#[trigger] es[e]).2.kind is Ownership && (es[e].0 == i || es[e].1 == i);
            self.lemma_ownership_edge_owner(els, rels, e0);
            let y = ns[es[e0].1 as int].id;
            lemma_nonempty_has_root(els, dep, y);
            let root = choose|r: ElementId| #[trigger] els.contains_key(r) && els[r].owner is None;
            assert(is_root(els, root));
            assert forall|a: ElementId| #[trigger] is_root(els, a) implies a == root by {
                assert(is_root(els, a) && is_root(els, root));
            }
            self.lemma_node_of_element(els, root);
            let r = self.id_to_node@[root.value()];
            // The root takes part: the path from it to `y` makes a first step.
            self.lemma_reaches_from_root(els, rels, dep, root, y);
            self.lemma_element_of_node(els, es[e0].1 as int);
            let yy = self.id_to_node@[y.value()];
            let w = choose|w: Seq<usize>| #[trigger] ownership_path(es, w) && w[0] == r && w.last() == yy;
            assert(w.len() >= 2);
            assert(owns_ix(es, w[0], w[1]));
            let e1 = choose|e: int| 0 <= e < es.len() && (#[trigger] es[e]).2.kind is Ownership && es[e].0 == w[0] && es[e].1 == w[1];
            assert(touches_before(es, es.len() as int, r));
            // Nothing owns the root.
            if owned_before(es, es.len() as int, r) {
                let e2 = choose|e: int| 0 <= e < es.len() && (#[trigger] es[e]).2.kind is Ownership && es[e].1 == r;
                self.lemma_ownership_edge_owner(els, rels, e2);
            }
            assert(ownership_root_ix(es, r));
            assert forall|q: usize| q < n && #[trigger] ownership_root_ix(es, q) implies q == r by {
                self.lemma_element_of_node(els, q as int);
                let qid = ns[q as int].id;
                assert(owner_fits(els, dep, qid));
                if els[qid].owner is Some {
                    let e = self.lemma_owner_has_edge(els, rels, qid);
                    assert(owned_before(es, es.len() as int, q));
                }
                assert(is_root(els, qid));
                assert(qid == root);
            }
            assert forall|x: usize| x < n && #[trigger] touches_before(es, es.len() as int, x) implies reaches_ix(es, r, x) by {
                self.lemma_element_of_node(els, x as int);
                self.lemma_reaches_from_root(els, rels, dep, root, ns[x as int].id);
            }
        }
    }

    /// The number of nodes.
    pub fn node_count(&self) -> (n: usize)
        requires
            self.wf(),
        ensures
            n == self.nodes().len(),
    {
        element_graph_node_count(&self.graph)
    }

    /// The number of edges (ownership and relationship).
    pub fn edge_count(&self) -> (n: usize)
        requires
            self.wf(),
        ensures
            n == self.edge_list().len(),
    {
        element_graph_edge_count(&self.graph)
    }

    /// The node of an element, if it has one.
    pub fn node(&self, id: ElementId) -> (r: Option<ElementNode>)
        requires
            self.wf(),
        ensures
            self.node_view().contains_key(id) ==> r == Some(self.node_view()[id]),
            !self.node_view().contains_key(id) ==> r is None,
    {
        match self.index_of(id) {
            Some(ix) => Some(element_graph_node(&self.graph, ix).clone()),
            None => None,
        }
    }

    /// The underlying `petgraph` graph, for algorithm access.
    pub fn graph(&self) -> (g: &DiGraph<ElementNode, EdgeNode, usize>)
        ensures
            element_graph_nodes(*g) == self.nodes(),
            element_graph_edges(*g) == self.raw_edges(),
    {
        &self.graph
    }

    /// Every node, ordered by element id.
    pub fn elements_sorted(&self) -> (r: Vec<ElementNode>)
        requires
            self.wf(),
        ensures
            rearranged(r@, self.nodes()),
            forall|i: int, j: int| 0 <= i < j < r@.len() ==> r@[i].id.value() < r@[j].id.value(),
    {
        let n = element_graph_node_count(&self.graph);
        let mut items: Vec<ElementNode> = Vec::new();
        let mut k: usize = 0;
        while k < n
            invariant
                n == self.nodes().len(),
                k <= n,
                items@ == self.nodes().take(k as int),
            decreases n - k,
        {
            items.push(element_graph_node(&self.graph, k).clone());
            k = k + 1;
            assert(items@ =~= self.nodes().take(k as int));
        }
        assert(items@ =~= self.nodes());
        let p = sort_positions(&items);
        let r = pick(&items, &p);
        proof {
            assert forall|a: int, b: int| 0 <= a < b < r@.len() implies r@[a].id.value() < r@[b].id.value() by {
                assert(items@[p@[a] as int].le(items@[p@[b] as int]));
                assert(p@[a] != p@[b]);
                assert(self.id_to_node@[self.nodes()[p@[a] as int].id.value()] == p@[a]);
                assert(self.id_to_node@[self.nodes()[p@[b] as int].id.value()] == p@[b]);
            }
        }
        r
    }

    /// Every edge, ordered by source id, then target id, ownership before
    /// relationship edges, and relationship edges by relationship id.
    pub fn edges_sorted(&self) -> (r: Vec<ProjectionEdge>)
        requires
            self.wf(),
        ensures
            rearranged(r@, self.edge_list()),
            forall|i: int, j: int| 0 <= i < j < r@.len() ==> edge_order(r@[i], r@[j]),
    {
        let m = element_graph_edge_count(&self.graph);
        let mut items: Vec<ProjectionEdge> = Vec::new();
        let mut k: usize = 0;
        while k < m
            invariant
                self.wf(),
                m == self.raw_edges().len(),
                k <= m,
                items@ == self.edge_list().take(k as int),
            decreases m - k,
        {
            let (s, t) = match element_graph_edge_endpoints(&self.graph, k) {
                Some(st) => st,
                None => {
                    assert(false);
                    (0, 0)
                },
            };
            let w = element_graph_edge_weight(&self.graph, k);
            let x = ProjectionEdge {
                source: element_graph_node(&self.graph, s).id,
                target: element_graph_node(&self.graph, t).id,
                kind: w.kind.clone(),
            };
            assert(x == self.edge_list()[k as int]);
            items.push(x);
            k = k + 1;
            assert(items@ =~= self.edge_list().take(k as int));
        }
        assert(items@ =~= self.edge_list());
        let p = sort_positions(&items);
        pick(&items, &p)
    }
}

impl Ordered for ElementNode {
    open spec fn le(self, other: Self) -> bool {
        self.id.value() <= other.id.value()
    }

    proof fn lemma_total(a: Self, b: Self) {
    }

    proof fn lemma_trans(a: Self, b: Self, c: Self) {
    }

    fn le_exec(&self, other: &Self) -> (r: bool) {
        self.id.as_u128() <= other.id.as_u128()
    }

    fn duplicate(&self) -> (r: Self) {
        self.clone()
    }
}

impl Ordered for ProjectionEdge {
    open spec fn le(self, other: Self) -> bool {
        edge_order(self, other)
    }

    proof fn lemma_total(a: Self, b: Self) {
    }

    proof fn lemma_trans(a: Self, b: Self, c: Self) {
    }

    fn le_exec(&self, other: &Self) -> (r: bool) {
        edge_order_exec(self, other)
    }

    fn duplicate(&self) -> (r: Self) {
        self.clone()
    }
}

/// The items of `items` read in the order `p`.
fn pick<T: Ordered>(items: &Vec<T>, p: &Vec<usize>) -> (r: Vec<T>)
    requires
        permutes(p@, 0, items@.len() as int),
    ensures
        r@ == Seq::new(items@.len(), |k: int| items@[p@[k] as int]),
        rearranged(r@, items@),
{
    let n = p.len();
    let mut r: Vec<T> = Vec::new();
    let mut k: usize = 0;
    while k < n
        invariant
            n == p@.len(),
            permutes(p@, 0, items@.len() as int),
            k <= n,
            r@ == Seq::new(k as nat, |j: int| items@[p@[j] as int]),
        decreases n - k,
    {
        r.push(items[p[k]].duplicate());
        k = k + 1;
        assert(r@ =~= Seq::new(k as nat, |j: int| items@[p@[j] as int]));
    }
    r
}

/// The rank of an edge kind in the edge order: ownership edges first.
pub open spec fn kind_rank(k: EdgeKind) -> int {
    match k {
        EdgeKind::Ownership => 0,
        EdgeKind::Relationship { .. } => 1,
    }
}

/// The relationship id an edge carries, as a number (0 for ownership edges).
pub open spec fn kind_id(k: EdgeKind) -> u128 {
    match k {
        EdgeKind::Ownership => 0,
        EdgeKind::Relationship { id, .. } => id.value(),
    }
}

/// `a` comes no later than `b`: by source id, then target id, then kind
/// (ownership first), then relationship id.
pub open spec fn edge_order(a: ProjectionEdge, b: ProjectionEdge) -> bool {
    if a.source.value() != b.source.value() {
        a.source.value() < b.source.value()
    } else if a.target.value() != b.target.value() {
        a.target.value() < b.target.value()
    } else if kind_rank(a.kind) != kind_rank(b.kind) {
        kind_rank(a.kind) < kind_rank(b.kind)
    } else {
        kind_id(a.kind) <= kind_id(b.kind)
    }
}

/// Decides [`edge_order`].
fn edge_order_exec(a: &ProjectionEdge, b: &ProjectionEdge) -> (r: bool)
    ensures
        r == edge_order(*a, *b),
{
    let (sa, sb) = (a.source.as_u128(), b.source.as_u128());
    if sa != sb {
        return sa < sb;
    }
    let (ta, tb) = (a.target.as_u128(), b.target.as_u128());
    if ta != tb {
        return ta < tb;
    }
    match (&a.kind, &b.kind) {
        (EdgeKind::Ownership, EdgeKind::Ownership) => true,
        (EdgeKind::Ownership, EdgeKind::Relationship { .. }) => true,
        (EdgeKind::Relationship { .. }, EdgeKind::Ownership) => false,
        (EdgeKind::Relationship { id: ia, .. }, EdgeKind::Relationship { id: ib, .. }) => ia.as_u128() <= ib.as_u128(),
    }
}

/// A kind of edge that a removal drops.
#[derive(Clone, Copy)]
enum EdgeFilter {
    /// The ownership edges into this element.
    OwnershipInto(ElementId),
    /// The edges of the relationship with this id.
    RelationshipWithId(ElementId),
}

/// The filter drops this edge.
spec fn drops(f: EdgeFilter, pe: ProjectionEdge) -> bool {
    match f {
        EdgeFilter::OwnershipInto(id) => pe.kind is Ownership && pe.target == id,
        EdgeFilter::RelationshipWithId(id) => pe.kind is Relationship && pe.kind->Relationship_id == id,
    }
}

/// Removing edge `e` by moving the last edge into its place does the same to
/// the lifted edges.
proof fn lemma_lifted_swap_remove(ns: Seq<ElementNode>, es: Seq<(usize, usize, EdgeNode)>, e: int)
    requires
        0 <= e < es.len(),
    ensures
        lifted(ns, es.update(e, es.last()).drop_last()) == lifted(ns, es).update(e, lifted(ns, es).last()).drop_last(),
{
    assert(lifted(ns, es.update(e, es.last()).drop_last()) =~= lifted(ns, es).update(e, lifted(ns, es).last()).drop_last());
}

impl Projection {
    /// Remove every edge the filter drops.
    fn remove_edges(&mut self, f: EdgeFilter)
        requires
            old(self).wf(),
        ensures
            final(self).wf(),
            final(self).nodes() == old(self).nodes(),
            final(self).id_to_node@ == old(self).id_to_node@,
            final(self).raw_edges().len() <= old(self).raw_edges().len(),
            final(self).edge_view() == old(self).edge_view().filter(|pe: ProjectionEdge| !drops(f, pe)),
    {
        let mut e = element_graph_edge_count(&self.graph);
        while e > 0
            invariant
                self.wf(),
                self.nodes() == old(self).nodes(),
                self.id_to_node@ == old(self).id_to_node@,
                self.raw_edges().len() <= old(self).raw_edges().len(),
                e <= self.raw_edges().len(),
                forall|j: int| e <= j < self.edge_list().len() ==> !drops(f, #[trigger] self.edge_list()[j]),
                forall|pe: ProjectionEdge| #[trigger] self.edge_view().contains(pe) ==> old(self).edge_view().contains(pe),
                forall|pe: ProjectionEdge| #[trigger] old(self).edge_view().contains(pe) && !drops(f, pe)
                    ==> self.edge_view().contains(pe),
            decreases e,
        {
            e = e - 1;
            let ends = element_graph_edge_endpoints(&self.graph, e);
            let hit = match ends {
                Some((_s, t)) => {
                    let w = element_graph_edge_weight(&self.graph, e);
                    match (&w.kind, f) {
                        (EdgeKind::Ownership, EdgeFilter::OwnershipInto(id)) => element_graph_node(&self.graph, t).id == id,
                        (EdgeKind::Relationship { id, .. }, EdgeFilter::RelationshipWithId(rid)) => *id == rid,
                        _ => false,
                    }
                },
                None => false,
            };
            assert(hit == drops(f, self.edge_list()[e as int]));
            if hit {
                let ghost before = self.edge_list();
                let ghost before_view = self.edge_view();
                let ghost raw = self.raw_edges();
                let _ = element_graph_remove_edge(&mut self.graph, e);
                proof {
                    lemma_lifted_swap_remove(self.nodes(), raw, e as int);
                    assert forall|pe: ProjectionEdge| #[trigger] self.edge_view().contains(pe) implies old(self).edge_view().contains(pe) by {
                        let k = choose|k: int| 0 <= k < self.edge_list().len() && self.edge_list()[k] == pe;
                        if k == e {
                            assert(before[before.len() - 1] == pe);
                        } else {
                            assert(before[k] == pe);
                        }
                        assert(before_view.contains(pe));
                    }
                    assert forall|pe: ProjectionEdge| #[trigger] old(self).edge_view().contains(pe) && !drops(f, pe)
                        implies self.edge_view().contains(pe) by {
                        assert(before_view.contains(pe));
                        let k = choose|k: int| 0 <= k < before.len() && before[k] == pe;
                        if k == before.len() - 1 {
                            if k != e {
                                assert(self.edge_list()[e as int] == pe);
                            }
                        } else {
                            assert(k != e);
                            assert(self.edge_list()[k] == pe);
                        }
                    }
                    assert forall|i: int| 0 <= i < self.raw_edges().len() implies {
                        &&& (#[trigger] self.raw_edges()[i]).0 < self.nodes().len()
                        &&& self.raw_edges()[i].1 < self.nodes().len()
                    } by {
                        if i == e {
                            assert(self.raw_edges()[i] == raw[raw.len() - 1]);
                        } else {
                            assert(self.raw_edges()[i] == raw[i]);
                        }
                    }
                }
            }
        }
        assert(self.edge_view() =~= old(self).edge_view().filter(|pe: ProjectionEdge| !drops(f, pe)));
    }
}

/// Where an edge's endpoint lands after node `a` of `ns` is removed, the
/// node is the same.
proof fn lemma_relocated_node(ns: Seq<ElementNode>, a: int, x: usize)
    requires
        0 <= a < ns.len(),
        x < ns.len(),
        x != a,
    ensures
        relocated(x, a as usize, ns.len()) < ns.len() - 1,
        ns.update(a, ns.last()).drop_last()[relocated(x, a as usize, ns.len()) as int] == ns[x as int],
{
}

/// Removing node `a` (as `Graph::remove_node` does) drops exactly the edges
/// at that node's id and leaves every other edge joining two nodes.
proof fn lemma_remove_node_edges(
    ns: Seq<ElementNode>,
    es: Seq<(usize, usize, EdgeNode)>,
    es2: Seq<(usize, usize, EdgeNode)>,
    a: usize,
)
    requires
        0 <= a < ns.len(),
        forall|e: int| 0 <= e < es.len() ==> (#[trigger] es[e]).0 < ns.len() && es[e].1 < ns.len(),
        forall|i: int, j: int| 0 <= i < ns.len() && 0 <= j < ns.len() && (#[trigger] ns[i]).id == (#[trigger] ns[j]).id ==> i == j,
        es2.to_multiset() == kept_edges(es, a, ns.len()).to_multiset(),
    ensures
        lifted(ns.update(a as int, ns.last()).drop_last(), es2).to_set() == lifted(ns, es).to_set().filter(
            |pe: ProjectionEdge| pe.source != ns[a as int].id && pe.target != ns[a as int].id,
        ),
        forall|e: int| 0 <= e < es2.len() ==> (#[trigger] es2[e]).0 < ns.len() - 1 && es2[e].1 < ns.len() - 1,
        es2.len() <= es.len(),
{
    broadcast use vstd::seq_lib::group_to_multiset_ensures;
    broadcast use vstd::seq_lib::group_filter_ensures;
    broadcast use vstd::seq::Seq::lemma_filter_contains_rev;

    let ns2 = ns.update(a as int, ns.last()).drop_last();
    let p = avoids(a);
    let fs = es.filter(p);
    let ks = kept_edges(es, a, ns.len());
    let id = ns[a as int].id;

    // every surviving edge is a kept edge, renumbered
    assert forall|i: int| 0 <= i < es2.len() implies exists|k: int| #![trigger es[k]] 0 <= k < es.len()
        && es[k].0 != a && es[k].1 != a
        && #[trigger] es2[i] == (relocated(es[k].0, a, ns.len()), relocated(es[k].1, a, ns.len()), es[k].2) by {
        assert(es2.contains(es2[i]));
        assert(es2.to_multiset().count(es2[i]) > 0);
        assert(ks.contains(es2[i]));
        let j = choose|j: int| 0 <= j < ks.len() && ks[j] == es2[i];
        assert(p(fs[j]));
        assert(fs.contains(fs[j]));
        assert(es.contains(fs[j]));
        let k = choose|k: int| 0 <= k < es.len() && es[k] == fs[j];
        assert(es[k] == fs[j]);
    }
    assert forall|e: int| 0 <= e < es2.len() implies (#[trigger] es2[e]).0 < ns.len() - 1 && es2[e].1 < ns.len() - 1 by {
        let k = choose|k: int| #![trigger es[k]] 0 <= k < es.len() && es[k].0 != a && es[k].1 != a
            && es2[e] == (relocated(es[k].0, a, ns.len()), relocated(es[k].1, a, ns.len()), es[k].2);
        lemma_relocated_node(ns, a as int, es[k].0);
        lemma_relocated_node(ns, a as int, es[k].1);
    }
    assert(es2.len() == es2.to_multiset().len());
    assert(ks.len() == ks.to_multiset().len());
    assert(fs.len() <= es.len());
    let lhs = lifted(ns2, es2).to_set();
    let rhs = lifted(ns, es).to_set().filter(|pe: ProjectionEdge| pe.source != id && pe.target != id);
    assert forall|pe: ProjectionEdge| #[trigger] lhs.contains(pe) implies rhs.contains(pe) by {
        let i = choose|i: int| 0 <= i < lifted(ns2, es2).len() && lifted(ns2, es2)[i] == pe;
        let k = choose|k: int| #![trigger es[k]] 0 <= k < es.len() && es[k].0 != a && es[k].1 != a
            && es2[i] == (relocated(es[k].0, a, ns.len()), relocated(es[k].1, a, ns.len()), es[k].2);
        lemma_relocated_node(ns, a as int, es[k].0);
        lemma_relocated_node(ns, a as int, es[k].1);
        assert(lifted(ns, es)[k] == pe);
        assert(ns[es[k].0 as int].id != id);
        assert(ns[es[k].1 as int].id != id);
    }
    assert forall|pe: ProjectionEdge| #[trigger] rhs.contains(pe) implies lhs.contains(pe) by {
        let k = choose|k: int| 0 <= k < lifted(ns, es).len() && lifted(ns, es)[k] == pe;
        assert(es[k].0 != a);
        assert(es[k].1 != a);
        assert(p(es[k]));
        assert(fs.contains(es[k]));
        let j = choose|j: int| 0 <= j < fs.len() && fs[j] == es[k];
        let r = (relocated(es[k].0, a, ns.len()), relocated(es[k].1, a, ns.len()), es[k].2);
        assert(ks[j] == r);
        assert(ks.contains(r));
        assert(ks.to_multiset().count(r) > 0);
        assert(es2.contains(r));
        let i = choose|i: int| 0 <= i < es2.len() && es2[i] == r;
        lemma_relocated_node(ns, a as int, es[k].0);
        lemma_relocated_node(ns, a as int, es[k].1);
        assert(lifted(ns2, es2)[i] == pe);
    }
    assert(lhs =~= rhs);
}

impl Projection {
    /// Move the node of `id` under `new_owner`: drop its incoming ownership
    /// edges, record the new owner on the node, and add the ownership edge
    /// from the new owner when that owner has a node.
    pub(crate) fn reparent_element(&mut self, id: ElementId, new_owner: Option<ElementId>)
        requires
            old(self).wf(),
        ensures
            final(self).wf(),
            !old(self).node_view().contains_key(id) ==> final(self).node_view() == old(self).node_view()
                && final(self).edge_view() == old(self).edge_view(),
            old(self).node_view().contains_key(id) ==> {
                &&& final(self).node_view() == old(self).node_view().insert(
                    id,
                    ElementNode { owner: new_owner, ..old(self).node_view()[id] },
                )
                &&& final(self).edge_view() == match new_owner {
                    Some(o) => if old(self).node_view().contains_key(o) {
                        old(self).edge_view().filter(|pe: ProjectionEdge| !(pe.kind is Ownership && pe.target == id)).insert(
                            ownership_edge(o, id),
                        )
                    } else {
                        old(self).edge_view().filter(|pe: ProjectionEdge| !(pe.kind is Ownership && pe.target == id))
                    },
                    None => old(self).edge_view().filter(|pe: ProjectionEdge| !(pe.kind is Ownership && pe.target == id)),
                }
            },
    {
        let ix = match self.index_of(id) {
            Some(ix) => ix,
            None => {
                return;
            },
        };
        self.remove_edges(EdgeFilter::OwnershipInto(id));
        assert(self.edge_view() =~= old(self).edge_view().filter(|pe: ProjectionEdge| !(pe.kind is Ownership && pe.target == id)));
        let cur = element_graph_node(&self.graph, ix);
        let node = ElementNode {
            id: cur.id,
            kind: cur.kind,
            owner: new_owner,
            name: clone_opt_string(&cur.name),
            visibility: cur.visibility,
        };
        let ghost ns = self.nodes();
        let ghost es0 = self.raw_edges();
        element_graph_set_node(&mut self.graph, ix, node);
        proof {
            lemma_lifted_update_node(ns, es0, ix as int, node);
            assert forall|k: ElementId| #[trigger] self.node_view().contains_key(k) implies self.node_view()[k]
                == old(self).node_view().insert(id, ElementNode { owner: new_owner, ..old(self).node_view()[id] })[k] by {
                if k != id {
                    ElementId::lemma_value_injective(k, id);
                    assert(self.id_to_node@[k.value()] != ix);
                }
            }
            assert(self.node_view() =~= old(self).node_view().insert(
                id,
                ElementNode { owner: new_owner, ..old(self).node_view()[id] },
            ));
        }
        let oix = match new_owner {
            Some(o) => self.index_of(o),
            None => None,
        };
        if let Some(oix) = oix {
            let ghost before = self.edge_list();
            let ghost old_raw = self.raw_edges();
            element_graph_add_edge(&mut self.graph, oix, ix, EdgeNode { kind: EdgeKind::Ownership });
            proof {
                lemma_lifted_push_edge(self.nodes(), old_raw, (oix, ix, EdgeNode { kind: EdgeKind::Ownership }));
                assert(self.edge_list() =~= before.push(ownership_edge(new_owner->0, id)));
                lemma_to_set_push(before, ownership_edge(new_owner->0, id));
            }
        }
    }

    /// Drop the edge of the relationship with this id.
    pub(crate) fn remove_relationship(&mut self, id: ElementId)
        requires
            old(self).wf(),
        ensures
            final(self).wf(),
            final(self).node_view() == old(self).node_view(),
            final(self).edge_view() == old(self).edge_view().filter(
                |pe: ProjectionEdge| !(pe.kind is Relationship && pe.kind->Relationship_id == id),
            ),
    {
        self.remove_edges(EdgeFilter::RelationshipWithId(id));
        assert(self.node_view() =~= old(self).node_view());
        assert(self.edge_view() =~= old(self).edge_view().filter(
            |pe: ProjectionEdge| !(pe.kind is Relationship && pe.kind->Relationship_id == id),
        ));
    }

    /// Remove the node of `id` and every edge at it.
    pub(crate) fn remove_element(&mut self, id: ElementId)
        requires
            old(self).wf(),
        ensures
            final(self).wf(),
            final(self).node_view() == old(self).node_view().remove(id),
            final(self).edge_view() == old(self).edge_view().filter(
                |pe: ProjectionEdge| pe.source != id && pe.target != id,
            ),
    {
        let ix = match self.index_of(id) {
            Some(ix) => ix,
            None => {
                assert(self.node_view() =~= old(self).node_view().remove(id));
                assert forall|pe: ProjectionEdge| #[trigger] self.edge_view().contains(pe) implies pe.source != id && pe.target != id by {
                    let k = choose|k: int| 0 <= k < self.edge_list().len() && self.edge_list()[k] == pe;
                    assert(self.raw_edges()[k].0 < self.nodes().len());
                    let s = self.raw_edges()[k].0 as int;
                    let t = self.raw_edges()[k].1 as int;
                    assert(self.id_to_node@.contains_key(self.nodes()[s].id.value()));
                    assert(self.id_to_node@.contains_key(self.nodes()[t].id.value()));
                }
                assert(self.edge_view() =~= old(self).edge_view().filter(
                    |pe: ProjectionEdge| pe.source != id && pe.target != id,
                ));
                return;
            },
        };
        let ghost ns = self.nodes();
        let ghost es = self.raw_edges();
        let ghost map = self.id_to_node@;
        proof {
            assert forall|i: int, j: int| 0 <= i < ns.len() && 0 <= j < ns.len() && (#[trigger] ns[i]).id == (#[trigger] ns[j]).id
                implies i == j by {
                assert(map[ns[i].id.value()] == i);
                assert(map[ns[j].id.value()] == j);
            }
        }
        self.id_to_node.remove(&id.as_u128());
        let _ = element_graph_remove_node(&mut self.graph, ix);
        proof {
            lemma_remove_node_edges(ns, es, self.raw_edges(), ix);
        }
        let n = element_graph_node_count(&self.graph);
        if ix < n {
            let moved = element_graph_node(&self.graph, ix).id;
            self.id_to_node.insert(moved.as_u128(), ix);
        }
        proof {
            let ns2 = self.nodes();
            assert(ns2 == ns.update(ix as int, ns.last()).drop_last());
            assert forall|k: u128| #[trigger] self.id_to_node@.contains_key(k) implies {
                &&& self.id_to_node@[k] < self.nodes().len()
                &&& self.nodes()[self.id_to_node@[k] as int].id.value() == k
            } by {
                if ix < n && k == ns[n as int].id.value() {
                } else {
                    assert(map.contains_key(k));
                    let j = map[k];
                    assert(k != id.value());
                    if j == n {
                        assert(ix < n);
                    }
                    assert(j != ix);
                }
            }
            assert forall|i: int| 0 <= i < self.nodes().len() implies {
                &&& self.id_to_node@.contains_key((#[trigger] self.nodes()[i]).id.value())
                &&& self.id_to_node@[self.nodes()[i].id.value()] == i
            } by {
                if i == ix {
                    assert(ns2[i] == ns[n as int]);
                } else {
                    assert(ns2[i] == ns[i]);
                    assert(map[ns[i].id.value()] == i);
                    assert(ns[i].id.value() != id.value());
                    if ix < n {
                        assert(ns[i].id.value() != ns[n as int].id.value());
                    }
                }
            }
            assert forall|k: ElementId| #[trigger] self.node_view().contains_key(k) implies
                old(self).node_view().remove(id).contains_key(k) && self.node_view()[k] == old(self).node_view()[k] by {
                if ix < n && k.value() == ns[n as int].id.value() {
                    assert(map.contains_key(k.value()));
                    ElementId::lemma_value_injective(k, ns[n as int].id);
                    ElementId::lemma_value_injective(k, id);
                } else {
                    assert(map.contains_key(k.value()));
                    ElementId::lemma_value_injective(k, id);
                    let j = map[k.value()];
                    if j == n {
                        assert(ix < n);
                    }
                    assert(j != ix);
                }
            }
            assert forall|k: ElementId| #[trigger] old(self).node_view().remove(id).contains_key(k) implies
                self.node_view().contains_key(k) by {
                ElementId::lemma_value_injective(k, id);
                let j = map[k.value()];
                if j == n {
                    assert(ix < n);
                    assert(k.value() == ns[n as int].id.value());
                }
            }
            assert(self.node_view() =~= old(self).node_view().remove(id));
        }
    }
}

/// The ownership edges of `view` close a cycle: a non-empty sequence of
/// elements, each owning the next and the last owning the first.
pub open spec fn ownership_cycle(view: Set<ProjectionEdge>) -> bool {
    exists|w: Seq<ElementId>| #[trigger] w.len() >= 1 && forall|i: int| 0 <= i < w.len() ==> view.contains(
        ownership_edge(#[trigger] w[i], if i + 1 == w.len() { w[0] } else { w[i + 1] }),
    )
}

/// The weightless graph of the ownership edges: `(source, target)` pairs of
/// the ownership edges among the first `k` edges.
spec fn ownership_pairs_of(es: Seq<(usize, usize, EdgeNode)>, k: int, p: (usize, usize)) -> bool {
    exists|e: int| 0 <= e < k && (#[trigger] es[e]).2.kind is Ownership && es[e].0 == p.0 && es[e].1 == p.1
}

/// Along a chain of ownership edges the depth grows by one per step.
proof fn lemma_depth_along(view: Set<ProjectionEdge>, d: Map<ElementId, nat>, w: Seq<ElementId>, k: int)
    requires
        0 <= k < w.len(),
        forall|i: int| 0 <= i < w.len() ==> view.contains(
            ownership_edge(#[trigger] w[i], if i + 1 == w.len() { w[0] } else { w[i + 1] }),
        ),
        forall|s: ElementId, t: ElementId| #[trigger] view.contains(ownership_edge(s, t)) ==> d[t] == d[s] + 1,
    ensures
        d[w[k]] == d[w[0]] + k,
    decreases k,
{
    if k > 0 {
        lemma_depth_along(view, d, w, k - 1);
        assert(view.contains(ownership_edge(w[k - 1], w[k])));
    }
}

/// A depth map that grows by one along every ownership edge rules out an
/// ownership cycle.
pub proof fn lemma_depth_rules_out_cycle(view: Set<ProjectionEdge>, d: Map<ElementId, nat>)
    requires
        forall|s: ElementId, t: ElementId| #[trigger] view.contains(ownership_edge(s, t)) ==> d[t] == d[s] + 1,
    ensures
        !ownership_cycle(view),
{
    if ownership_cycle(view) {
        let w = choose|w: Seq<ElementId>| #[trigger] w.len() >= 1 && forall|i: int| 0 <= i < w.len() ==> view.contains(
            ownership_edge(#[trigger] w[i], if i + 1 == w.len() { w[0] } else { w[i + 1] }),
        );
        let k = w.len() - 1;
        lemma_depth_along(view, d, w, k);
        assert(view.contains(ownership_edge(w[k], w[0])));
    }
}

impl Projection {
    /// Whether the ownership edges are free of cycles: no element owns itself
    /// transitively.
    pub fn ownership_is_acyclic(&self) -> (b: bool)
        requires
            self.wf(),
        ensures
            b == !ownership_cycle(self.edge_view()),
    {
        let n = element_graph_node_count(&self.graph);
        let m = element_graph_edge_count(&self.graph);
        let mut sub = plain_graph_new();
        let mut i: usize = 0;
        while i < n
            invariant
                n == self.nodes().len(),
                i <= n,
                plain_graph_size(sub) == i,
                plain_graph_edges(sub) == Seq::<(usize, usize)>::empty(),
            decreases n - i,
        {
            plain_graph_add_node(&mut sub);
            i = i + 1;
        }
        let mut e: usize = 0;
        let mut any = false;
        while e < m
            invariant
                self.wf(),
                n == self.nodes().len(),
                m == self.raw_edges().len(),
                e <= m,
                plain_graph_size(sub) == n,
                plain_graph_edges(sub).len() <= e,
                any == (plain_graph_edges(sub).len() > 0),
                forall|p: (usize, usize)| plain_graph_edges(sub).contains(p) <==> #[trigger] ownership_pairs_of(self.raw_edges(), e as int, p),
            decreases m - e,
        {
            let ends = element_graph_edge_endpoints(&self.graph, e);
            let w = element_graph_edge_weight(&self.graph, e);
            let ghost before = plain_graph_edges(sub);
            if let (EdgeKind::Ownership, Some((s, t))) = (&w.kind, ends) {
                plain_graph_add_edge(&mut sub, s, t);
                any = true;
                proof {
                    let raw = self.raw_edges();
                    assert(raw[e as int].2.kind is Ownership);
                    assert forall|p: (usize, usize)| plain_graph_edges(sub).contains(p) <==> #[trigger] ownership_pairs_of(raw, e + 1, p) by {
                        let was = ownership_pairs_of(raw, e as int, p);
                        if p == (s, t) {
                            assert(plain_graph_edges(sub)[before.len() as int] == p);
                            assert(raw[e as int].0 == p.0 && raw[e as int].1 == p.1);
                        } else {
                            if plain_graph_edges(sub).contains(p) {
                                let j = choose|j: int| 0 <= j < plain_graph_edges(sub).len() && plain_graph_edges(sub)[j] == p;
                                assert(before[j] == p);
                                assert(before.contains(p));
                                assert(was);
                                let k = choose|k: int| 0 <= k < e && (#[trigger] raw[k]).2.kind is Ownership
                                    && raw[k].0 == p.0 && raw[k].1 == p.1;
                                assert(raw[k].2.kind is Ownership);
                            }
                            if ownership_pairs_of(raw, e + 1, p) {
                                let k = choose|k: int| 0 <= k < e + 1 && (#[trigger] raw[k]).2.kind is Ownership
                                    && raw[k].0 == p.0 && raw[k].1 == p.1;
                                assert(k != e);
                                assert(raw[k].2.kind is Ownership);
                                assert(was);
                                assert(before.contains(p));
                                let j = choose|j: int| 0 <= j < before.len() && before[j] == p;
                                assert(plain_graph_edges(sub)[j] == p);
                            }
                        }
                    }
                }
            } else {
                proof {
                    let raw = self.raw_edges();
                    assert(!(raw[e as int].2.kind is Ownership));
                    assert forall|p: (usize, usize)| plain_graph_edges(sub).contains(p) <==> #[trigger] ownership_pairs_of(raw, e + 1, p) by {
                        let was = ownership_pairs_of(raw, e as int, p);
                        if ownership_pairs_of(raw, e + 1, p) {
                            let k = choose|k: int| 0 <= k < e + 1 && (#[trigger] raw[k]).2.kind is Ownership
                                && raw[k].0 == p.0 && raw[k].1 == p.1;
                            assert(k < e);
                            assert(raw[k].2.kind is Ownership);
                            assert(was);
                        }
                        if was {
                            let k = choose|k: int| 0 <= k < e && (#[trigger] raw[k]).2.kind is Ownership
                                && raw[k].0 == p.0 && raw[k].1 == p.1;
                            assert(raw[k].2.kind is Ownership);
                        }
                    }
                }
            }
            e = e + 1;
        }
        proof {
            self.lemma_cycle_correspondence(plain_graph_edges(sub));
        }
        if !any {
            proof {
                if has_cycle(n as nat, plain_graph_edges(sub)) {
                    let w = choose|w: Seq<usize>| is_cycle(n as nat, plain_graph_edges(sub), w);
                    assert(plain_graph_edges(sub).contains((w[0], next_on(w, 0))));
                }
            }
            return true;
        }
        !plain_graph_is_cyclic(&sub)
    }

    /// A cycle of the ownership pairs, by node index, is an ownership cycle
    /// by element id, and back.
    proof fn lemma_cycle_correspondence(&self, pairs: Seq<(usize, usize)>)
        requires
            self.wf(),
            forall|p: (usize, usize)| pairs.contains(p) <==> #[trigger] ownership_pairs_of(self.raw_edges(), self.raw_edges().len() as int, p),
        ensures
            has_cycle(self.nodes().len(), pairs) == ownership_cycle(self.edge_view()),
    {
        let ns = self.nodes();
        let es = self.raw_edges();
        if has_cycle(ns.len(), pairs) {
            let w = choose|w: Seq<usize>| is_cycle(ns.len(), pairs, w);
            let ids = Seq::new(w.len(), |i: int| ns[w[i] as int].id);
            assert forall|i: int| 0 <= i < ids.len() implies self.edge_view().contains(
                ownership_edge(#[trigger] ids[i], if i + 1 == ids.len() { ids[0] } else { ids[i + 1] }),
            ) by {
                assert(pairs.contains((w[i], next_on(w, i))));
                assert(ownership_pairs_of(es, es.len() as int, (w[i], next_on(w, i))));
                let k = choose|k: int| 0 <= k < es.len() && (#[trigger] es[k]).2.kind is Ownership
                    && es[k].0 == w[i] && es[k].1 == next_on(w, i);
                assert(es[k].2.kind is Ownership);
                assert(w[i] < ns.len());
                assert(self.edge_list()[k] == ownership_edge(ids[i], if i + 1 == ids.len() { ids[0] } else { ids[i + 1] }));
            }
            assert(ids.len() >= 1);
        }
        if ownership_cycle(self.edge_view()) {
            let w = choose|w: Seq<ElementId>| #[trigger] w.len() >= 1 && forall|i: int| 0 <= i < w.len() ==> self.edge_view().contains(
                ownership_edge(#[trigger] w[i], if i + 1 == w.len() { w[0] } else { w[i + 1] }),
            );
            let ix = Seq::new(w.len(), |i: int| self.id_to_node@[w[i].value()]);
            assert forall|i: int| 0 <= i < ix.len() implies #[trigger] ix[i] < ns.len()
                && pairs.contains((ix[i], next_on(ix, i))) by {
                let nxt = if i + 1 == w.len() { w[0] } else { w[i + 1] };
                assert(self.edge_view().contains(ownership_edge(w[i], nxt)));
                let k = choose|k: int| 0 <= k < self.edge_list().len() && self.edge_list()[k] == ownership_edge(w[i], nxt);
                let s = es[k].0 as int;
                let t = es[k].1 as int;
                assert(self.id_to_node@[ns[s].id.value()] == s);
                assert(self.id_to_node@[ns[t].id.value()] == t);
                assert(ownership_pairs_of(es, es.len() as int, (ix[i], next_on(ix, i))));
            }
            assert(is_cycle(ns.len(), pairs, ix));
        }
    }
}

/// `s` owns `t` by an ownership edge of `es` (by node index).
pub open spec fn owns_ix(es: Seq<(usize, usize, EdgeNode)>, s: usize, t: usize) -> bool {
    exists|e: int| 0 <= e < es.len() && (#[trigger] es[e]).2.kind is Ownership && es[e].0 == s && es[e].1 == t
}

/// Node `i` is an endpoint of one of the first `k` edges that is an
/// ownership edge.
pub open spec fn touches_before(es: Seq<(usize, usize, EdgeNode)>, k: int, i: usize) -> bool {
    exists|e: int| 0 <= e < k && (#[trigger] es[e]).2.kind is Ownership && (es[e].0 == i || es[e].1 == i)
}

/// Node `i` is the target of one of the first `k` edges that is an
/// ownership edge.
pub open spec fn owned_before(es: Seq<(usize, usize, EdgeNode)>, k: int, i: usize) -> bool {
    exists|e: int| 0 <= e < k && (#[trigger] es[e]).2.kind is Ownership && es[e].1 == i
}

/// `w` walks along ownership edges.
pub open spec fn ownership_path(es: Seq<(usize, usize, EdgeNode)>, w: Seq<usize>) -> bool {
    &&& w.len() >= 1
    &&& forall|k: int| 0 <= k < w.len() - 1 ==> owns_ix(es, #[trigger] w[k], w[k + 1])
}

/// `x` can be reached from `r` along ownership edges.
pub open spec fn reaches_ix(es: Seq<(usize, usize, EdgeNode)>, r: usize, x: usize) -> bool {
    exists|w: Seq<usize>| #[trigger] ownership_path(es, w) && w[0] == r && w.last() == x
}

/// Node `r` takes part in ownership and nothing owns it.
pub open spec fn ownership_root_ix(es: Seq<(usize, usize, EdgeNode)>, r: usize) -> bool {
    touches_before(es, es.len() as int, r) && !owned_before(es, es.len() as int, r)
}

/// The ownership edges of a graph of `n` nodes form one connected tree: with
/// no ownership edge at all, there is at most one node; otherwise exactly
/// one node takes part in ownership without being owned, and every node that
/// takes part is reachable from it.
pub open spec fn ownership_connected_ix(n: nat, es: Seq<(usize, usize, EdgeNode)>) -> bool {
    if !(exists|i: usize| i < n && #[trigger] touches_before(es, es.len() as int, i)) {
        n <= 1
    } else {
        exists|r: usize| #![trigger ownership_root_ix(es, r)] r < n && ownership_root_ix(es, r)
            && (forall|q: usize| q < n && #[trigger] ownership_root_ix(es, q) ==> q == r)
            && (forall|x: usize| x < n && #[trigger] touches_before(es, es.len() as int, x) ==> reaches_ix(es, r, x))
    }
}

/// The number of `true` entries.
spec fn count_true(s: Seq<bool>) -> nat
    decreases s.len(),
{
    if s.len() == 0 {
        0
    } else {
        count_true(s.drop_last()) + if s.last() {
            1nat
        } else {
            0nat
        }
    }
}

proof fn lemma_count_true_bound(s: Seq<bool>)
    ensures
        count_true(s) <= s.len(),
    decreases s.len(),
{
    if s.len() > 0 {
        lemma_count_true_bound(s.drop_last());
    }
}

proof fn lemma_count_true_set(s: Seq<bool>, i: int)
    requires
        0 <= i < s.len(),
        !s[i],
    ensures
        count_true(s.update(i, true)) == count_true(s) + 1,
    decreases s.len(),
{
    if i == s.len() - 1 {
        assert(s.update(i, true).drop_last() =~= s.drop_last());
    } else {
        assert(s.update(i, true).drop_last() =~= s.drop_last().update(i, true));
        lemma_count_true_set(s.drop_last(), i);
    }
}

/// Everything reachable from a visited node is visited, when the visited set
/// is closed under ownership edges.
proof fn lemma_closed_reaches(es: Seq<(usize, usize, EdgeNode)>, visited: Seq<bool>, w: Seq<usize>, k: int)
    requires
        ownership_path(es, w),
        0 <= k < w.len(),
        w[0] < visited.len(),
        visited[w[0] as int],
        forall|x: usize, y: usize| x < visited.len() && visited[x as int] && #[trigger] owns_ix(es, x, y)
            ==> y < visited.len() && visited[y as int],
    ensures
        w[k] < visited.len() && visited[w[k] as int],
    decreases k,
{
    if k > 0 {
        lemma_closed_reaches(es, visited, w, k - 1);
        assert(owns_ix(es, w[k - 1], w[k]));
    }
}

impl Projection {
    /// Whether the ownership edges form one connected tree: with no ownership
    /// edge, at most one node; otherwise a single unowned node from which
    /// every node taking part in ownership is reachable.
    #[verifier::rlimit(30)]
    pub fn ownership_is_connected(&self) -> (b: bool)
        requires
            self.wf(),
        ensures
            b == ownership_connected_ix(self.nodes().len(), self.raw_edges()),
    {
        let ghost es = self.raw_edges();
        let n = element_graph_node_count(&self.graph);
        let m = element_graph_edge_count(&self.graph);
        let mut part: Vec<bool> = Vec::new();
        let mut owned: Vec<bool> = Vec::new();
        let mut i: usize = 0;
        while i < n
            invariant
                i <= n,
                part@.len() == i,
                owned@.len() == i,
                forall|x: int| 0 <= x < i ==> !#[trigger] part@[x],
                forall|x: int| 0 <= x < i ==> !#[trigger] owned@[x],
            decreases n - i,
        {
            part.push(false);
            owned.push(false);
            i = i + 1;
        }
        let mut e: usize = 0;
        while e < m
            invariant
                self.wf(),
                es == self.raw_edges(),
                n == self.nodes().len(),
                m == es.len(),
                e <= m,
                part@.len() == n,
                owned@.len() == n,
                forall|x: usize| x < n ==> (part@[x as int] <==> #[trigger] touches_before(es, e as int, x)),
                forall|x: usize| x < n ==> (owned@[x as int] <==> #[trigger] owned_before(es, e as int, x)),
            decreases m - e,
        {
            let w = element_graph_edge_weight(&self.graph, e);
            let ends = element_graph_edge_endpoints(&self.graph, e);
            if let (EdgeKind::Ownership, Some((s, t))) = (&w.kind, ends) {
                part.set(s, true);
                part.set(t, true);
                owned.set(t, true);
            }
            proof {
                assert forall|x: usize| x < n implies (part@[x as int] <==> #[trigger] touches_before(es, e + 1, x)) by {
                    if touches_before(es, e + 1, x) {
                        let k = choose|k: int| 0 <= k < e + 1 && (#[trigger] es[k]).2.kind is Ownership && (es[k].0 == x || es[k].1 == x);
                        if k < e {
                            assert(touches_before(es, e as int, x));
                        }
                    }
                    if touches_before(es, e as int, x) {
                        let k = choose|k: int| 0 <= k < e && (#[trigger] es[k]).2.kind is Ownership && (es[k].0 == x || es[k].1 == x);
                        assert(es[k].2.kind is Ownership);
                    }
                    assert(es[e as int].2.kind is Ownership ==> touches_before(es, e + 1, es[e as int].0));
                    assert(es[e as int].2.kind is Ownership ==> touches_before(es, e + 1, es[e as int].1));
                }
                assert forall|x: usize| x < n implies (owned@[x as int] <==> #[trigger] owned_before(es, e + 1, x)) by {
                    if owned_before(es, e + 1, x) {
                        let k = choose|k: int| 0 <= k < e + 1 && (#[trigger] es[k]).2.kind is Ownership && es[k].1 == x;
                        if k < e {
                            assert(owned_before(es, e as int, x));
                        }
                    }
                    if owned_before(es, e as int, x) {
                        let k = choose|k: int| 0 <= k < e && (#[trigger] es[k]).2.kind is Ownership && es[k].1 == x;
                        assert(es[k].2.kind is Ownership);
                    }
                    assert(es[e as int].2.kind is Ownership ==> owned_before(es, e + 1, es[e as int].1));
                }
            }
            e = e + 1;
        }
        // The unowned nodes that take part in ownership.
        let mut some = false;
        let mut roots: usize = 0;
        let mut root: usize = 0;
        let mut i: usize = 0;
        while i < n
            invariant
                n == self.nodes().len(),
                es == self.raw_edges(),
                m == es.len(),
                i <= n,
                roots <= i,
                part@.len() == n,
                owned@.len() == n,
                forall|x: usize| x < n ==> (part@[x as int] <==> #[trigger] touches_before(es, m as int, x)),
                forall|x: usize| x < n ==> (owned@[x as int] <==> #[trigger] owned_before(es, m as int, x)),
                some <==> exists|x: usize| x < i && #[trigger] touches_before(es, m as int, x),
                roots == 0 ==> forall|x: usize| x < i ==> !#[trigger] ownership_root_ix(es, x),
                roots >= 1 ==> root < i && ownership_root_ix(es, root),
                roots == 1 ==> forall|x: usize| x < i && #[trigger] ownership_root_ix(es, x) ==> x == root,
                roots >= 2 ==> exists|x: usize| x < i && x != root && #[trigger] ownership_root_ix(es, x),
            decreases n - i,
        {
            if part[i] {
                some = true;
                if !owned[i] {
                    proof {
                        if roots >= 1 {
                            assert(root != i && ownership_root_ix(es, root));
                        }
                    }
                    roots = roots + 1;
                    root = i;
                }
            }
            proof {
                assert(touches_before(es, m as int, i) == part@[i as int]);
                assert(ownership_root_ix(es, i) == (part@[i as int] && !owned@[i as int]));
            }
            i = i + 1;
        }
        if !some {
            return n <= 1;
        }
        if roots != 1 {
            proof {
                if roots >= 2 {
                    let x = choose|x: usize| x < n && x != root && #[trigger] ownership_root_ix(es, x);
                    assert(ownership_root_ix(es, x));
                }
            }
            return false;
        }
        // Depth-first search from the root along ownership edges.
        let mut visited: Vec<bool> = Vec::new();
        let mut i: usize = 0;
        while i < n
            invariant
                i <= n,
                visited@.len() == i,
                forall|x: int| 0 <= x < i ==> !#[trigger] visited@[x],
            decreases n - i,
        {
            visited.push(false);
            i = i + 1;
        }
        proof {
            lemma_count_true_set(visited@, root as int);
            assert(visited@.update(root as int, true) == visited@.update(root as int, true));
        }
        let ghost before_root = visited@;
        visited.set(root, true);
        proof {
            lemma_count_true_bound(visited@);
            let w = seq![root];
            assert(ownership_path(es, w));
            assert(reaches_ix(es, root, root));
        }
        let mut stack: Vec<usize> = Vec::new();
        stack.push(root);
        proof {
            assert forall|x: usize| x < n && visited@[x as int] implies x == root by {
                if x != root {
                    assert(visited@[x as int] == before_root[x as int]);
                }
            }
            assert(stack@[0] == root);
            assert(stack@.contains(root));
            assert forall|x: usize| x < n && #[trigger] visited@[x as int] implies reaches_ix(es, root, x) by {
                assert(x == root);
            }
        }
        while stack.len() > 0
            invariant
                self.wf(),
                es == self.raw_edges(),
                m == es.len(),
                n == self.nodes().len(),
                root < n,
                visited@.len() == n,
                visited@[root as int],
                stack@.no_duplicates(),
                forall|k: int| 0 <= k < stack@.len() ==> (#[trigger] stack@[k]) < n && visited@[stack@[k] as int],
                forall|x: usize| x < n && #[trigger] visited@[x as int] ==> reaches_ix(es, root, x),
                forall|x: usize, y: usize| x < n && visited@[x as int] && !stack@.contains(x) && #[trigger] owns_ix(es, x, y)
                    ==> y < n && visited@[y as int],
                count_true(visited@) <= n,
            decreases 2 * (n - count_true(visited@)) + stack@.len(),
        {
            let ghost measure0 = 2 * (n - count_true(visited@)) + stack@.len();
            let ghost stack0 = stack@;
            let node = match stack.pop() {
                Some(x) => x,
                None => 0,
            };
            proof {
                assert(stack0 == stack@.push(node));
                assert(stack0[stack0.len() - 1] == node);
                assert(!stack@.contains(node)) by {
                    if stack@.contains(node) {
                        let j = choose|j: int| 0 <= j < stack@.len() && stack@[j] == node;
                        assert(stack0[j] == stack0[stack0.len() - 1]);
                    }
                }
                assert forall|x: usize| !stack@.contains(x) && x != node implies !stack0.contains(x) by {
                    if stack0.contains(x) {
                        let j = choose|j: int| 0 <= j < stack0.len() && stack0[j] == x;
                        assert(stack@[j] == x);
                    }
                }
                assert forall|j: int| 0 <= j < stack@.len() implies (#[trigger] stack@[j]) < n && visited@[stack@[j] as int] by {
                    assert(stack@[j] == stack0[j]);
                }
            }
            let outs = element_graph_out_edges(&self.graph, node);
            let mut k: usize = 0;
            while k < outs.len()
                invariant
                    self.wf(),
                    es == self.raw_edges(),
                    m == es.len(),
                    n == self.nodes().len(),
                    node < n,
                    visited@[node as int],
                    !stack@.contains(node),
                    root < n,
                    visited@.len() == n,
                    visited@[root as int],
                    stack@.no_duplicates(),
                    outs@.no_duplicates(),
                    forall|e: usize| #[trigger] outs@.contains(e) <==> e < es.len() && es[e as int].0 == node,
                    k <= outs@.len(),
                    forall|j: int| 0 <= j < stack@.len() ==> (#[trigger] stack@[j]) < n && visited@[stack@[j] as int],
                    forall|x: usize| x < n && #[trigger] visited@[x as int] ==> reaches_ix(es, root, x),
                    forall|x: usize, y: usize| x < n && x != node && visited@[x as int] && !stack@.contains(x) && #[trigger] owns_ix(es, x, y)
                        ==> y < n && visited@[y as int],
                    forall|j: int| 0 <= j < k ==> (#[trigger] es[outs@[j] as int]).2.kind is Ownership
                        ==> visited@[es[outs@[j] as int].1 as int],
                    count_true(visited@) <= n,
                    2 * (n - count_true(visited@)) + stack@.len() < measure0,
                decreases outs@.len() - k,
            {
                let ei = outs[k];
                assert(outs@.contains(ei));
                let ghost vis_k = visited@;
                let w = element_graph_edge_weight(&self.graph, ei);
                let ends = element_graph_edge_endpoints(&self.graph, ei);
                let is_own = match &w.kind {
                    EdgeKind::Ownership => true,
                    _ => false,
                };
                let child = match ends {
                    Some((_s, t)) => t,
                    None => node,
                };
                assert(child == es[ei as int].1 && child < n);
                assert(is_own == es[ei as int].2.kind is Ownership);
                if is_own {
                    if !visited[child] {
                        proof {
                            lemma_count_true_set(visited@, child as int);
                            assert(owns_ix(es, node, child));
                            let pw = choose|pw: Seq<usize>| #[trigger] ownership_path(es, pw) && pw[0] == root && pw.last() == node;
                            let pw2 = pw.push(child);
                            assert forall|q: int| 0 <= q < pw2.len() - 1 implies owns_ix(es, #[trigger] pw2[q], pw2[q + 1]) by {
                                if q < pw.len() - 1 {
                                    assert(pw2[q] == pw[q] && pw2[q + 1] == pw[q + 1]);
                                } else {
                                    assert(pw2[q] == node && pw2[q + 1] == child);
                                }
                            }
                            assert(ownership_path(es, pw2));
                            assert(reaches_ix(es, root, child));
                        }
                        let ghost vis0 = visited@;
                        let ghost st0 = stack@;
                        visited.set(child, true);
                        proof {
                            lemma_count_true_bound(visited@);
                        }
                        stack.push(child);
                        proof {
                            assert forall|x: usize| !stack@.contains(x) implies !st0.contains(x) by {
                                if st0.contains(x) {
                                    let j = choose|j: int| 0 <= j < st0.len() && st0[j] == x;
                                    assert(stack@[j] == x);
                                }
                            }
                            assert(stack@.no_duplicates()) by {
                                assert forall|a: int, b: int| 0 <= a < stack@.len() && 0 <= b < stack@.len() && a != b
                                    implies stack@[a] != stack@[b] by {
                                    if a == st0.len() {
                                        assert(visited@[stack@[b] as int] == vis0[stack@[b] as int] || stack@[b] == child);
                                    }
                                    if b == st0.len() {
                                        assert(vis0[stack@[a] as int]);
                                    }
                                }
                            }
                            assert forall|x: usize, y: usize| x < n && x != node && visited@[x as int] && !stack@.contains(x) && #[trigger] owns_ix(es, x, y)
                                implies y < n && visited@[y as int] by {
                                assert(stack@[st0.len() as int] == child);
                                assert(x != child);
                                assert(!st0.contains(x));
                                assert(vis0[x as int]);
                                assert(vis0[y as int]);
                            }
                            assert forall|j: int| 0 <= j < stack@.len() implies (#[trigger] stack@[j]) < n && visited@[stack@[j] as int] by {
                                if j < st0.len() {
                                    assert(stack@[j] == st0[j]);
                                }
                            }
                        }
                    }
                    assert(visited@[child as int]);
                }
                proof {
                    assert forall|z: int| 0 <= z < n && vis_k[z] implies #[trigger] visited@[z] by {
                    }
                    assert(es[ei as int].2.kind is Ownership ==> visited@[es[ei as int].1 as int]);
                    assert forall|j: int| 0 <= j < k + 1 && (#[trigger] es[outs@[j] as int]).2.kind is Ownership
                        implies visited@[es[outs@[j] as int].1 as int] by {
                        if j == k {
                            assert(outs@[j] == ei);
                        }
                        if j < k {
                            assert(outs@.contains(outs@[j]));
                            assert(outs@[j] < es.len());
                            assert(self.raw_edges()[outs@[j] as int].1 < n);
                            if es[outs@[j] as int].2.kind is Ownership {
                                assert(vis_k[es[outs@[j] as int].1 as int]);
                            }
                        }
                    }
                }
                k = k + 1;
            }
            proof {
                assert forall|y: usize| #[trigger] owns_ix(es, node, y) implies y < n && visited@[y as int] by {
                    let e = choose|e: int| 0 <= e < es.len() && (#[trigger] es[e]).2.kind is Ownership && es[e].0 == node && es[e].1 == y;
                    assert(outs@.contains(e as usize));
                    let j = choose|j: int| 0 <= j < outs@.len() && outs@[j] == e as usize;
                    assert(es[outs@[j] as int].2.kind is Ownership);
                }
                assert forall|x: usize, y: usize| x < n && visited@[x as int] && !stack@.contains(x) && #[trigger] owns_ix(es, x, y)
                    implies y < n && visited@[y as int] by {
                    if x == node {
                        assert(owns_ix(es, node, y));
                    }
                }
            }
        }
        proof {
            assert forall|x: usize, y: usize| x < visited@.len() && visited@[x as int] && #[trigger] owns_ix(es, x, y)
                implies y < visited@.len() && visited@[y as int] by {
            }
        }
        let mut i: usize = 0;
        while i < n
            invariant
                n == self.nodes().len(),
                es == self.raw_edges(),
                m == es.len(),
                i <= n,
                visited@.len() == n,
                part@.len() == n,
                forall|x: usize| x < n ==> (part@[x as int] <==> #[trigger] touches_before(es, m as int, x)),
                forall|x: int| 0 <= x < i ==> #[trigger] visited@[x] == part@[x],
                root < n,
                ownership_root_ix(es, root),
                forall|q: usize| q < n && #[trigger] ownership_root_ix(es, q) ==> q == root,
                exists|x: usize| x < n && #[trigger] touches_before(es, m as int, x),
                visited@[root as int],
                forall|x: usize| x < n && #[trigger] visited@[x as int] ==> reaches_ix(es, root, x),
                forall|x: usize, y: usize| x < visited@.len() && visited@[x as int] && #[trigger] owns_ix(es, x, y)
                    ==> y < visited@.len() && visited@[y as int],
            decreases n - i,
        {
            if visited[i] != part[i] {
                proof {
                    if part@[i as int] {
                        // not reachable: a path to it would end at a visited node
                        if reaches_ix(es, root, i) {
                            let w = choose|w: Seq<usize>| #[trigger] ownership_path(es, w) && w[0] == root && w.last() == i;
                            lemma_closed_reaches(es, visited@, w, w.len() - 1);
                        }
                        assert(touches_before(es, m as int, i));
                        if ownership_connected_ix(n as nat, es) {
                            let r = choose|r: usize| #![trigger ownership_root_ix(es, r)] r < n && ownership_root_ix(es, r)
                                && (forall|q: usize| q < n && #[trigger] ownership_root_ix(es, q) ==> q == r)
                                && (forall|x: usize| x < n && #[trigger] touches_before(es, es.len() as int, x) ==> reaches_ix(es, r, x));
                            assert(r == root);
                            assert(reaches_ix(es, r, i));
                            let w = choose|w: Seq<usize>| #[trigger] ownership_path(es, w) && w[0] == root && w.last() == i;
                            lemma_closed_reaches(es, visited@, w, w.len() - 1);
                        }
                    } else {
                        // a visited node other than the root is some node's child
                        let w = choose|w: Seq<usize>| #[trigger] ownership_path(es, w) && w[0] == root && w.last() == i;
                        if w.len() == 1 {
                            assert(touches_before(es, m as int, root));
                        } else {
                            assert(owns_ix(es, w[w.len() - 2], w[w.len() - 1]));
                            let e = choose|e: int| 0 <= e < es.len() && (#[trigger] es[e]).2.kind is Ownership
                                && es[e].0 == w[w.len() - 2] && es[e].1 == w[w.len() - 1];
                            assert(touches_before(es, m as int, i));
                        }
                    }
                }
                return false;
            }
            i = i + 1;
        }
        proof {
            assert forall|x: usize| x < n && #[trigger] touches_before(es, es.len() as int, x) implies reaches_ix(es, root, x) by {
                assert(part@[x as int]);
                assert(visited@[x as int]);
            }
        }
        true
    }
}

/// Every owner and every relationship endpoint is a present element.
pub open spec fn references_present(els: Map<ElementId, ElementView>, rels: Map<ElementId, RelationshipView>) -> bool {
    &&& forall|x: ElementId| #[trigger] els.contains_key(x) && els[x].owner is Some ==> els.contains_key(els[x].owner->0)
    &&& forall|r: ElementId| #[trigger] rels.contains_key(r) ==> els.contains_key(rels[r].source) && els.contains_key(rels[r].target)
}

/// Adding an element adds its node and, when it has an owner, its ownership
/// edge.
pub proof fn lemma_expected_insert(els: Map<ElementId, ElementView>, rels: Map<ElementId, RelationshipView>, v: ElementView)
    requires
        references_present(els, rels),
        !els.contains_key(v.id),
        v.owner matches Some(o) ==> els.contains_key(o),
    ensures
        expected_nodes(els.insert(v.id, v)) == expected_nodes(els).insert(v.id, node_of(v)),
        expected_edges(els.insert(v.id, v), rels) == match v.owner {
            Some(o) => expected_edges(els, rels).insert(ownership_edge(o, v.id)),
            None => expected_edges(els, rels),
        },
{
    let els2 = els.insert(v.id, v);
    assert(expected_nodes(els2) =~= expected_nodes(els).insert(v.id, node_of(v)));
    let lhs = expected_edges(els2, rels);
    let rhs = match v.owner {
        Some(o) => expected_edges(els, rels).insert(ownership_edge(o, v.id)),
        None => expected_edges(els, rels),
    };
    assert forall|e: ProjectionEdge| #[trigger] lhs.contains(e) == rhs.contains(e) by {
        if is_ownership_edge_of(els2, e) && e.target != v.id {
            assert(els.contains_key(e.target));
            assert(e.source != v.id);
        }
        if is_relationship_edge_of(els2, rels, e) {
            assert(rels.contains_key(e.kind->Relationship_id));
        }
    }
    assert(lhs =~= rhs);
}

/// Renaming an element renames its node and changes no edge.
pub proof fn lemma_expected_rename(
    els: Map<ElementId, ElementView>,
    rels: Map<ElementId, RelationshipView>,
    id: ElementId,
    name: Option<String>,
)
    requires
        els.contains_key(id),
    ensures
        expected_nodes(els.insert(id, ElementView { name, ..els[id] })) == expected_nodes(els).insert(
            id,
            ElementNode { name, ..expected_nodes(els)[id] },
        ),
        expected_edges(els.insert(id, ElementView { name, ..els[id] }), rels) == expected_edges(els, rels),
{
    let els2 = els.insert(id, ElementView { name, ..els[id] });
    assert(expected_nodes(els2) =~= expected_nodes(els).insert(id, ElementNode { name, ..expected_nodes(els)[id] }));
    assert(expected_edges(els2, rels) =~= expected_edges(els, rels));
}

/// Moving an element to another owner replaces its ownership edge.
pub proof fn lemma_expected_reparent(
    els: Map<ElementId, ElementView>,
    rels: Map<ElementId, RelationshipView>,
    id: ElementId,
    new_owner: Option<ElementId>,
)
    requires
        els.contains_key(id),
        new_owner matches Some(o) ==> els.contains_key(o),
    ensures
        expected_nodes(els.insert(id, ElementView { owner: new_owner, ..els[id] })) == expected_nodes(els).insert(
            id,
            ElementNode { owner: new_owner, ..expected_nodes(els)[id] },
        ),
        expected_edges(els.insert(id, ElementView { owner: new_owner, ..els[id] }), rels) == match new_owner {
            Some(o) => expected_edges(els, rels).filter(|pe: ProjectionEdge| !(pe.kind is Ownership && pe.target == id)).insert(
                ownership_edge(o, id),
            ),
            None => expected_edges(els, rels).filter(|pe: ProjectionEdge| !(pe.kind is Ownership && pe.target == id)),
        },
{
    let els2 = els.insert(id, ElementView { owner: new_owner, ..els[id] });
    assert(expected_nodes(els2) =~= expected_nodes(els).insert(id, ElementNode { owner: new_owner, ..expected_nodes(els)[id] }));
    let lhs = expected_edges(els2, rels);
    let kept = expected_edges(els, rels).filter(|pe: ProjectionEdge| !(pe.kind is Ownership && pe.target == id));
    let rhs = match new_owner {
        Some(o) => kept.insert(ownership_edge(o, id)),
        None => kept,
    };
    assert forall|e: ProjectionEdge| #[trigger] lhs.contains(e) == rhs.contains(e) by {
    }
    assert(lhs =~= rhs);
}

/// Removing an element that owns nothing and that no relationship has as an
/// endpoint removes its node and the edges at it.
pub proof fn lemma_expected_remove(els: Map<ElementId, ElementView>, rels: Map<ElementId, RelationshipView>, id: ElementId)
    requires
        references_present(els, rels),
        els.contains_key(id),
        forall|x: ElementId| #[trigger] els.contains_key(x) ==> els[x].owner != Some(id),
        forall|r: ElementId| #[trigger] rels.contains_key(r) ==> rels[r].source != id && rels[r].target != id,
    ensures
        expected_nodes(els.remove(id)) == expected_nodes(els).remove(id),
        expected_edges(els.remove(id), rels) == expected_edges(els, rels).filter(
            |pe: ProjectionEdge| pe.source != id && pe.target != id,
        ),
{
    let els2 = els.remove(id);
    assert(expected_nodes(els2) =~= expected_nodes(els).remove(id));
    let lhs = expected_edges(els2, rels);
    let rhs = expected_edges(els, rels).filter(|pe: ProjectionEdge| pe.source != id && pe.target != id);
    assert forall|e: ProjectionEdge| #[trigger] lhs.contains(e) == rhs.contains(e) by {
        if is_relationship_edge_of(els, rels, e) {
            assert(rels.contains_key(e.kind->Relationship_id));
        }
    }
    assert(lhs =~= rhs);
}

/// Adding a relationship between present elements adds its edge.
pub proof fn lemma_expected_add_relationship(els: Map<ElementId, ElementView>, rels: Map<ElementId, RelationshipView>, r: RelationshipView)
    requires
        !rels.contains_key(r.id),
        els.contains_key(r.source),
        els.contains_key(r.target),
    ensures
        expected_edges(els, rels.insert(r.id, r)) == expected_edges(els, rels).insert(relationship_edge(r)),
{
    let lhs = expected_edges(els, rels.insert(r.id, r));
    let rhs = expected_edges(els, rels).insert(relationship_edge(r));
    assert forall|e: ProjectionEdge| #[trigger] lhs.contains(e) == rhs.contains(e) by {
        if is_relationship_edge_of(els, rels.insert(r.id, r), e) && e.kind->Relationship_id != r.id {
            assert(rels.contains_key(e.kind->Relationship_id));
        }
    }
    assert(lhs =~= rhs);
}

/// Removing a relationship removes its edge.
pub proof fn lemma_expected_remove_relationship(els: Map<ElementId, ElementView>, rels: Map<ElementId, RelationshipView>, id: ElementId)
    ensures
        expected_edges(els, rels.remove(id)) == expected_edges(els, rels).filter(
            |pe: ProjectionEdge| !(pe.kind is Relationship && pe.kind->Relationship_id == id),
        ),
{
    let lhs = expected_edges(els, rels.remove(id));
    let rhs = expected_edges(els, rels).filter(|pe: ProjectionEdge| !(pe.kind is Relationship && pe.kind->Relationship_id == id));
    assert forall|e: ProjectionEdge| #[trigger] lhs.contains(e) == rhs.contains(e) by {
    }
    assert(lhs =~= rhs);
}

/// The ownership edges into the elements of `targets` whose owner is among
/// `all`.
pub open spec fn ownership_part(targets: Map<ElementId, ElementView>, all: Map<ElementId, ElementView>) -> Set<ProjectionEdge> {
    Set::new(|e: ProjectionEdge| {
        &&& e.kind is Ownership
        &&& targets.contains_key(e.target)
        &&& all.contains_key(e.source)
        &&& targets[e.target].owner == Some(e.source)
    })
}

/// The edges of the relationships of `rels` whose endpoints are among `all`.
pub open spec fn relationship_part(rels: Map<ElementId, RelationshipView>, all: Map<ElementId, ElementView>) -> Set<ProjectionEdge> {
    Set::new(|e: ProjectionEdge| is_relationship_edge_of(all, rels, e))
}

impl Projection {
    /// Build the projection of the given tables: a node per element, then an
    /// ownership edge per element whose owner is present, then an edge per
    /// relationship whose endpoints are present.
    pub fn from_tables(elements: &Vec<ElementView>, relationships: &Vec<RelationshipView>) -> (p: Projection)
        requires
            unique_keys(elements@),
            unique_keys(relationships@),
        ensures
            p.wf(),
            p.node_view() == expected_nodes(keyed_map(elements@)),
            p.edge_view() == expected_edges(keyed_map(elements@), keyed_map(relationships@)),
            p.nodes() == elements@.map_values(|v: ElementView| node_of(v)),
    {
        let ghost all = keyed_map(elements@);
        let ghost all_rels = keyed_map(relationships@);
        let mut p = Projection::new();
        let n = elements.len();
        let mut i: usize = 0;
        proof {
            assert(elements@.take(0) =~= Seq::<ElementView>::empty());
            assert(keyed_map(elements@.take(0)) =~= Map::<ElementId, ElementView>::empty());
            assert(expected_nodes(keyed_map(elements@.take(0))) =~= Map::<ElementId, ElementNode>::empty());
            assert(elements@.take(0).map_values(|v: ElementView| node_of(v)) =~= Seq::<ElementNode>::empty());
        }
        while i < n
            invariant
                n == elements@.len(),
                i <= n,
                unique_keys(elements@),
                p.wf(),
                p.node_view() == expected_nodes(keyed_map(elements@.take(i as int))),
                p.edge_view() == Set::<ProjectionEdge>::empty(),
                p.nodes() == elements@.take(i as int).map_values(|v: ElementView| node_of(v)),
            decreases n - i,
        {
            proof {
                lemma_keyed_take_step(elements@, i as int);
            }
            p.add_node(&elements[i]);
            assert(elements@.take(i + 1).map_values(|v: ElementView| node_of(v)) =~= elements@.take(i as int).map_values(
                |v: ElementView| node_of(v),
            ).push(node_of(elements@[i as int])));
            proof {
                assert(expected_nodes(keyed_map(elements@.take(i + 1))) =~= expected_nodes(keyed_map(elements@.take(i as int))).insert(
                    elements@[i as int].id,
                    node_of(elements@[i as int]),
                ));
            }
            i = i + 1;
        }
        assert(elements@.take(n as int) =~= elements@);
        let mut i: usize = 0;
        proof {
            assert(elements@.take(0) =~= Seq::<ElementView>::empty());
            assert(keyed_map(elements@.take(0)) =~= Map::<ElementId, ElementView>::empty());
            assert(ownership_part(keyed_map(elements@.take(0)), all) =~= Set::<ProjectionEdge>::empty());
        }
        while i < n
            invariant
                n == elements@.len(),
                i <= n,
                unique_keys(elements@),
                all == keyed_map(elements@),
                p.wf(),
                p.node_view() == expected_nodes(all),
                p.nodes() == elements@.map_values(|v: ElementView| node_of(v)),
                p.edge_view() == ownership_part(keyed_map(elements@.take(i as int)), all),
            decreases n - i,
        {
            proof {
                lemma_keyed_take_step(elements@, i as int);
                lemma_keyed_index(elements@, i as int);
            }
            let ghost before = keyed_map(elements@.take(i as int));
            let el = &elements[i];
            if let Some(o) = el.owner {
                p.add_ownership_edge(o, el.id);
            }
            proof {
                let after = keyed_map(elements@.take(i + 1));
                let expect = match el.owner {
                    Some(o) => if all.contains_key(o) {
                        ownership_part(before, all).insert(ownership_edge(o, el.id))
                    } else {
                        ownership_part(before, all)
                    },
                    None => ownership_part(before, all),
                };
                assert forall|e: ProjectionEdge| #[trigger] ownership_part(after, all).contains(e) == expect.contains(e) by {
                }
                assert(ownership_part(after, all) =~= expect);
            }
            i = i + 1;
        }
        proof {
            assert(elements@.take(n as int) =~= elements@);
            assert(ownership_part(all, all) =~= Set::new(|e: ProjectionEdge| is_ownership_edge_of(all, e)));
        }
        let m = relationships.len();
        let mut j: usize = 0;
        proof {
            assert(relationships@.take(0) =~= Seq::<RelationshipView>::empty());
            assert(keyed_map(relationships@.take(0)) =~= Map::<ElementId, RelationshipView>::empty());
            assert(relationship_part(keyed_map(relationships@.take(0)), all) =~= Set::<ProjectionEdge>::empty());
        }
        while j < m
            invariant
                m == relationships@.len(),
                j <= m,
                unique_keys(relationships@),
                all == keyed_map(elements@),
                p.wf(),
                p.node_view() == expected_nodes(all),
                p.nodes() == elements@.map_values(|v: ElementView| node_of(v)),
                p.edge_view() == ownership_part(all, all) + relationship_part(keyed_map(relationships@.take(j as int)), all),
            decreases m - j,
        {
            proof {
                lemma_keyed_take_step(relationships@, j as int);
            }
            let ghost before = keyed_map(relationships@.take(j as int));
            let ghost view0 = p.edge_view();
            let r = &relationships[j];
            p.add_relationship(r);
            proof {
                let after = keyed_map(relationships@.take(j + 1));
                assert(after == before.insert(r.id, *r));
                let expect = if all.contains_key(r.source) && all.contains_key(r.target) {
                    relationship_part(before, all).insert(relationship_edge(*r))
                } else {
                    relationship_part(before, all)
                };
                assert forall|e: ProjectionEdge| #[trigger] relationship_part(after, all).contains(e) == expect.contains(e) by {
                    if is_relationship_edge_of(all, after, e) && e.kind->Relationship_id != r.id {
                        assert(before.contains_key(e.kind->Relationship_id));
                    }
                }
                assert(relationship_part(after, all) =~= expect);
                assert(p.edge_view() =~= ownership_part(all, all) + relationship_part(after, all));
            }
            j = j + 1;
        }
        proof {
            assert(relationships@.take(m as int) =~= relationships@);
            assert(p.edge_view() =~= expected_edges(all, all_rels));
        }
        p
    }
}

impl Projection {
    /// Hydrate the projection from the stored rows: a node per element, an
    /// ownership edge per element whose owner is present, an edge per
    /// relationship whose endpoints are present. Fails, with a
    /// `CorruptStore` error, on a row that does not read back and on two
    /// rows with one id.
    pub fn hydrate(elements: &Vec<ElementRow>, relationships: &Vec<RelationshipRow>) -> (r: Result<Projection, Error>)
        ensures
            r is Ok <==> rows_read(elements@, relationships@),
            r matches Ok(p) ==> {
                &&& p.wf()
                &&& p.node_view() == expected_nodes(keyed_map(elements_of_rows(elements@)))
                &&& p.edge_view() == expected_edges(
                    keyed_map(elements_of_rows(elements@)),
                    keyed_map(relationships_of_rows(relationships@)),
                )
            },
            r matches Err(e) ==> corrupt_in(e, "kind"@) || corrupt_in(e, "id"@),
            (forall|j: int| 0 <= j < elements@.len() ==> #[trigger] kind_of_name(elements@[j].kind@) is Some)
            ==> (r matches Err(e) ==> corrupt_in(e, "id"@)),
    {
        let els = read_element_rows(elements)?;
        let rels = read_relationship_rows(relationships)?;
        Ok(Projection::from_tables(&els, &rels))
    }

    /// Rebuild the projection from the stored rows, discarding the graph held
    /// so far: the rows are the source of truth. On a row that does not read
    /// back the projection is left as it was.
    pub fn rebuild(&mut self, elements: &Vec<ElementRow>, relationships: &Vec<RelationshipRow>) -> (r: Result<(), Error>)
        ensures
            r is Ok <==> rows_read(elements@, relationships@),
            r is Ok ==> {
                &&& final(self).wf()
                &&& final(self).node_view() == expected_nodes(keyed_map(elements_of_rows(elements@)))
                &&& final(self).edge_view() == expected_edges(
                    keyed_map(elements_of_rows(elements@)),
                    keyed_map(relationships_of_rows(relationships@)),
                )
            },
            r is Err ==> *final(self) == *old(self),
    {
        let p = Projection::hydrate(elements, relationships)?;
        *self = p;
        Ok(())
    }
}

/// Every element and relationship row reads back, and no two rows of a
/// table share an id.
pub open spec fn rows_read(elements: Seq<ElementRow>, relationships: Seq<RelationshipRow>) -> bool {
    &&& element_rows_read(elements)
    &&& unique_keys(elements_of_rows(elements))
    &&& relationship_rows_read(relationships)
    &&& unique_keys(relationships_of_rows(relationships))
}

} // verus!
