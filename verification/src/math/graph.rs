//! Graph module.
//!
//! Provides traits and implementations supporting basic Graph representation
//! and operations, such as graph mutation and path finding.
//!
//! `view` holds the graph as a mathematical object, `reach` its walks and
//! distances, `search` the breadth-first order. `elements`, `mutators`,
//! `traversal` and `pathfinding` hold what runs.

use crate::math::graph::elements::EdgeDescriptor;
use crate::math::graph::elements::GraphElement;
use crate::math::graph::elements::VertexDescriptor;
use crate::math::graph::search::Transition;
pub use crate::math::graph::view::GraphView;
use crate::utility::idregistry::Identifier;
use crate::utility::idregistry::IdentifierRegistry;
use std::collections::HashMap;
use std::collections::VecDeque;
use vstd::prelude::*;
use vstd::std_specs::hash::group_hash_axioms;
use vstd::std_specs::iter::IteratorSpec;

pub mod elements;
pub mod mutators;
pub mod pathfinding;
pub mod reach;
pub mod search;
pub mod traversal;
pub mod view;

verus! {

/// Graph Mutator trait.
///
/// A graph mutator moves the input graph and mutates it according to some rule
/// to produce a new graph. The old graph is consumed. A mutator works once.
pub trait GraphMutator<
    Id: Identifier,
    Data: Clone,
    WeightData: Clone,
    Registry: IdentifierRegistry<Id>,
> {
    /// The mutator has not been used yet, and `graph` is one it can change.
    spec fn applicable(&self, graph: &Graph<Id, Data, WeightData, Registry>) -> bool;

    /// What one use does, in full: how the mutator `next` and the graph
    /// `after` follow from the mutator and the graph `before`.
    spec fn mutates(
        &self,
        next: &Self,
        before: &Graph<Id, Data, WeightData, Registry>,
        after: &Graph<Id, Data, WeightData, Registry>,
    ) -> bool;

    fn mutate(&mut self, graph: Graph<Id, Data, WeightData, Registry>) -> (mutated: Graph<
        Id,
        Data,
        WeightData,
        Registry,
    >)
        requires
            graph.wf(),
            old(self).applicable(&graph),
        ensures
            mutated.wf(),
            old(self).mutates(final(self), &graph, &mutated),
            forall|any: Graph<Id, Data, WeightData, Registry>| !#[trigger] final(self).applicable(&any),
    ;
}

/// Walk.
///
/// Stores a list of vertices (and transiting edges) that move from one vertex
/// to another in a graph.
pub struct Walk<'a, Id: Identifier, Data: Clone, WeightData: Clone> {
    vertices: VecDeque<&'a VertexDescriptor<Id, Data>>,
    edges: VecDeque<&'a EdgeDescriptor<Id, WeightData>>,
}

impl<'a, Id: Identifier, Data: Clone, WeightData: Clone> Walk<'a, Id, Data, WeightData> {
    /// The vertices of the walk, from the first to the last.
    pub closed spec fn vertex_list(&self) -> Seq<&'a VertexDescriptor<Id, Data>> {
        self.vertices@
    }

    /// The edges of the walk: the edge at `i` leads from the vertex at `i` to
    /// the vertex at `i + 1`.
    pub closed spec fn edge_list(&self) -> Seq<&'a EdgeDescriptor<Id, WeightData>> {
        self.edges@
    }

    /// The vertices of the walk, from the first to the last.
    pub fn vertices(&self) -> (vertices: &VecDeque<&'a VertexDescriptor<Id, Data>>)
        ensures
            vertices@ == self.vertex_list(),
    {
        &self.vertices
    }

    /// The edges of the walk, in the order in which they are crossed.
    pub fn edges(&self) -> (edges: &VecDeque<&'a EdgeDescriptor<Id, WeightData>>)
        ensures
            edges@ == self.edge_list(),
    {
        &self.edges
    }

    /// The vertex at `i` is a vertex of `graph`, with its payload.
    pub open spec fn stands(&self, graph: GraphView<Id, Data, WeightData>, i: int) -> bool {
        let vertex = self.vertex_list()[i];
        &&& graph.vertices.contains_key(vertex.spec_id())
        &&& graph.vertices[vertex.spec_id()] == vertex.spec_data()
    }

    /// The edge at `i` is an edge of `graph`, with its payload, and one of
    /// the links that leave the vertex at `i` leads over it to the vertex at
    /// `i + 1`.
    pub open spec fn crosses(&self, graph: GraphView<Id, Data, WeightData>, i: int) -> bool {
        let edge = self.edge_list()[i];
        &&& graph.edges.contains_key(edge.spec_id())
        &&& graph.edges[edge.spec_id()] == edge.spec_data()
        &&& graph.out_links(self.vertex_list()[i].spec_id()).contains(
            (edge.spec_id(), self.vertex_list()[i + 1].spec_id()),
        )
    }

    /// The walk leads through `graph` from `from` to `to`.
    pub open spec fn leads(&self, graph: GraphView<Id, Data, WeightData>, from: Id, to: Id) -> bool {
        &&& self.vertex_list().len() == self.edge_list().len() + 1
        &&& self.vertex_list().first().spec_id() == from
        &&& self.vertex_list().last().spec_id() == to
        &&& forall|i: int| 0 <= i < self.vertex_list().len() ==> #[trigger] self.stands(graph, i)
        &&& forall|i: int| 0 <= i < self.edge_list().len() ==> #[trigger] self.crosses(graph, i)
    }

    /// The transition that crosses the edge at `i`.
    pub open spec fn transition(&self, i: int) -> Transition<Id> {
        Transition {
            via: Some((self.vertex_list()[i].spec_id(), self.edge_list()[i].spec_id())),
            vertex: self.vertex_list()[i + 1].spec_id(),
        }
    }

    /// Every step of the walk is one of the transitions `steps`.
    pub open spec fn follows(&self, steps: Seq<Transition<Id>>) -> bool {
        forall|i: int| 0 <= i < self.edge_list().len() ==> steps.contains(#[trigger] self.transition(i))
    }
}

/// What a traversal shows to a visitor: a vertex with its payload, or an edge
/// with its payload and the vertices at its ends.
pub enum Visit<Id, Data, WeightData> {
    Vertex { id: Id, data: Data },
    Edge { from: Id, edge: Id, weight: WeightData, to: Id },
}

impl<Id, Data, WeightData> Visit<Id, Data, WeightData> {
    /// This is the visit of `vertex`.
    pub open spec fn enters(self, vertex: Id) -> bool {
        match self {
            Visit::Vertex { id, .. } => id == vertex,
            Visit::Edge { .. } => false,
        }
    }

    /// This is the visit of an edge that leads to `vertex`.
    pub open spec fn leads_to(self, vertex: Id) -> bool {
        match self {
            Visit::Vertex { .. } => false,
            Visit::Edge { to, .. } => to == vertex,
        }
    }
}

/// `trace` holds the visit of `vertex`.
pub open spec fn entered<Id, Data, WeightData>(
    trace: Seq<Visit<Id, Data, WeightData>>,
    vertex: Id,
) -> bool {
    exists|k: int| 0 <= k < trace.len() && (#[trigger] trace[k]).enters(vertex)
}

/// The order in which a traversal shows things: first a vertex; an edge only
/// after a vertex, from a vertex already shown to one not yet shown; and
/// after an edge the vertex that it leads to.
pub open spec fn may_visit<Id, Data, WeightData>(
    trace: Seq<Visit<Id, Data, WeightData>>,
    next: Visit<Id, Data, WeightData>,
) -> bool {
    match next {
        Visit::Vertex { id, .. } => trace.len() == 0 || trace.last().leads_to(id),
        Visit::Edge { from, to, .. } => {
            &&& trace.len() > 0
            &&& trace.last() is Vertex
            &&& entered(trace, from)
            &&& !entered(trace, to)
        },
    }
}

/// Graph Visitor trait.
///
/// Provides an adapter to graph algorithms that allow for custom logic when
/// traversing a graph. A traversal resets the visitor, then shows it vertices
/// and edges in the order that `may_visit` allows, and asks before each
/// transition whether to stop. `trace` is what the visitor was shown since
/// the reset; whether it asks to stop depends on that and on how it was set
/// up, not on anything else.
///
/// The bodies given to the specification functions here are those of a
/// visitor that states nothing of itself; a visitor that is verified states
/// its own.
pub trait GraphVisitor<'a, Id, Data, WeightData>: Sized where
    Id: Identifier,
    Data: Clone,
    WeightData: Clone,
 {
    /// The visitor's own consistency.
    open spec fn inv(&self) -> bool {
        true
    }

    /// What the visitor was shown since the last reset, in order.
    open spec fn trace(&self) -> Seq<Visit<Id, Data, WeightData>> {
        Seq::empty()
    }

    /// A visitor set up as this one asks to stop once it has been shown
    /// `trace`.
    open spec fn stops_on(&self, trace: Seq<Visit<Id, Data, WeightData>>) -> bool {
        false
    }

    /// The visitor accepts a traversal that begins at `source`.
    open spec fn starts_at(&self, source: Id) -> bool {
        true
    }

    /// The visitor as it was set up: what no visit and no reset changes.
    open spec fn setup(&self) -> Self {
        *self
    }

    fn reset(&mut self)
        requires
            old(self).inv(),
        ensures
            final(self).inv(),
            final(self).trace() == Seq::<Visit<Id, Data, WeightData>>::empty(),
            final(self).setup() == old(self).setup(),
    ;

    fn visit_vertex(&mut self, vertex: &'a VertexDescriptor<Id, Data>)
        requires
            old(self).inv(),
            may_visit(
                old(self).trace(),
                Visit::Vertex { id: vertex.spec_id(), data: vertex.spec_data() },
            ),
            old(self).trace().len() == 0 ==> old(self).setup().starts_at(vertex.spec_id()),
        ensures
            final(self).inv(),
            final(self).trace() == old(self).trace().push(
                Visit::Vertex { id: vertex.spec_id(), data: vertex.spec_data() },
            ),
            final(self).setup() == old(self).setup(),
    ;

    fn visit_edge(
        &mut self,
        vertex_from: Id,
        edge: &'a EdgeDescriptor<Id, WeightData>,
        vertex_to: Id,
    )
        requires
            old(self).inv(),
            may_visit(
                old(self).trace(),
                Visit::Edge {
                    from: vertex_from,
                    edge: edge.spec_id(),
                    weight: edge.spec_data(),
                    to: vertex_to,
                },
            ),
        ensures
            final(self).inv(),
            final(self).trace() == old(self).trace().push(
                Visit::Edge {
                    from: vertex_from,
                    edge: edge.spec_id(),
                    weight: edge.spec_data(),
                    to: vertex_to,
                },
            ),
            final(self).setup() == old(self).setup(),
    ;

    fn should_terminate(&self) -> (stop: bool)
        requires
            self.inv(),
        ensures
            stop == self.setup().stops_on(self.trace()),
    ;
}

/// Graph data structure.
///
/// Stores a digraph, including both forward edges (that reside in the graph)
/// and backward edges (not in the digraph), and maintains a bidirectional
/// registry mapping the vertices and edges to their identifiers; this allows
/// users to store the data associated with their vertices and edges in the
/// graph while primarily working with the (hopefully lightweight) identifiers.
pub struct Graph<Id: Identifier, Data: Clone, WeightData: Clone, Registry: IdentifierRegistry<Id>> {
    vertex_id_registry: Registry,
    edge_id_registry: Registry,
    vertices: HashMap<Id, VertexDescriptor<Id, Data>>,
    edges: HashMap<Id, EdgeDescriptor<Id, WeightData>>,
    forward_edges: HashMap<Id, Vec<(Id, Id)>>,
    backward_edges: HashMap<Id, Vec<(Id, Id)>>,
}

impl<Id: Identifier, Data: Clone, WeightData: Clone, Registry: IdentifierRegistry<Id>> View for Graph<
    Id,
    Data,
    WeightData,
    Registry,
> {
    type V = GraphView<Id, Data, WeightData>;

    closed spec fn view(&self) -> GraphView<Id, Data, WeightData> {
        GraphView {
            vertices: Map::new(
                |id: Id| self.vertices@.contains_key(id),
                |id: Id| self.vertices@[id].spec_data(),
            ),
            edges: Map::new(
                |id: Id| self.edges@.contains_key(id),
                |id: Id| self.edges@[id].spec_data(),
            ),
            forward: Map::new(
                |id: Id| self.forward_edges@.contains_key(id),
                |id: Id| self.forward_edges@[id]@,
            ),
            backward: Map::new(
                |id: Id| self.backward_edges@.contains_key(id),
                |id: Id| self.backward_edges@[id]@,
            ),
        }
    }
}

impl<Id: Identifier, Registry: IdentifierRegistry<Id>, Data: Clone, WeightData: Clone> Graph<
    Id,
    Data,
    WeightData,
    Registry,
> {
    /// The registry that names the vertices.
    pub closed spec fn vertex_registry(&self) -> Registry {
        self.vertex_id_registry
    }

    /// The registry that names the edges.
    pub closed spec fn edge_registry(&self) -> Registry {
        self.edge_id_registry
    }

    /// The graph's invariant: both registries are consistent, every
    /// descriptor is stored under its own identifier, the identifiers in use
    /// are held in the registries, and the view is well formed.
    pub closed spec fn wf(&self) -> bool {
        &&& self.vertex_id_registry.wf()
        &&& self.edge_id_registry.wf()
        &&& forall|id: Id| #[trigger]
            self.vertices@.contains_key(id) ==> self.vertices@[id].spec_id() == id
                && self.vertex_id_registry.held().contains(id)
        &&& forall|id: Id| #[trigger]
            self.edges@.contains_key(id) ==> self.edges@[id].spec_id() == id
                && self.edge_id_registry.held().contains(id)
        &&& self@.well_formed()
    }

    /// What a consistent graph guarantees to those who see only its view.
    pub proof fn lemma_wf(&self)
        requires
            self.wf(),
        ensures
            self@.well_formed(),
            self.vertex_registry().wf(),
            self.edge_registry().wf(),
            self@.vertices.dom().subset_of(self.vertex_registry().held()),
            self@.edges.dom().subset_of(self.edge_registry().held()),
    {
    }

    /// `neighbours` describes `links`, one for one: each pair holds the
    /// graph's descriptors of the link's edge and of the link's vertex.
    pub open spec fn describes(
        &self,
        neighbours: Seq<(&EdgeDescriptor<Id, WeightData>, &VertexDescriptor<Id, Data>)>,
        links: Seq<(Id, Id)>,
    ) -> bool {
        &&& neighbours.len() == links.len()
        &&& forall|i: int|
            0 <= i < links.len() ==> {
                &&& (#[trigger] neighbours[i]).0.spec_id() == links[i].0
                &&& neighbours[i].0.spec_data() == self@.edges[links[i].0]
                &&& neighbours[i].1.spec_id() == links[i].1
                &&& neighbours[i].1.spec_data() == self@.vertices[links[i].1]
            }
    }

    /// Creates a new (empty) graph with the given registries.
    pub fn new(vertex_registry: Registry, edge_registry: Registry) -> (graph: Graph<
        Id,
        Data,
        WeightData,
        Registry,
    >)
        requires
            vertex_registry.wf(),
            edge_registry.wf(),
        ensures
            graph.wf(),
            graph@ == GraphView::<Id, Data, WeightData>::empty(),
            graph.vertex_registry() == vertex_registry,
            graph.edge_registry() == edge_registry,
    {
        let graph = Graph {
            vertex_id_registry: vertex_registry,
            edge_id_registry: edge_registry,
            vertices: HashMap::new(),
            edges: HashMap::new(),
            forward_edges: HashMap::new(),
            backward_edges: HashMap::new(),
        };
        proof {
            let view = graph@;
            assert(view.vertices =~= Map::empty());
            assert(view.edges =~= Map::empty());
            assert(view.forward =~= Map::empty());
            assert(view.backward =~= Map::empty());
            assert forall|from: Id, edge: Id, to: Id|
                view.out_links(from).contains((edge, to)) <==> view.in_links(to).contains(
                    (edge, from),
                ) by {
                assert(view.out_links(from) =~= Seq::empty());
                assert(view.in_links(to) =~= Seq::empty());
            }
        }
        graph
    }

    /// Get a vertex descriptor by its identifier. The vertex must exist.
    pub fn get_vertex<'a>(&'a self, vertex_id: Id) -> (vertex: &'a VertexDescriptor<Id, Data>)
        requires
            self.wf(),
            self@.vertices.contains_key(vertex_id),
        ensures
            vertex.spec_id() == vertex_id,
            vertex.spec_data() == self@.vertices[vertex_id],
    {
        proof {
            Id::lemma_identifier();
        }
        broadcast use group_hash_axioms;

        self.vertices.get(&vertex_id).expect("Graph does not have the vertex with the given id")
    }

    /// Get an edge descriptor by its identifier. The edge must exist.
    pub fn get_edge<'a>(&'a self, edge_id: Id) -> (edge: &'a EdgeDescriptor<Id, WeightData>)
        requires
            self.wf(),
            self@.edges.contains_key(edge_id),
        ensures
            edge.spec_id() == edge_id,
            edge.spec_data() == self@.edges[edge_id],
    {
        proof {
            Id::lemma_identifier();
        }
        broadcast use group_hash_axioms;

        self.edges.get(&edge_id).expect("Graph does not have the edge with the given id")
    }

    /// The descriptors behind the links that `adjacency` holds for a vertex,
    /// in the order of the links.
    fn describe_links<'a>(&'a self, adjacency: &'a HashMap<Id, Vec<(Id, Id)>>, vertex_id: Id) -> (neighbours:
        Vec<(&'a EdgeDescriptor<Id, WeightData>, &'a VertexDescriptor<Id, Data>)>)
        requires
            self.wf(),
            *adjacency == self.forward_edges || *adjacency == self.backward_edges,
        ensures
            adjacency@.contains_key(vertex_id) ==> self.describes(
                neighbours@,
                adjacency@[vertex_id]@,
            ),
            !adjacency@.contains_key(vertex_id) ==> neighbours@.len() == 0,
    {
        proof {
            Id::lemma_identifier();
        }
        broadcast use group_hash_axioms;

        let mut neighbours = Vec::new();
        match adjacency.get(&vertex_id) {
            None => {},
            Some(links) => {
                let mut i: usize = 0;
                while i < links.len()
                    invariant
                        self.wf(),
                        *adjacency == self.forward_edges || *adjacency == self.backward_edges,
                        adjacency@.contains_key(vertex_id),
                        adjacency@[vertex_id] == *links,
                        i <= links.len(),
                        self.describes(neighbours@, links@.take(i as int)),
                    decreases links.len() - i,
                {
                    let (eid, vid) = links[i];
                    proof {
                        Id::lemma_identifier();
                        if *adjacency == self.forward_edges {
                            assert(self@.holds(vertex_id, self@.forward[vertex_id][i as int]));
                        } else {
                            assert(self@.holds(vertex_id, self@.backward[vertex_id][i as int]));
                        }
                    }
                    let edge = self.edges.get(&eid).expect(
                        "Graph is ill-formed. Expected edge id was not found in graph.",
                    );
                    let vertex = self.vertices.get(&vid).expect(
                        "Graph is ill-formed. Expected vertex id was not found in graph.",
                    );
                    neighbours.push((edge, vertex));
                    i += 1;
                }
                assert(links@.take(i as int) =~= links@);
            },
        }
        neighbours
    }

    /// Returns a list of edges and vertices that are (out) neighbours of the
    /// given vertex.
    pub fn neighbours_of<'a>(&'a self, vertex_id: Id) -> (neighbours: Vec<
        (&'a EdgeDescriptor<Id, WeightData>, &'a VertexDescriptor<Id, Data>),
    >)
        requires
            self.wf(),
        ensures
            self.describes(neighbours@, self@.out_links(vertex_id)),
    {
        self.out_neighbours_of(vertex_id)
    }

    /// Checks if the given vertices are adjacent in the sense that the second
    /// vertex is the out neighbour of the first vertex. Returns true if they
    /// are adjacent, false otherwise.
    pub fn is_adjacent(&self, vertex_from: Id, vertex_to: Id) -> (adjacent: bool)
        requires
            self.wf(),
        ensures
            adjacent == self@.adjacent(vertex_from, vertex_to),
    {
        proof {
            Id::lemma_identifier();
        }
        let neighbours = self.out_neighbours_of(vertex_from);
        let ghost links = self@.out_links(vertex_from);
        let mut i: usize = 0;
        while i < neighbours.len()
            invariant
                i <= neighbours.len(),
                self.describes(neighbours@, links),
                links == self@.out_links(vertex_from),
                forall|j: int| 0 <= j < i ==> (#[trigger] links[j]).1 != vertex_to,
            decreases neighbours.len() - i,
        {
            proof {
                Id::lemma_identifier();
            }
            if *neighbours[i].1.id() == vertex_to {
                assert(links[i as int].1 == vertex_to);
                return true;
            }
            i += 1;
        }
        false
    }

    /// Get an edge descriptor by the vertex it comes from and the vertex it
    /// targets: the edge of the first link from `vertex_from` that leads to
    /// `vertex_to`. Such a link must exist.
    pub fn get_edge_between<'a>(&'a self, vertex_from: Id, vertex_to: Id) -> (edge: &'a EdgeDescriptor<
        Id,
        WeightData,
    >)
        requires
            self.wf(),
            self@.adjacent(vertex_from, vertex_to),
        ensures
            exists|i: int|
                {
                    &&& 0 <= i < self@.out_links(vertex_from).len()
                    &&& (#[trigger] self@.out_links(vertex_from)[i]) == (edge.spec_id(), vertex_to)
                    &&& forall|j: int|
                        0 <= j < i ==> (#[trigger] self@.out_links(vertex_from)[j]).1 != vertex_to
                },
            self@.edges.contains_key(edge.spec_id()),
            edge.spec_data() == self@.edges[edge.spec_id()],
    {
        proof {
            Id::lemma_identifier();
            self.lemma_wf();
        }
        let neighbours = self.out_neighbours_of(vertex_from);
        let ghost links = self@.out_links(vertex_from);
        let ghost found = choose|i: int| 0 <= i < links.len() && (#[trigger] links[i]).1 == vertex_to;
        let count = neighbours.len();
        let mut i: usize = 0;
        loop
            invariant
                i <= found < links.len() == count,
                links[found].1 == vertex_to,
                self.describes(neighbours@, links),
                links == self@.out_links(vertex_from),
                self@.well_formed(),
                forall|j: int| 0 <= j < i ==> (#[trigger] links[j]).1 != vertex_to,
            decreases links.len() - i,
        {
            proof {
                Id::lemma_identifier();
            }
            if *neighbours[i].1.id() == vertex_to {
                proof {
                    assert(links[i as int] == (neighbours[i as int].0.spec_id(), vertex_to));
                    assert(self@.forward.contains_key(vertex_from));
                    assert(self@.holds(vertex_from, self@.forward[vertex_from][i as int]));
                }
                return neighbours[i].0;
            }
            assert(neighbours[i as int].1.spec_id() == links[i as int].1);
            assert(links[i as int].1 != vertex_to);
            assert(i < found < neighbours@.len());
            i += 1;
        }
    }

    /// Returns a list of the out-neighbours of a vertex with the corresponding
    /// edges, in the order in which the edges were added.
    pub fn out_neighbours_of<'a>(&'a self, vertex_id: Id) -> (neighbours: Vec<
        (&'a EdgeDescriptor<Id, WeightData>, &'a VertexDescriptor<Id, Data>),
    >)
        requires
            self.wf(),
        ensures
            self.describes(neighbours@, self@.out_links(vertex_id)),
    {
        self.describe_links(&self.forward_edges, vertex_id)
    }

    /// Returns a list of the in-neighbours of a vertex with the corresponding
    /// edges, in the order in which the edges were added.
    pub fn in_neighbours_of<'a>(&'a self, vertex_id: Id) -> (neighbours: Vec<
        (&'a EdgeDescriptor<Id, WeightData>, &'a VertexDescriptor<Id, Data>),
    >)
        requires
            self.wf(),
        ensures
            self.describes(neighbours@, self@.in_links(vertex_id)),
    {
        self.describe_links(&self.backward_edges, vertex_id)
    }

    /// `vertex` is a vertex of the graph, with its payload.
    pub open spec fn has_vertex(&self, vertex: &VertexDescriptor<Id, Data>) -> bool {
        &&& self@.vertices.contains_key(vertex.spec_id())
        &&& self@.vertices[vertex.spec_id()] == vertex.spec_data()
    }

    /// One of `selected` describes the vertex `id`.
    pub open spec fn lists(selected: Seq<&VertexDescriptor<Id, Data>>, id: Id) -> bool {
        exists|i: int| 0 <= i < selected.len() && (#[trigger] selected[i]).spec_id() == id
    }

    /// What an iteration over the stored descriptors yields: each is a vertex
    /// of the graph, each vertex is there, and none twice.
    proof fn lemma_values_listed(&self, all: Seq<&VertexDescriptor<Id, Data>>)
        requires
            self.wf(),
            all.unref().to_set() == self.vertices@.values(),
            all.len() == self.vertices@.dom().len(),
        ensures
            forall|i: int| 0 <= i < all.len() ==> self.has_vertex(#[trigger] all[i]),
            forall|id: Id| #[trigger] self@.vertices.contains_key(id) ==> Self::lists(all, id),
            forall|i: int, j: int|
                0 <= i < j < all.len() ==> (#[trigger] all[i]).spec_id() != (
                #[trigger] all[j]).spec_id(),
    {
        broadcast use group_hash_axioms;

        let stored = self.vertices@;
        let ids = all.map_values(|vertex: &VertexDescriptor<Id, Data>| vertex.spec_id());
        assert forall|i: int| 0 <= i < all.len() implies self.has_vertex(#[trigger] all[i]) by {
            assert(all.unref()[i] == *all[i]);
            assert(all.unref().to_set().contains(*all[i]));
            assert(stored.contains_value(*all[i]));
            let key = choose|key: Id| stored.dom().contains(key) && stored[key] == *all[i];
            assert(stored.contains_key(key));
        }
        assert forall|id: Id| #[trigger] self@.vertices.contains_key(id) implies Self::lists(
            all,
            id,
        ) by {
            assert(stored.contains_key(id));
            assert(stored.contains_value(stored[id]));
            assert(all.unref().to_set().contains(stored[id]));
            let i = choose|i: int| 0 <= i < all.unref().len() && all.unref()[i] == stored[id];
            assert(all[i].spec_id() == id);
        }
        assert(ids.to_set() =~= stored.dom()) by {
            assert forall|id: Id| ids.to_set().contains(id) <==> stored.dom().contains(id) by {
                if ids.to_set().contains(id) {
                    let i = choose|i: int| 0 <= i < ids.len() && ids[i] == id;
                    assert(self.has_vertex(all[i]));
                }
                if stored.dom().contains(id) {
                    assert(self@.vertices.contains_key(id));
                    let i = choose|i: int|
                        0 <= i < all.len() && (#[trigger] all[i]).spec_id() == id;
                    assert(ids[i] == id);
                }
            }
        }
        ids.lemma_no_dup_set_cardinality();
        assert forall|i: int, j: int| 0 <= i < j < all.len() implies (#[trigger] all[i]).spec_id()
            != (#[trigger] all[j]).spec_id() by {
            assert(ids[i] != ids[j]);
        }
    }

    /// Returns a list of vertices in the graph that satisfy the given
    /// predicate: each vertex on which the predicate returned true, once, in
    /// no particular order. The predicate must accept every payload.
    pub fn select_vertices<'a, F: Fn(&'a Data) -> bool>(&'a self, predicate: F) -> (selected: VecDeque<
        &'a VertexDescriptor<Id, Data>,
    >)
        requires
            self.wf(),
            forall|data: &'a Data| call_requires(predicate, (data,)),
        ensures
            forall|i: int|
                0 <= i < selected@.len() ==> self.has_vertex(#[trigger] selected@[i])
                    && call_ensures(predicate, (&selected@[i].spec_data(),), true),
            forall|i: int, j: int|
                0 <= i < j < selected@.len() ==> (#[trigger] selected@[i]).spec_id() != (
                #[trigger] selected@[j]).spec_id(),
            forall|id: Id| #[trigger]
                self@.vertices.contains_key(id) ==> Self::lists(selected@, id) || call_ensures(
                    predicate,
                    (&self@.vertices[id],),
                    false,
                ),
    {
        proof {
            Id::lemma_identifier();
        }
        broadcast use group_hash_axioms;

        let mut selected: VecDeque<&'a VertexDescriptor<Id, Data>> = VecDeque::new();
        let ghost all = self.vertices.values().remaining();
        let ghost mut origin: Seq<int> = Seq::empty();
        proof {
            self.lemma_values_listed(all);
        }
        for other_desc in values: self.vertices.values()
            invariant
                self.wf(),
                forall|data: &'a Data| call_requires(predicate, (data,)),
                values.seq() == all,
                forall|i: int| 0 <= i < all.len() ==> self.has_vertex(#[trigger] all[i]),
                origin.len() == selected@.len(),
                forall|j: int|
                    0 <= j < origin.len() ==> 0 <= (#[trigger] origin[j]) < values.index()
                        && selected@[j] == all[origin[j]] && call_ensures(
                        predicate,
                        (&selected@[j].spec_data(),),
                        true,
                    ),
                forall|j: int, k: int|
                    0 <= j < k < origin.len() ==> (#[trigger] origin[j]) < (#[trigger] origin[k]),
                forall|i: int|
                    0 <= i < values.index() ==> Self::lists(
                        selected@,
                        (#[trigger] all[i]).spec_id(),
                    ) || call_ensures(predicate, (&all[i].spec_data(),), false),
        {
            let ghost before = selected@;
            let ghost taken = values.index() as int;
            proof {
                assert(other_desc == all[taken]);
            }
            if predicate(other_desc.data()) {
                selected.push_back(other_desc);
                proof {
                    origin = origin.push(taken);
                }
            }
            proof {
                assert forall|i: int| 0 <= i < taken + 1 implies Self::lists(
                    selected@,
                    (#[trigger] all[i]).spec_id(),
                ) || call_ensures(predicate, (&all[i].spec_data(),), false) by {
                    if i < taken && Self::lists(before, all[i].spec_id()) {
                        let j = choose|j: int|
                            0 <= j < before.len() && (#[trigger] before[j]).spec_id()
                                == all[i].spec_id();
                        assert(selected@[j].spec_id() == all[i].spec_id());
                    }
                    if i == taken && selected@.len() > before.len() {
                        assert(selected@[before.len() as int].spec_id() == all[i].spec_id());
                    }
                }
            }
        }
        proof {
            self.lemma_values_listed(all);
            assert forall|i: int| 0 <= i < selected@.len() implies self.has_vertex(
                #[trigger] selected@[i],
            ) && call_ensures(predicate, (&selected@[i].spec_data(),), true) by {
                assert(selected@[i] == all[origin[i]]);
            }
            assert forall|i: int, j: int| 0 <= i < j < selected@.len() implies (
            #[trigger] selected@[i]).spec_id() != (#[trigger] selected@[j]).spec_id() by {
                assert(origin[i] < origin[j]);
                assert(selected@[i] == all[origin[i]]);
                assert(selected@[j] == all[origin[j]]);
            }
            assert forall|id: Id| #[trigger] self@.vertices.contains_key(id) implies Self::lists(
                selected@,
                id,
            ) || call_ensures(predicate, (&self@.vertices[id],), false) by {
                let i = choose|i: int| 0 <= i < all.len() && (#[trigger] all[i]).spec_id() == id;
                assert(self.has_vertex(all[i]));
            }
        }
        selected
    }

    /// Creates a graph with the same vertices and edges except the edges
    /// are reversed.
    pub fn reverse_graph(self) -> (reversed: Graph<Id, Data, WeightData, Registry>)
        requires
            self.wf(),
        ensures
            reversed.wf(),
            reversed@ == self@.reversed(),
            reversed.vertex_registry() == self.vertex_registry(),
            reversed.edge_registry() == self.edge_registry(),
    {
        let reversed = Graph {
            vertex_id_registry: self.vertex_id_registry,
            edge_id_registry: self.edge_id_registry,
            vertices: self.vertices,
            edges: self.edges,
            forward_edges: self.backward_edges,
            backward_edges: self.forward_edges,
        };
        proof {
            assert(reversed@.vertices =~= self@.vertices);
            assert(reversed@.edges =~= self@.edges);
            assert(reversed@.forward =~= self@.backward);
            assert(reversed@.backward =~= self@.forward);
            assert(reversed@ == self@.reversed());
            self@.lemma_reversed();
        }
        reversed
    }
}

} // verus!

verus! {

/// Vertex Collector.
///
/// Collects vertices as they are visited, in order, by reference: those whose
/// payload the selector accepts.
pub struct VertexCollector<
    'a,
    Id: Identifier,
    Data: Clone + PartialEq,
    WeightData: Clone + PartialEq,
    F: Fn(&Data) -> bool,
> {
    vertices: VecDeque<&'a VertexDescriptor<Id, Data>>,
    selector: F,
    trace: Ghost<Seq<Visit<Id, Data, WeightData>>>,
}

impl<
    'a,
    Id: Identifier,
    Data: Clone + PartialEq,
    WeightData: Clone + PartialEq,
    F: Fn(&Data) -> bool,
> VertexCollector<'a, Id, Data, WeightData, F> {
    /// The selector of this collector.
    pub closed spec fn selector(&self) -> F {
        self.selector
    }

    /// The vertices collected so far, in order.
    pub closed spec fn collected(&self) -> Seq<&'a VertexDescriptor<Id, Data>> {
        self.vertices@
    }

    /// `chosen` is what a collector with the selector `selector` holds after
    /// `trace`: for each vertex of the trace on which the selector returned
    /// true, in order, a descriptor with the identifier and the payload that
    /// were shown; on every other vertex the selector returned false.
    pub open spec fn picks(
        selector: F,
        trace: Seq<Visit<Id, Data, WeightData>>,
        chosen: Seq<&'a VertexDescriptor<Id, Data>>,
    ) -> bool
        decreases trace.len(),
    {
        if trace.len() == 0 {
            chosen.len() == 0
        } else {
            match trace.last() {
                Visit::Edge { .. } => Self::picks(selector, trace.drop_last(), chosen),
                Visit::Vertex { id, data } => {
                    ||| {
                        &&& chosen.len() > 0
                        &&& chosen.last().spec_id() == id
                        &&& chosen.last().spec_data() == data
                        &&& call_ensures(selector, (&data,), true)
                        &&& Self::picks(selector, trace.drop_last(), chosen.drop_last())
                    }
                    ||| {
                        &&& call_ensures(selector, (&data,), false)
                        &&& Self::picks(selector, trace.drop_last(), chosen)
                    }
                },
            }
        }
    }

    /// A collector that has seen nothing. The selector must accept every
    /// payload as its argument.
    pub fn new(selector: F) -> (collector: Self)
        requires
            forall|data: &Data| call_requires(selector, (data,)),
        ensures
            collector.inv(),
            collector.selector() == selector,
            forall|source: Id| #[trigger] collector.setup().starts_at(source),
            collector.trace() == Seq::<Visit<Id, Data, WeightData>>::empty(),
            collector.collected() == Seq::<&'a VertexDescriptor<Id, Data>>::empty(),
    {
        VertexCollector { vertices: VecDeque::new(), selector: selector, trace: Ghost(Seq::empty()) }
    }

    /// The vertices collected since the last reset, in the order in which
    /// they were visited.
    pub fn vertices(&self) -> (vertices: &VecDeque<&'a VertexDescriptor<Id, Data>>)
        ensures
            vertices@ == self.collected(),
    {
        &self.vertices
    }

    /// Collectors that are set up alike have the same selector.
    pub proof fn lemma_setup(&self, other: &Self)
        requires
            self.setup() == other.setup(),
        ensures
            self.selector() == other.selector(),
    {
    }

    /// A collector accepts any source and never asks to stop.
    pub proof fn lemma_never_stops(&self, source: Id, trace: Seq<Visit<Id, Data, WeightData>>)
        ensures
            self.starts_at(source),
            !self.stops_on(trace),
    {
    }

    /// A consistent collector holds what `picks` says of its trace.
    pub proof fn lemma_collected(&self)
        requires
            self.inv(),
        ensures
            Self::picks(self.selector(), self.trace(), self.collected()),
    {
    }
}

impl<
    'a,
    Id: Identifier,
    Data: Clone + PartialEq,
    WeightData: Clone + PartialEq,
    F: Fn(&Data) -> bool,
> GraphVisitor<'a, Id, Data, WeightData> for VertexCollector<'a, Id, Data, WeightData, F> {
    closed spec fn inv(&self) -> bool {
        &&& forall|data: &Data| call_requires(self.selector, (data,))
        &&& Self::picks(self.selector, self.trace@, self.vertices@)
    }

    closed spec fn trace(&self) -> Seq<Visit<Id, Data, WeightData>> {
        self.trace@
    }

    /// A collector never asks to stop.
    open spec fn stops_on(&self, trace: Seq<Visit<Id, Data, WeightData>>) -> bool {
        false
    }

    /// A collector accepts any source.
    open spec fn starts_at(&self, source: Id) -> bool {
        true
    }

    /// A collector is set up with its selector.
    closed spec fn setup(&self) -> Self {
        VertexCollector {
            vertices: arbitrary(),
            selector: self.selector,
            trace: Ghost(Seq::empty()),
        }
    }

    fn reset(&mut self)
        ensures
            final(self).collected() == Seq::<&'a VertexDescriptor<Id, Data>>::empty(),
    {
        self.vertices = VecDeque::new();
        self.trace = Ghost(Seq::empty());
    }

    fn visit_vertex(&mut self, vertex: &'a VertexDescriptor<Id, Data>) {
        let ghost before = self.trace@;
        let ghost chosen = self.vertices@;
        proof {
            self.trace@ = before.push(
                Visit::Vertex { id: vertex.spec_id(), data: vertex.spec_data() },
            );
            assert(self.trace@.drop_last() =~= before);
        }
        if (self.selector)(vertex.data()) {
            self.vertices.push_back(vertex);
            assert(self.vertices@.drop_last() =~= chosen);
        }
    }

    fn visit_edge(&mut self, vertex_from: Id, edge: &'a EdgeDescriptor<Id, WeightData>, vertex_to: Id)
        ensures
            final(self).collected() == old(self).collected(),
    {
        let ghost before = self.trace@;
        proof {
            self.trace@ = before.push(
                Visit::Edge {
                    from: vertex_from,
                    edge: edge.spec_id(),
                    weight: edge.spec_data(),
                    to: vertex_to,
                },
            );
            assert(self.trace@.drop_last() =~= before);
        }
    }

    fn should_terminate(&self) -> (stop: bool) {
        false
    }
}

} // verus!
