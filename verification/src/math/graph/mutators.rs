//! Graph Mutators module.
//!
//! Provides implementations of fundamental mutators of a graph.

use crate::math::graph::elements::make_edge;
use crate::math::graph::elements::make_vertex;
use crate::math::graph::elements::GraphElement;
use crate::math::graph::Graph;
use crate::math::graph::GraphMutator;
use crate::utility::idregistry::Identifier;
use crate::utility::idregistry::IdentifierRegistry;
use std::marker::PhantomData;
use vstd::prelude::*;
use vstd::std_specs::hash::group_hash_axioms;

verus! {

/// Adds one vertex with a given payload.
pub struct GraphVertexAdditionMutator<Id: Identifier, Data: Clone> {
    vertex_id: Option<Id>,
    vertex_data: Option<Data>,
}

/// Replaces the payload of one vertex by what an operator makes of it.
#[verifier::reject_recursive_types(Data)]
pub struct GraphVertexReplacementMutator<
    Id: Identifier,
    Data: Clone,
    Operator: FnOnce(Data) -> Data,
> {
    vertex_id: Option<Id>,
    vertex_operator: Option<Operator>,
    _data: PhantomData<Data>,
}

/// Adds one edge with a given payload between two vertices.
pub struct GraphEdgeAdditionMutator<Id: Identifier, Data: Clone> {
    edge_id: Option<Id>,
    edge_desc: Option<(Id, Data, Id)>,
}

impl<Id: Identifier, Data: Clone> GraphVertexAdditionMutator<Id, Data> {
    /// The payload that the mutator will add, until it is used.
    pub closed spec fn pending(&self) -> Option<Data> {
        self.vertex_data
    }

    /// The identifier of the vertex that the mutator added, once it is used.
    pub closed spec fn added(&self) -> Option<Id> {
        self.vertex_id
    }

    fn new(data: Data) -> (mutator: Self)
        ensures
            mutator.pending() == Some(data),
            mutator.added() is None,
    {
        GraphVertexAdditionMutator { vertex_id: None, vertex_data: Some(data) }
    }
}

impl<Id: Identifier, Data: Clone, Operator: FnOnce(Data) -> Data> GraphVertexReplacementMutator<
    Id,
    Data,
    Operator,
> {
    /// The vertex whose payload the mutator replaces.
    pub closed spec fn target(&self) -> Option<Id> {
        self.vertex_id
    }

    /// The operator that the mutator will apply, until it is used.
    pub closed spec fn pending(&self) -> Option<Operator> {
        self.vertex_operator
    }

    fn new(id: Id, operator: Operator) -> (mutator: Self)
        ensures
            mutator.target() == Some(id),
            mutator.pending() == Some(operator),
    {
        GraphVertexReplacementMutator {
            vertex_id: Some(id),
            vertex_operator: Some(operator),
            _data: PhantomData,
        }
    }
}

impl<Id: Identifier, Data: Clone> GraphEdgeAdditionMutator<Id, Data> {
    /// The source, payload and target of the edge that the mutator will add,
    /// until it is used.
    pub closed spec fn pending(&self) -> Option<(Id, Data, Id)> {
        self.edge_desc
    }

    /// The identifier of the edge that the mutator added, once it is used.
    pub closed spec fn added(&self) -> Option<Id> {
        self.edge_id
    }

    fn new(vfrom: Id, data: Data, vto: Id) -> (mutator: Self)
        ensures
            mutator.pending() == Some((vfrom, data, vto)),
            mutator.added() is None,
    {
        GraphEdgeAdditionMutator { edge_id: None, edge_desc: Some((vfrom, data, vto)) }
    }
}

impl<
    Id: Identifier,
    Data: Clone,
    WeightData: Clone,
    Registry: IdentifierRegistry<Id>,
> GraphMutator<Id, Data, WeightData, Registry> for GraphVertexAdditionMutator<Id, Data> {
    /// Unused, and the vertex registry can supply an identifier.
    open spec fn applicable(&self, graph: &Graph<Id, Data, WeightData, Registry>) -> bool {
        &&& self.pending() is Some
        &&& !graph.vertex_registry().exhausted()
    }

    /// The vertex registry made one acquisition, and its identifier, new to
    /// the graph, now names a vertex with the pending payload. Nothing else
    /// changed.
    open spec fn mutates(
        &self,
        next: &Self,
        before: &Graph<Id, Data, WeightData, Registry>,
        after: &Graph<Id, Data, WeightData, Registry>,
    ) -> bool {
        &&& next.pending() is None
        &&& next.added() is Some
        &&& before.vertex_registry().acquire_spec(&after.vertex_registry(), Ok(next.added()->0))
        &&& after.edge_registry() == before.edge_registry()
        &&& !before@.vertices.contains_key(next.added()->0)
        &&& after@ == before@.with_vertex(next.added()->0, self.pending()->0)
    }

    fn mutate(&mut self, graph: Graph<Id, Data, WeightData, Registry>) -> (mutated: Graph<
        Id,
        Data,
        WeightData,
        Registry,
    >) {
        proof {
            Id::lemma_identifier();
        }
        broadcast use group_hash_axioms;

        let data = self.vertex_data.take().expect(
            "Vertex addition mutator has already been used.",
        );

        let mut vertex_registry = graph.vertex_id_registry;
        let mut vertices = graph.vertices;

        let new_id = vertex_registry.acquire_id().expect(
            "Unable to acquire new identifier for new vertex.",
        );
        self.vertex_id = Some(new_id);

        let vertex = make_vertex(new_id, data);
        vertices.insert(new_id, vertex);

        let mutated = Graph {
            vertex_id_registry: vertex_registry,
            edge_id_registry: graph.edge_id_registry,
            vertices: vertices,
            edges: graph.edges,
            forward_edges: graph.forward_edges,
            backward_edges: graph.backward_edges,
        };
        proof {
            let next = graph@.with_vertex(new_id, data);
            assert(mutated@.vertices =~= next.vertices);
            assert(mutated@.edges =~= next.edges);
            assert(mutated@.forward =~= next.forward);
            assert(mutated@.backward =~= next.backward);
            graph@.lemma_with_vertex(new_id, data);
        }
        mutated
    }
}

impl<
    Id: Identifier,
    Data: Clone,
    WeightData: Clone,
    Registry: IdentifierRegistry<Id>,
    Operator: FnOnce(Data) -> Data,
> GraphMutator<Id, Data, WeightData, Registry> for GraphVertexReplacementMutator<
    Id,
    Data,
    Operator,
> {
    /// Unused, the vertex is in the graph, and the operator accepts its
    /// payload.
    open spec fn applicable(&self, graph: &Graph<Id, Data, WeightData, Registry>) -> bool {
        &&& self.target() is Some
        &&& self.pending() is Some
        &&& graph@.vertices.contains_key(self.target()->0)
        &&& call_requires(self.pending()->0, (graph@.vertices[self.target()->0],))
    }

    /// The vertex has the payload that the operator made of the old one.
    /// Nothing else changed.
    open spec fn mutates(
        &self,
        next: &Self,
        before: &Graph<Id, Data, WeightData, Registry>,
        after: &Graph<Id, Data, WeightData, Registry>,
    ) -> bool {
        let id = self.target()->0;
        &&& next.pending() is None
        &&& next.target() == self.target()
        &&& after.vertex_registry() == before.vertex_registry()
        &&& after.edge_registry() == before.edge_registry()
        &&& after@.vertices.contains_key(id)
        &&& call_ensures(self.pending()->0, (before@.vertices[id],), after@.vertices[id])
        &&& after@ == before@.with_vertex(id, after@.vertices[id])
    }

    fn mutate(&mut self, graph: Graph<Id, Data, WeightData, Registry>) -> (mutated: Graph<
        Id,
        Data,
        WeightData,
        Registry,
    >) {
        proof {
            Id::lemma_identifier();
        }
        broadcast use group_hash_axioms;

        let id = self.vertex_id.expect("Vertex replacement mutator has already been used.");

        let mut vertices = graph.vertices;
        let vertex = vertices.remove(&id).expect("Vertex id was not found in graph.").map(
            self.vertex_operator.take().expect(
                "Vertex operator was not set. This should not happen. Panic!",
            ),
        );
        vertices.insert(id, vertex);

        let mutated = Graph {
            vertex_id_registry: graph.vertex_id_registry,
            edge_id_registry: graph.edge_id_registry,
            vertices: vertices,
            edges: graph.edges,
            forward_edges: graph.forward_edges,
            backward_edges: graph.backward_edges,
        };
        proof {
            let next = graph@.with_vertex(id, vertex.spec_data());
            assert(mutated@.vertices =~= next.vertices);
            assert(mutated@.edges =~= next.edges);
            assert(mutated@.forward =~= next.forward);
            assert(mutated@.backward =~= next.backward);
            graph@.lemma_with_vertex(id, vertex.spec_data());
        }
        mutated
    }
}

impl<
    Id: Identifier,
    Data: Clone,
    WeightData: Clone,
    Registry: IdentifierRegistry<Id>,
> GraphMutator<Id, Data, WeightData, Registry> for GraphEdgeAdditionMutator<Id, WeightData> {
    /// Unused, the edge registry can supply an identifier, and both ends are
    /// vertices of the graph.
    open spec fn applicable(&self, graph: &Graph<Id, Data, WeightData, Registry>) -> bool {
        match self.pending() {
            Some((from, _, to)) => {
                &&& !graph.edge_registry().exhausted()
                &&& graph@.vertices.contains_key(from)
                &&& graph@.vertices.contains_key(to)
            },
            None => false,
        }
    }

    /// The edge registry made one acquisition, and its identifier, new to
    /// the graph, now names an edge with the pending payload, whose link is
    /// the last to leave the source and the last to enter the target.
    /// Nothing else changed.
    open spec fn mutates(
        &self,
        next: &Self,
        before: &Graph<Id, Data, WeightData, Registry>,
        after: &Graph<Id, Data, WeightData, Registry>,
    ) -> bool {
        let (from, data, to) = self.pending()->0;
        &&& next.pending() is None
        &&& next.added() is Some
        &&& before.edge_registry().acquire_spec(&after.edge_registry(), Ok(next.added()->0))
        &&& after.vertex_registry() == before.vertex_registry()
        &&& !before@.edges.contains_key(next.added()->0)
        &&& after@ == before@.with_edge(next.added()->0, from, data, to)
    }

    fn mutate(&mut self, graph: Graph<Id, Data, WeightData, Registry>) -> (mutated: Graph<
        Id,
        Data,
        WeightData,
        Registry,
    >) {
        proof {
            Id::lemma_identifier();
        }
        broadcast use group_hash_axioms;

        let (vertex_from_id, data, vertex_to_id) = self.edge_desc.take().expect(
            "Edge addition mutator has already been used.",
        );

        let mut edge_registry = graph.edge_id_registry;
        let mut edges = graph.edges;
        let mut forward_edges = graph.forward_edges;
        let mut backward_edges = graph.backward_edges;

        let new_id = edge_registry.acquire_id().expect(
            "Unable to acquire new identifier for new edge.",
        );
        self.edge_id = Some(new_id);

        let edge = make_edge(new_id, data);

        edges.insert(new_id, edge);
        forward_edges.entry(vertex_from_id).or_insert(Vec::new()).push((new_id, vertex_to_id));
        backward_edges.entry(vertex_to_id).or_insert(Vec::new()).push((new_id, vertex_from_id));

        let mutated = Graph {
            vertex_id_registry: graph.vertex_id_registry,
            edge_id_registry: edge_registry,
            vertices: graph.vertices,
            edges: edges,
            forward_edges: forward_edges,
            backward_edges: backward_edges,
        };
        proof {
            let next = graph@.with_edge(new_id, vertex_from_id, data, vertex_to_id);
            assert(mutated@.vertices =~= next.vertices);
            assert(mutated@.edges =~= next.edges);
            assert(mutated@.forward =~= next.forward);
            assert(mutated@.backward =~= next.backward);
            graph@.lemma_with_edge(new_id, vertex_from_id, data, vertex_to_id);
        }
        mutated
    }
}

/// Adds a vertex into the graph.
///
/// Mutates the given graph (in-place) by adding a new vertex with the given
/// data and returns the id associated with the new vertex. The vertex
/// registry must not be exhausted.
pub fn add_vertex<Id: Identifier, Data: Clone, WeightData: Clone, Registry: IdentifierRegistry<Id>>(
    graph: &mut Graph<Id, Data, WeightData, Registry>,
    data: Data,
) -> (id: Id)
    requires
        old(graph).wf(),
        !old(graph).vertex_registry().exhausted(),
    ensures
        final(graph).wf(),
        old(graph).vertex_registry().acquire_spec(&final(graph).vertex_registry(), Ok(id)),
        final(graph).edge_registry() == old(graph).edge_registry(),
        !old(graph)@.vertices.contains_key(id),
        final(graph)@ == old(graph)@.with_vertex(id, data),
{
    let mut current_graph: Graph<Id, Data, WeightData, Registry> = Graph::new(
        Registry::null_registry(),
        Registry::null_registry(),
    );
    std::mem::swap(graph, &mut current_graph);

    let mut vertex_adder = GraphVertexAdditionMutator::new(data);
    current_graph = vertex_adder.mutate(current_graph);

    std::mem::swap(graph, &mut current_graph);

    vertex_adder.vertex_id.take().expect("Failed to insert vertex in graph for an unknown reason.")
}

/// Replaces a vertex in a graph.
///
/// Mutates the given graph (in-place) by changing the payload of the vertex
/// `id`, which must exist, to what `operator` makes of it.
pub fn map_vertex<
    Id: Identifier,
    Data: Clone,
    WeightData: Clone,
    Registry: IdentifierRegistry<Id>,
    Operator: FnOnce(Data) -> Data,
>(graph: &mut Graph<Id, Data, WeightData, Registry>, id: Id, operator: Operator)
    requires
        old(graph).wf(),
        old(graph)@.vertices.contains_key(id),
        call_requires(operator, (old(graph)@.vertices[id],)),
    ensures
        final(graph).wf(),
        final(graph).vertex_registry() == old(graph).vertex_registry(),
        final(graph).edge_registry() == old(graph).edge_registry(),
        final(graph)@.vertices.contains_key(id),
        call_ensures(operator, (old(graph)@.vertices[id],), final(graph)@.vertices[id]),
        final(graph)@ == old(graph)@.with_vertex(id, final(graph)@.vertices[id]),
{
    let mut current_graph: Graph<Id, Data, WeightData, Registry> = Graph::new(
        Registry::null_registry(),
        Registry::null_registry(),
    );
    std::mem::swap(graph, &mut current_graph);

    let mut vertex_replacer = GraphVertexReplacementMutator::new(id, operator);
    current_graph = vertex_replacer.mutate(current_graph);

    std::mem::swap(graph, &mut current_graph);
}

/// Adds a edge into the graph.
///
/// Mutates the given graph (in-place) by adding a new edge between the two
/// vertices (of the given ids) and with the given data. The method returns the
/// id associated with the new edge. Both vertices must exist, and the edge
/// registry must not be exhausted.
pub fn add_edge<Id: Identifier, Data: Clone, WeightData: Clone, Registry: IdentifierRegistry<Id>>(
    graph: &mut Graph<Id, Data, WeightData, Registry>,
    vertex_from: Id,
    vertex_to: Id,
    data: WeightData,
) -> (id: Id)
    requires
        old(graph).wf(),
        !old(graph).edge_registry().exhausted(),
        old(graph)@.vertices.contains_key(vertex_from),
        old(graph)@.vertices.contains_key(vertex_to),
    ensures
        final(graph).wf(),
        old(graph).edge_registry().acquire_spec(&final(graph).edge_registry(), Ok(id)),
        final(graph).vertex_registry() == old(graph).vertex_registry(),
        !old(graph)@.edges.contains_key(id),
        final(graph)@ == old(graph)@.with_edge(id, vertex_from, data, vertex_to),
{
    let mut current_graph: Graph<Id, Data, WeightData, Registry> = Graph::new(
        Registry::null_registry(),
        Registry::null_registry(),
    );
    std::mem::swap(graph, &mut current_graph);

    let mut edge_adder = GraphEdgeAdditionMutator::new(vertex_from, data, vertex_to);
    current_graph = edge_adder.mutate(current_graph);

    std::mem::swap(graph, &mut current_graph);

    edge_adder.edge_id.take().expect("Failed to insert edge in graph for an unknown reason.")
}

} // verus!
