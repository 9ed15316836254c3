//! Graph Path Finding module.
//!
//! Provides implementations of path finding algorithms.

use crate::math::graph::elements::EdgeDescriptor;
use crate::math::graph::elements::GraphElement;
use crate::math::graph::elements::VertexDescriptor;
use crate::math::graph::entered;
use crate::math::graph::search::enters;
use crate::math::graph::search::Transition;
use crate::math::graph::traversal::breadth_first_traversal;
use crate::math::graph::traversal::lemma_stop_after;
use crate::math::graph::traversal::stop_after;
use crate::math::graph::Graph;
use crate::math::graph::GraphView;
use crate::math::graph::GraphVisitor;
use crate::math::graph::Visit;
use crate::math::graph::Walk;
use crate::utility::idregistry::Identifier;
use crate::utility::idregistry::IdentifierRegistry;
use std::collections::HashMap;
use std::collections::VecDeque;
use vstd::prelude::*;
use vstd::std_specs::hash::group_hash_axioms;

verus! {

/// Walk Builder.
///
/// Used by path finding algorithms to build a walk from one vertex to another.
/// It keeps, for every vertex it is shown, the descriptor and the edge over
/// which the traversal entered it.
#[verifier::reject_recursive_types(Id)]
struct WalkBuilder<'a, Id: Identifier, Data: Clone + PartialEq, WeightData: Clone + PartialEq> {
    initial_vertex_id: Id,
    final_vertex_id: Id,
    current_edge: Option<(Id, &'a EdgeDescriptor<Id, WeightData>, Id)>,
    back_edge_lookup: HashMap<Id, (Id, &'a EdgeDescriptor<Id, WeightData>, Id)>,
    vertex_lookup: HashMap<Id, &'a VertexDescriptor<Id, Data>>,
    path: Option<Walk<'a, Id, Data, WeightData>>,
    trace: Ghost<Seq<Visit<Id, Data, WeightData>>>,
    rank: Ghost<Map<Id, int>>,
}

/// A trace with one more visit holds the vertices it held, and the vertex of
/// that visit.
proof fn lemma_entered_push<Id, Data, WeightData>(
    trace: Seq<Visit<Id, Data, WeightData>>,
    next: Visit<Id, Data, WeightData>,
    vertex: Id,
)
    ensures
        entered(trace.push(next), vertex) <==> entered(trace, vertex) || next.enters(vertex),
{
    let longer = trace.push(next);
    if entered(longer, vertex) {
        let k = choose|k: int| 0 <= k < longer.len() && (#[trigger] longer[k]).enters(vertex);
        if k < trace.len() {
            assert(trace[k].enters(vertex));
        }
    }
    if entered(trace, vertex) {
        let k = choose|k: int| 0 <= k < trace.len() && (#[trigger] trace[k]).enters(vertex);
        assert(longer[k].enters(vertex));
    }
    assert(longer[trace.len() as int] == next);
}

impl<'a, Id: Identifier, Data: Clone + PartialEq, WeightData: Clone + PartialEq> WalkBuilder<
    'a,
    Id,
    Data,
    WeightData,
> {
    /// The descriptor kept for `vertex` is the one shown at `rank[vertex]`.
    spec fn seen(&self, vertex: Id) -> bool {
        let at = self.rank@[vertex];
        &&& self.vertex_lookup@[vertex].spec_id() == vertex
        &&& 0 <= at < self.trace@.len()
        &&& self.trace@[at] == (Visit::<Id, Data, WeightData>::Vertex {
            id: vertex,
            data: self.vertex_lookup@[vertex].spec_data(),
        })
    }

    /// The edge kept for `vertex` was shown just before it, and leaves a
    /// vertex that was shown earlier.
    spec fn came(&self, vertex: Id) -> bool {
        let (from, edge, to) = self.back_edge_lookup@[vertex];
        let at = self.rank@[vertex];
        &&& to == vertex
        &&& self.vertex_lookup@.contains_key(vertex)
        &&& self.vertex_lookup@.contains_key(from)
        &&& self.rank@[from] < at
        &&& at >= 1
        &&& self.trace@[at - 1] == (Visit::<Id, Data, WeightData>::Edge {
            from: from,
            edge: edge.spec_id(),
            weight: edge.spec_data(),
            to: vertex,
        })
    }

    /// The edge that was shown last, if its vertex was not shown yet.
    spec fn pending(&self) -> bool {
        match self.current_edge {
            Some((from, edge, to)) => {
                &&& self.trace@.len() > 0
                &&& self.trace@.last() == (Visit::<Id, Data, WeightData>::Edge {
                    from: from,
                    edge: edge.spec_id(),
                    weight: edge.spec_data(),
                    to: to,
                })
                &&& self.vertex_lookup@.contains_key(from)
                &&& !self.vertex_lookup@.contains_key(to)
            },
            None => self.trace@.len() == 0 || self.trace@.last() is Vertex,
        }
    }

    /// The lookups hold what the trace shows.
    spec fn consistent(&self) -> bool {
        &&& forall|vertex: Id|
            entered(self.trace@, vertex) <==> #[trigger] self.vertex_lookup@.contains_key(vertex)
        &&& forall|vertex: Id| #[trigger]
            self.vertex_lookup@.contains_key(vertex) ==> self.seen(vertex)
        &&& forall|vertex: Id| #[trigger]
            self.back_edge_lookup@.contains_key(vertex) ==> self.came(vertex)
        &&& forall|vertex: Id| #[trigger]
            self.vertex_lookup@.contains_key(vertex) && vertex != self.initial_vertex_id
                ==> self.back_edge_lookup@.contains_key(vertex)
        &&& self.trace@.len() > 0 ==> self.vertex_lookup@.contains_key(self.initial_vertex_id)
        &&& self.pending()
    }

    /// The edge at `i` of the lists is the one kept for the vertex at `i + 1`,
    /// and leaves the vertex at `i`.
    spec fn linked(
        &self,
        vertices: Seq<&'a VertexDescriptor<Id, Data>>,
        edges: Seq<&'a EdgeDescriptor<Id, WeightData>>,
        i: int,
    ) -> bool {
        &&& self.back_edge_lookup@.contains_key(vertices[i + 1].spec_id())
        &&& self.back_edge_lookup@[vertices[i + 1].spec_id()] == (
            vertices[i].spec_id(),
            edges[i],
            vertices[i + 1].spec_id(),
        )
    }

    /// The descriptor at `i` of the list is the one kept for its vertex.
    spec fn kept(&self, vertices: Seq<&'a VertexDescriptor<Id, Data>>, i: int) -> bool {
        &&& self.vertex_lookup@.contains_key(vertices[i].spec_id())
        &&& self.vertex_lookup@[vertices[i].spec_id()] == vertices[i]
    }

    /// The lists lead from the initial vertex to the final one along the
    /// edges kept.
    spec fn traced(
        &self,
        vertices: Seq<&'a VertexDescriptor<Id, Data>>,
        edges: Seq<&'a EdgeDescriptor<Id, WeightData>>,
    ) -> bool {
        &&& vertices.len() == edges.len() + 1
        &&& vertices.first().spec_id() == self.initial_vertex_id
        &&& vertices.last().spec_id() == self.final_vertex_id
        &&& forall|i: int| 0 <= i < vertices.len() ==> #[trigger] self.kept(vertices, i)
        &&& forall|i: int| 0 <= i < edges.len() ==> #[trigger] self.linked(vertices, edges, i)
    }

    fn new(initial_vertex_id: Id, final_vertex_id: Id) -> (builder: WalkBuilder<
        'a,
        Id,
        Data,
        WeightData,
    >)
        ensures
            builder.inv(),
            builder.initial_vertex_id == initial_vertex_id,
            builder.final_vertex_id == final_vertex_id,
    {
        let builder = WalkBuilder {
            initial_vertex_id: initial_vertex_id,
            final_vertex_id: final_vertex_id,
            current_edge: None,
            back_edge_lookup: HashMap::new(),
            vertex_lookup: HashMap::new(),
            path: None,
            trace: Ghost(Seq::empty()),
            rank: Ghost(Map::empty()),
        };
        proof {
            assert forall|vertex: Id| !entered(builder.trace@, vertex) by {
                if entered(builder.trace@, vertex) {
                    let k = choose|k: int|
                        0 <= k < builder.trace@.len() && (#[trigger] builder.trace@[k]).enters(
                            vertex,
                        );
                }
            }
        }
        builder
    }

    /// The walk from the initial vertex to the final one along the edges
    /// kept. The final vertex must have been shown.
    fn build_path(&self) -> (walk: Walk<'a, Id, Data, WeightData>)
        requires
            self.consistent(),
            self.vertex_lookup@.contains_key(self.final_vertex_id),
        ensures
            self.traced(walk.vertex_list(), walk.edge_list()),
    {
        proof {
            Id::lemma_identifier();
        }
        broadcast use group_hash_axioms;

        let mut vertex_list: VecDeque<&'a VertexDescriptor<Id, Data>> = VecDeque::new();
        let mut edge_list: VecDeque<&'a EdgeDescriptor<Id, WeightData>> = VecDeque::new();

        let mut current_vertex: &'a VertexDescriptor<Id, Data> = *self.vertex_lookup.get(
            &self.final_vertex_id,
        ).expect("Expected final vertex to have already been traversed.");

        loop
            invariant_except_break
                self.consistent(),
                self.vertex_lookup@.contains_key(current_vertex.spec_id()),
                self.vertex_lookup@[current_vertex.spec_id()] == current_vertex,
                vertex_list@.len() == edge_list@.len(),
                vertex_list@.len() == 0 ==> current_vertex.spec_id() == self.final_vertex_id,
                vertex_list@.len() > 0 ==> {
                    &&& vertex_list@.last().spec_id() == self.final_vertex_id
                    &&& self.back_edge_lookup@.contains_key(vertex_list@[0].spec_id())
                    &&& self.back_edge_lookup@[vertex_list@[0].spec_id()] == (
                        current_vertex.spec_id(),
                        edge_list@[0],
                        vertex_list@[0].spec_id(),
                    )
                },
                forall|i: int| 0 <= i < vertex_list@.len() ==> #[trigger] self.kept(vertex_list@, i),
                forall|i: int|
                    0 <= i < vertex_list@.len() - 1 ==> self.back_edge_lookup@.contains_key(
                        (#[trigger] vertex_list@[i + 1]).spec_id(),
                    ) && self.back_edge_lookup@[vertex_list@[i + 1].spec_id()] == (
                        vertex_list@[i].spec_id(),
                        edge_list@[i + 1],
                        vertex_list@[i + 1].spec_id(),
                    ),
            ensures
                self.traced(vertex_list@, edge_list@),
            decreases self.rank@[current_vertex.spec_id()],
        {
            proof {
                Id::lemma_identifier();
            }
            let ghost vertices_before = vertex_list@;
            let ghost edges_before = edge_list@;
            vertex_list.push_front(current_vertex);
            proof {
                assert forall|i: int| 0 <= i < vertex_list@.len() implies #[trigger] self.kept(
                    vertex_list@,
                    i,
                ) by {
                    if i > 0 {
                        assert(self.kept(vertices_before, i - 1));
                        assert(vertex_list@[i] == vertices_before[i - 1]);
                    }
                }
                assert(self.seen(current_vertex.spec_id()));
            }

            if *current_vertex.id() == self.initial_vertex_id {
                proof {
                    assert forall|i: int| 0 <= i < edge_list@.len() implies #[trigger] self.linked(
                        vertex_list@,
                        edge_list@,
                        i,
                    ) by {
                        assert(vertex_list@[i + 1] == vertices_before[i]);
                        if i > 0 {
                            assert(vertex_list@[i] == vertices_before[i - 1]);
                            assert(vertices_before[(i - 1) + 1] == vertices_before[i]);
                        }
                    }
                    if vertices_before.len() > 0 {
                        assert(vertex_list@.last() == vertices_before.last());
                    }
                }
                break ;
            }
            // Get back edge.

            proof {
                assert(self.came(current_vertex.spec_id()));
            }
            let back_edge = *self.back_edge_lookup.get(current_vertex.id()).expect(
                "Expected vertex to have a back-edge if it was traversed.",
            );

            let (from_id, edge, _) = back_edge;

            edge_list.push_front(edge);

            // Change current vertex.
            let ghost left = current_vertex;
            current_vertex = self.vertex_lookup.get(&from_id).expect(
                "Expected vertex on the path to have already been traversed.",
            );
            proof {
                assert(self.seen(from_id));
                assert(vertex_list@.last() == if vertices_before.len() > 0 {
                    vertices_before.last()
                } else {
                    left
                });
                assert forall|i: int|
                    0 <= i < vertex_list@.len() - 1 implies self.back_edge_lookup@.contains_key(
                    (#[trigger] vertex_list@[i + 1]).spec_id(),
                ) && self.back_edge_lookup@[vertex_list@[i + 1].spec_id()] == (
                    vertex_list@[i].spec_id(),
                    edge_list@[i + 1],
                    vertex_list@[i + 1].spec_id(),
                ) by {
                    assert(vertex_list@[i + 1] == vertices_before[i]);
                    assert(edge_list@[i + 1] == edges_before[i]);
                    if i > 0 {
                        assert(vertex_list@[i] == vertices_before[i - 1]);
                        assert(vertices_before[(i - 1) + 1] == vertices_before[i]);
                    }
                }
            }
        }

        Walk { vertices: vertex_list, edges: edge_list }
    }
}

impl<
    'a,
    Id: Identifier,
    Data: Clone + PartialEq,
    WeightData: Clone + PartialEq,
> GraphVisitor<'a, Id, Data, WeightData> for WalkBuilder<'a, Id, Data, WeightData> {
    /// The lookups hold what the trace shows, and the path is there exactly
    /// if the final vertex was shown.
    closed spec fn inv(&self) -> bool {
        &&& self.consistent()
        &&& self.path is Some <==> self.vertex_lookup@.contains_key(self.final_vertex_id)
        &&& self.path is Some ==> self.traced(
            self.path->0.vertex_list(),
            self.path->0.edge_list(),
        )
    }

    closed spec fn trace(&self) -> Seq<Visit<Id, Data, WeightData>> {
        self.trace@
    }

    /// The builder stops the traversal once it has been shown the final
    /// vertex.
    closed spec fn stops_on(&self, trace: Seq<Visit<Id, Data, WeightData>>) -> bool {
        entered(trace, self.final_vertex_id)
    }

    /// The builder takes a traversal that begins at its initial vertex.
    closed spec fn starts_at(&self, source: Id) -> bool {
        source == self.initial_vertex_id
    }

    /// A builder is set up with its initial and its final vertex.
    closed spec fn setup(&self) -> Self {
        WalkBuilder {
            initial_vertex_id: self.initial_vertex_id,
            final_vertex_id: self.final_vertex_id,
            current_edge: None,
            back_edge_lookup: arbitrary(),
            vertex_lookup: arbitrary(),
            path: None,
            trace: Ghost(Seq::empty()),
            rank: Ghost(Map::empty()),
        }
    }

    fn reset(&mut self) {
        self.current_edge = None;
        self.back_edge_lookup = HashMap::new();
        self.vertex_lookup = HashMap::new();
        self.path = None;
        proof {
            self.trace@ = Seq::empty();
            self.rank@ = Map::empty();
            assert forall|vertex: Id| !entered(self.trace@, vertex) by {
                if entered(self.trace@, vertex) {
                    let k = choose|k: int|
                        0 <= k < self.trace@.len() && (#[trigger] self.trace@[k]).enters(vertex);
                }
            }
        }
    }

    fn visit_vertex(&mut self, vertex: &'a VertexDescriptor<Id, Data>) {
        proof {
            Id::lemma_identifier();
        }
        broadcast use group_hash_axioms;

        let id = *vertex.id();
        let ghost before = *self;
        let ghost shown = Visit::<Id, Data, WeightData>::Vertex { id: id, data: vertex.spec_data() };
        let ghost at = self.trace@.len() as int;
        proof {
            assert(!before.vertex_lookup@.contains_key(id)) by {
                if before.trace@.len() == 0 {
                    if entered(before.trace@, id) {
                        let k = choose|k: int|
                            0 <= k < before.trace@.len() && (#[trigger] before.trace@[k]).enters(
                                id,
                            );
                    }
                }
            }
            if before.trace@.len() > 0 {
                assert(before.vertex_lookup@.contains_key(before.initial_vertex_id));
                assert(id != before.initial_vertex_id);
            }
        }

        self.vertex_lookup.insert(id, vertex);

        match self.current_edge.take() {
            None => {},
            Some(edge) => {
                self.back_edge_lookup.insert(id, edge);
            },
        }

        proof {
            self.trace@ = before.trace@.push(shown);
            self.rank@ = before.rank@.insert(id, at);
            assert forall|other: Id|
                entered(self.trace@, other) <==> #[trigger] self.vertex_lookup@.contains_key(
                    other,
                ) by {
                lemma_entered_push(before.trace@, shown, other);
                assert(before.vertex_lookup@.contains_key(other) <==> entered(before.trace@, other));
            }
            assert forall|other: Id| #[trigger]
                self.vertex_lookup@.contains_key(other) implies self.seen(other) by {
                if other != id {
                    assert(before.vertex_lookup@.contains_key(other));
                    assert(before.seen(other));
                }
            }
            assert forall|other: Id| #[trigger]
                self.back_edge_lookup@.contains_key(other) implies self.came(other) by {
                if other != id {
                    assert(before.back_edge_lookup@.contains_key(other));
                    assert(before.came(other));
                    let from = before.back_edge_lookup@[other].0;
                    assert(before.vertex_lookup@.contains_key(from));
                } else {
                    assert(before.current_edge is Some);
                    let from = before.current_edge.unwrap().0;
                    assert(before.vertex_lookup@.contains_key(from));
                    assert(before.seen(from));
                }
            }
            assert forall|other: Id| #[trigger]
                self.vertex_lookup@.contains_key(other) && other != self.initial_vertex_id
                    implies self.back_edge_lookup@.contains_key(other) by {
                if other != id {
                    assert(before.vertex_lookup@.contains_key(other));
                }
            }
            assert(self.consistent());
            if before.path is Some {
                let vertices = before.path->0.vertex_list();
                let edges = before.path->0.edge_list();
                assert forall|i: int| 0 <= i < vertices.len() implies #[trigger] self.kept(
                    vertices,
                    i,
                ) by {
                    assert(before.kept(vertices, i));
                }
                assert forall|i: int| 0 <= i < edges.len() implies #[trigger] self.linked(
                    vertices,
                    edges,
                    i,
                ) by {
                    assert(before.linked(vertices, edges, i));
                }
                assert(self.traced(vertices, edges));
            }
        }

        let ghost settled = *self;
        if id == self.final_vertex_id {
            // Build Path.
            self.path = Some(self.build_path());
        }
        proof {
            assert(self.vertex_lookup@ == settled.vertex_lookup@);
            assert(self.back_edge_lookup@ == settled.back_edge_lookup@);
            assert(self.consistent());
            assert(self.path is Some <==> self.vertex_lookup@.contains_key(self.final_vertex_id));
            if self.path is Some {
                let vertices = self.path->0.vertex_list();
                let edges = self.path->0.edge_list();
                assert(settled.traced(vertices, edges));
                assert forall|i: int| 0 <= i < vertices.len() implies #[trigger] self.kept(
                    vertices,
                    i,
                ) by {
                    assert(settled.kept(vertices, i));
                }
                assert forall|i: int| 0 <= i < edges.len() implies #[trigger] self.linked(
                    vertices,
                    edges,
                    i,
                ) by {
                    assert(settled.linked(vertices, edges, i));
                }
            }
        }
    }

    fn visit_edge(
        &mut self,
        vertex_from_id: Id,
        edge: &'a EdgeDescriptor<Id, WeightData>,
        vertex_to_id: Id,
    ) {
        let ghost before = *self;
        let ghost shown = Visit::<Id, Data, WeightData>::Edge {
            from: vertex_from_id,
            edge: edge.spec_id(),
            weight: edge.spec_data(),
            to: vertex_to_id,
        };
        self.current_edge = Some((vertex_from_id, edge, vertex_to_id));
        proof {
            self.trace@ = before.trace@.push(shown);
            assert forall|other: Id|
                entered(self.trace@, other) <==> #[trigger] self.vertex_lookup@.contains_key(
                    other,
                ) by {
                lemma_entered_push(before.trace@, shown, other);
                assert(before.vertex_lookup@.contains_key(other) <==> entered(before.trace@, other));
            }
            assert forall|other: Id| #[trigger]
                self.vertex_lookup@.contains_key(other) implies self.seen(other) by {
                assert(before.seen(other));
            }
            assert forall|other: Id| #[trigger]
                self.back_edge_lookup@.contains_key(other) implies self.came(other) by {
                assert(before.came(other));
            }
            assert(before.vertex_lookup@.contains_key(vertex_from_id));
            assert(!before.vertex_lookup@.contains_key(vertex_to_id));
            assert(self.consistent());
            if before.path is Some {
                let vertices = before.path->0.vertex_list();
                let edges = before.path->0.edge_list();
                assert forall|i: int| 0 <= i < vertices.len() implies #[trigger] self.kept(
                    vertices,
                    i,
                ) by {
                    assert(before.kept(vertices, i));
                }
                assert forall|i: int| 0 <= i < edges.len() implies #[trigger] self.linked(
                    vertices,
                    edges,
                    i,
                ) by {
                    assert(before.linked(vertices, edges, i));
                }
            }
        }
    }

    fn should_terminate(&self) -> (stop: bool) {
        self.path.is_some()
    }
}

/// Along a walk that follows the breadth-first traversal from its first
/// vertex, the vertex at `at` lies `at` steps from the first.
proof fn lemma_walk_distance<Id, Data, WeightData>(
    view: GraphView<Id, Data, WeightData>,
    source: Id,
    vertices: Seq<Id>,
    edges: Seq<Id>,
    at: int,
)
    requires
        view.well_formed(),
        view.vertices.contains_key(source),
        vertices.len() == edges.len() + 1,
        vertices[0] == source,
        forall|i: int|
            0 <= i < edges.len() ==> view.breadth_first(source).contains(
                Transition { via: Some((#[trigger] vertices[i], edges[i])), vertex: vertices[i + 1] },
            ),
        0 <= at < vertices.len(),
    ensures
        view.reachable(source, vertices[at]),
        view.distance(source, vertices[at]) == at,
        at > 0 ==> view.out_links(vertices[at - 1]).contains((edges[at - 1], vertices[at]))
            && view.edges.contains_key(edges[at - 1]),
    decreases at,
{
    if at == 0 {
        view.lemma_distance_self(source);
    } else {
        lemma_walk_distance(view, source, vertices, edges, at - 1);
        let steps = view.breadth_first(source);
        let step = Transition { via: Some((vertices[at - 1], edges[at - 1])), vertex: vertices[at] };
        assert(vertices[(at - 1) + 1] == vertices[at]);
        assert(steps.contains(step));
        let k = choose|k: int| 0 <= k < steps.len() && steps[k] == step;
        view.lemma_breadth_first_tree(source, k);
    }
}

/// Finds a path in a directed graph between two vertices if it exists.
///
/// Both vertices must be in the graph. The walk that comes back leads from
/// the first to the second along transitions of the breadth-first traversal
/// from the first, so no walk between them has fewer edges. Nothing comes
/// back exactly if no walk leads from the first to the second.
pub fn find_path<
    'a,
    Id: Identifier,
    Registry: IdentifierRegistry<Id>,
    Data: Clone + PartialEq,
    WeightData: Clone + PartialEq,
>(graph: &'a Graph<Id, Data, WeightData, Registry>, vertex_from_id: Id, vertex_to_id: Id) -> (path:
    Option<Walk<'a, Id, Data, WeightData>>)
    requires
        graph.wf(),
        graph@.vertices.contains_key(vertex_from_id),
        graph@.vertices.contains_key(vertex_to_id),
    ensures
        match path {
            Some(walk) => {
                &&& graph@.reachable(vertex_from_id, vertex_to_id)
                &&& walk.leads(graph@, vertex_from_id, vertex_to_id)
                &&& walk.follows(graph@.breadth_first(vertex_from_id))
                &&& walk.edge_list().len() == graph@.distance(vertex_from_id, vertex_to_id)
            },
            None => !graph@.reachable(vertex_from_id, vertex_to_id),
        },
{
    proof {
        Id::lemma_identifier();
    }
    broadcast use group_hash_axioms;

    graph.vertices.get(&vertex_from_id).expect("The path must begin on a vertex in the graph.");
    graph.vertices.get(&vertex_to_id).expect("The path must end on a vertex in the graph.");

    let mut walk_builder = WalkBuilder::new(vertex_from_id, vertex_to_id);
    let ghost given = walk_builder.setup();
    breadth_first_traversal(graph, vertex_from_id, &mut walk_builder);
    proof {
        assert(walk_builder.initial_vertex_id == vertex_from_id);
        assert(walk_builder.final_vertex_id == vertex_to_id);
        graph.lemma_wf();
        let view = graph@;
        let steps = view.breadth_first(vertex_from_id);
        let count = stop_after(view, vertex_from_id, given, 0) as int;
        lemma_stop_after(view, vertex_from_id, given, 0);
        let shown = steps.take(count);
        view.lemma_visits_entered(shown, vertex_to_id);
        view.lemma_breadth_first_reaches(vertex_from_id, vertex_to_id);
        if enters(shown, vertex_to_id) {
            let k = choose|k: int| 0 <= k < shown.len() && (#[trigger] shown[k]).vertex == vertex_to_id;
            assert(steps[k].vertex == vertex_to_id);
        }
        if walk_builder.path is None {
            assert(shown =~= steps);
        } else {
            let walk = walk_builder.path->0;
            let vertices = walk.vertex_list();
            let edges = walk.edge_list();
            let vertex_ids = vertices.map_values(|v: &'a VertexDescriptor<Id, Data>| v.spec_id());
            let edge_ids = edges.map_values(|e: &'a EdgeDescriptor<Id, WeightData>| e.spec_id());
            assert forall|i: int| 0 <= i < vertices.len() implies #[trigger] walk.stands(view, i) by {
                assert(walk_builder.kept(vertices, i));
                let id = vertices[i].spec_id();
                assert(walk_builder.seen(id));
                let at = walk_builder.rank@[id];
                view.lemma_visits_from(shown, at);
                let k = choose|k: int| 0 <= k < shown.len() && (#[trigger] shown[k]).vertex == id;
                assert(steps[k].vertex == id);
                view.lemma_breadth_first_tree(vertex_from_id, k);
            }
            assert forall|i: int| 0 <= i < edges.len() implies steps.contains(
                #[trigger] walk.transition(i),
            ) && view.edges[edges[i].spec_id()] == edges[i].spec_data() by {
                assert(walk_builder.linked(vertices, edges, i));
                let id = vertices[i + 1].spec_id();
                assert(walk_builder.came(id));
                let at = walk_builder.rank@[id];
                view.lemma_visits_from(shown, at - 1);
                let step = walk.transition(i);
                let k = choose|k: int| 0 <= k < shown.len() && #[trigger] shown[k] == step;
                assert(steps[k] == step);
            }
            assert forall|i: int| 0 <= i < edge_ids.len() implies steps.contains(
                Transition {
                    via: Some((#[trigger] vertex_ids[i], edge_ids[i])),
                    vertex: vertex_ids[i + 1],
                },
            ) by {
                assert(steps.contains(walk.transition(i)));
            }
            assert forall|i: int| 0 <= i < edges.len() implies #[trigger] walk.crosses(view, i) by {
                lemma_walk_distance(view, vertex_from_id, vertex_ids, edge_ids, i + 1);
                assert(steps.contains(walk.transition(i)));
            }
            lemma_walk_distance(view, vertex_from_id, vertex_ids, edge_ids, vertices.len() - 1);
        }
    }
    walk_builder.path.take()
}

} // verus!
