//! Breadth-first traversal of a graph, driven by a visitor.

use crate::math::graph::elements::GraphElement;
use crate::math::graph::elements::VertexDescriptor;
use crate::math::graph::entered;
use crate::math::graph::search::discover;
use crate::math::graph::search::enters;
use crate::math::graph::search::Search;
use crate::math::graph::search::Transition;
use crate::math::graph::Graph;
use crate::math::graph::GraphView;
use crate::math::graph::GraphVisitor;
use crate::math::graph::Visit;
use crate::utility::idregistry::Identifier;
use crate::utility::idregistry::IdentifierRegistry;
use std::collections::HashSet;
use std::collections::VecDeque;
use vstd::prelude::*;
use vstd::std_specs::hash::group_hash_axioms;

verus! {

impl<Id, Data, WeightData> GraphView<Id, Data, WeightData> {
    /// What a traversal shows for one transition: the edge it arrives over,
    /// if any, then the vertex it enters, each with the graph's payload.
    pub open spec fn shown(self, step: Transition<Id>) -> Seq<Visit<Id, Data, WeightData>> {
        let vertex = Visit::Vertex { id: step.vertex, data: self.vertices[step.vertex] };
        match step.via {
            Some((from, edge)) => seq![
                Visit::Edge { from: from, edge: edge, weight: self.edges[edge], to: step.vertex },
                vertex,
            ],
            None => seq![vertex],
        }
    }

    /// What a traversal shows for a sequence of transitions.
    pub open spec fn visits(self, steps: Seq<Transition<Id>>) -> Seq<Visit<Id, Data, WeightData>>
        decreases steps.len(),
    {
        if steps.len() == 0 {
            Seq::empty()
        } else {
            self.visits(steps.drop_last()) + self.shown(steps.last())
        }
    }

    /// What is shown for some transitions ends with the vertex of the last.
    pub proof fn lemma_visits_last(self, steps: Seq<Transition<Id>>)
        requires
            steps.len() > 0,
        ensures
            self.visits(steps).len() > 0,
            self.visits(steps).last() == (Visit::<Id, Data, WeightData>::Vertex {
                id: steps.last().vertex,
                data: self.vertices[steps.last().vertex],
            }),
    {
    }

    /// Each visit stands for a transition: the visit of a vertex for the
    /// transition that enters it, the visit of an edge for the transition
    /// that arrives over it; and the payloads shown are the graph's.
    pub proof fn lemma_visits_from(self, steps: Seq<Transition<Id>>, at: int)
        requires
            0 <= at < self.visits(steps).len(),
        ensures
            match self.visits(steps)[at] {
                Visit::Vertex { id, data } => {
                    &&& data == self.vertices[id]
                    &&& exists|k: int| 0 <= k < steps.len() && (#[trigger] steps[k]).vertex == id
                },
                Visit::Edge { from, edge, weight, to } => {
                    &&& weight == self.edges[edge]
                    &&& exists|k: int|
                        0 <= k < steps.len() && #[trigger] steps[k] == (Transition {
                            via: Some((from, edge)),
                            vertex: to,
                        })
                },
            },
        decreases steps.len(),
    {
        let fewer = steps.drop_last();
        let before = self.visits(fewer);
        if at < before.len() {
            self.lemma_visits_from(fewer, at);
            match before[at] {
                Visit::Vertex { id, data } => {
                    let k = choose|k: int|
                        0 <= k < fewer.len() && (#[trigger] fewer[k]).vertex == id;
                    assert(steps[k].vertex == id);
                },
                Visit::Edge { from, edge, weight, to } => {
                    let k = choose|k: int|
                        0 <= k < fewer.len() && #[trigger] fewer[k] == (Transition {
                            via: Some((from, edge)),
                            vertex: to,
                        });
                    assert(steps[k] == fewer[k]);
                },
            }
        } else {
            let last = steps.len() - 1;
            assert(steps[last] == steps.last());
        }
    }

    /// A vertex is shown exactly if a transition enters it.
    pub proof fn lemma_visits_entered(self, steps: Seq<Transition<Id>>, vertex: Id)
        ensures
            entered(self.visits(steps), vertex) <==> enters(steps, vertex),
        decreases steps.len(),
    {
        let trace = self.visits(steps);
        if steps.len() > 0 {
            let fewer = steps.drop_last();
            let before = self.visits(fewer);
            self.lemma_visits_entered(fewer, vertex);
            if entered(trace, vertex) {
                let at = choose|at: int| 0 <= at < trace.len() && (#[trigger] trace[at]).enters(vertex);
                self.lemma_visits_from(steps, at);
            }
            if enters(steps, vertex) {
                let k = choose|k: int| 0 <= k < steps.len() && (#[trigger] steps[k]).vertex == vertex;
                if k < fewer.len() {
                    assert(fewer[k].vertex == vertex);
                    let at = choose|at: int|
                        0 <= at < before.len() && (#[trigger] before[at]).enters(vertex);
                    assert(trace[at].enters(vertex));
                } else {
                    assert(trace[trace.len() - 1].enters(vertex));
                }
            }
        } else {
            if entered(trace, vertex) {
                let at = choose|at: int| 0 <= at < trace.len() && (#[trigger] trace[at]).enters(vertex);
            }
        }
    }
}

/// The number of transitions that a traversal from `source` shows to a
/// visitor set up as `setup`, counted from `from` on: the first number of
/// transitions of `breadth_first`, not below `from`, on which the visitor asks
/// to stop, or all of them.
pub open spec fn stop_after<
    'a,
    Id: Identifier,
    Data: Clone,
    WeightData: Clone,
    V: GraphVisitor<'a, Id, Data, WeightData>,
>(view: GraphView<Id, Data, WeightData>, source: Id, setup: V, from: nat) -> nat
    decreases view.breadth_first(source).len() - from,
{
    if from >= view.breadth_first(source).len() || setup.stops_on(
        view.visits(view.breadth_first(source).take(from as int)),
    ) {
        from
    } else {
        stop_after(view, source, setup, from + 1)
    }
}

/// `stop_after` is the first number of transitions on which the visitor asks
/// to stop, or the number of all transitions.
pub proof fn lemma_stop_after<
    'a,
    Id: Identifier,
    Data: Clone,
    WeightData: Clone,
    V: GraphVisitor<'a, Id, Data, WeightData>,
>(view: GraphView<Id, Data, WeightData>, source: Id, setup: V, from: nat)
    requires
        from <= view.breadth_first(source).len(),
    ensures
        from <= stop_after(view, source, setup, from) <= view.breadth_first(source).len(),
        stop_after(view, source, setup, from) == view.breadth_first(source).len()
            || setup.stops_on(
            view.visits(
                view.breadth_first(source).take(stop_after(view, source, setup, from) as int),
            ),
        ),
        forall|fewer: int|
            from <= fewer < stop_after(view, source, setup, from) ==> !setup.stops_on(
                #[trigger] view.visits(view.breadth_first(source).take(fewer)),
            ),
    decreases view.breadth_first(source).len() - from,
{
    if !(from >= view.breadth_first(source).len() || setup.stops_on(
        view.visits(view.breadth_first(source).take(from as int)),
    )) {
        lemma_stop_after(view, source, setup, from + 1);
    }
}

/// A number of transitions on which the visitor asks to stop, or the number
/// of all transitions, with no smaller one from `from` on, is `stop_after`.
pub proof fn lemma_stops_first<
    'a,
    Id: Identifier,
    Data: Clone,
    WeightData: Clone,
    V: GraphVisitor<'a, Id, Data, WeightData>,
>(view: GraphView<Id, Data, WeightData>, source: Id, setup: V, from: nat, count: nat)
    requires
        from <= count <= view.breadth_first(source).len(),
        count == view.breadth_first(source).len() || setup.stops_on(
            view.visits(view.breadth_first(source).take(count as int)),
        ),
        forall|fewer: int|
            from <= fewer < count ==> !setup.stops_on(
                #[trigger] view.visits(view.breadth_first(source).take(fewer)),
            ),
    ensures
        stop_after(view, source, setup, from) == count,
    decreases count - from,
{
    if from < count {
        assert(!setup.stops_on(view.visits(view.breadth_first(source).take(from as int))));
        lemma_stops_first(view, source, setup, from + 1, count);
    }
}

/// Completeness of a traversal that is not stopped: a visitor that never asks
/// to stop is shown every transition of `breadth_first`, and so exactly the
/// vertices that a walk from the source reaches.
pub proof fn lemma_traversal_reaches<
    'a,
    Id: Identifier,
    Data: Clone,
    WeightData: Clone,
    V: GraphVisitor<'a, Id, Data, WeightData>,
>(view: GraphView<Id, Data, WeightData>, source: Id, setup: V, vertex: Id)
    requires
        view.well_formed(),
        view.vertices.contains_key(source),
        forall|trace: Seq<Visit<Id, Data, WeightData>>| !#[trigger] setup.stops_on(trace),
    ensures
        stop_after(view, source, setup, 0) == view.breadth_first(source).len(),
        entered(
            view.visits(
                view.breadth_first(source).take(stop_after(view, source, setup, 0) as int),
            ),
            vertex,
        ) <==> view.reachable(source, vertex),
{
    let steps = view.breadth_first(source);
    lemma_stops_first(view, source, setup, 0, steps.len());
    assert(steps.take(steps.len() as int) =~= steps);
    view.lemma_visits_entered(steps, vertex);
    view.lemma_breadth_first_reaches(source, vertex);
}

/// Breadth-First Traversal.
///
/// Performs a breadth-first traversal (BFT) on the graph from the given vertex
/// and applies the provided visitor to every edge and vertex it visits in
/// order. Due to how BFT is performed, the traversal of an edge happens just
/// before the out vertex it corresponds to is visited.
///
/// The source must be a vertex of the graph. The visitor is reset, then shown
/// the transitions of `breadth_first`, in order, until it asks to stop or has
/// seen them all: it is asked before each transition.
pub fn breadth_first_traversal<
    'a,
    Id: Identifier,
    Registry: IdentifierRegistry<Id>,
    Data: Clone + PartialEq,
    WeightData: Clone + PartialEq,
    V: GraphVisitor<'a, Id, Data, WeightData>,
>(graph: &'a Graph<Id, Data, WeightData, Registry>, source: Id, visitor: &mut V)
    requires
        graph.wf(),
        graph@.vertices.contains_key(source),
        old(visitor).inv(),
        old(visitor).setup().starts_at(source),
    ensures
        final(visitor).inv(),
        final(visitor).setup() == old(visitor).setup(),
        final(visitor).trace() == graph@.visits(
            graph@.breadth_first(source).take(
                stop_after(graph@, source, old(visitor).setup(), 0) as int,
            ),
        ),
{
    proof {
        Id::lemma_identifier();
        graph.lemma_wf();
    }
    broadcast use group_hash_axioms;

    graph.vertices.get(&source).expect(
        "The breadth-first search must begin on a vertex in the graph.",
    );

    let mut transition_queue: VecDeque<Transition<Id>> = VecDeque::new();
    let mut covered_vertices: HashSet<Id> = HashSet::new();

    let ghost given = visitor.setup();
    visitor.reset();

    transition_queue.push_back(Transition { via: None, vertex: source });
    covered_vertices.insert(source);

    let ghost view = graph@;
    let ghost size = view.vertices.dom().len();
    let ghost mut visited: Seq<Transition<Id>> = Seq::empty();
    proof {
        assert(visited =~= view.breadth_first(source).take(0));
        let start = GraphView::<Id, Data, WeightData>::search_start(source);
        assert(transition_queue@ =~= start.queue);
        assert(covered_vertices@ =~= start.covered()) by {
            assert forall|vertex: Id| start.covers(vertex) <==> vertex == source by {
                if start.covers(vertex) {
                    let k = choose|k: int|
                        0 <= k < start.all().len() && (#[trigger] start.all()[k]).vertex == vertex;
                }
                assert(start.all()[0].vertex == source);
            }
        }
    }

    while !visitor.should_terminate()
        invariant
            graph.wf(),
            view == graph@,
            view.well_formed(),
            view.vertices.contains_key(source),
            size == view.vertices.dom().len(),
            visitor.inv(),
            visitor.setup() == given,
            visitor.trace() == view.visits(visited),
            given.starts_at(source),
            visited == view.breadth_first(source).take(visited.len() as int),
            forall|fewer: int|
                0 <= fewer < visited.len() ==> !given.stops_on(
                    #[trigger] view.visits(view.breadth_first(source).take(fewer)),
                ),
            visited.len() <= size,
            (Search { visited: visited, queue: transition_queue@ }) == view.search_after(
                source,
                visited.len(),
            ),
            covered_vertices@ == (Search { visited: visited, queue: transition_queue@ }).covered(),
        ensures
            transition_queue@.len() == 0 || given.stops_on(visitor.trace()),
        decreases size - visited.len(),
    {
        let ghost search = Search { visited: visited, queue: transition_queue@ };
        let ghost seen = visited.len();
        proof {
            Id::lemma_identifier();
            view.lemma_search_inv(source, seen);
            view.lemma_search_bounded(source, search);
        }
        let transition = transition_queue.pop_front();

        match transition {
            None => {
                break ;
            },
            Some(transition) => {
                let vertex_id = transition.vertex;
                proof {
                    assert(search.all()[seen as int] == transition);
                    assert(view.placed(source, search, seen as int));
                    assert forall|k: int| 0 <= k < seen implies (#[trigger] visited[k]).vertex
                        != vertex_id by {
                        assert(view.ordered(source, search, k, seen as int));
                        assert(search.all()[k] == visited[k]);
                    }
                    view.lemma_visits_entered(visited, vertex_id);
                    if seen > 0 {
                        view.lemma_visits_last(visited);
                    }
                }
                let vertex: &VertexDescriptor<Id, Data> = graph.vertices.get(&vertex_id).unwrap();

                match transition.via {
                    Some((from_vertex_id, edge_id)) => {
                        proof {
                            view.lemma_link_of(from_vertex_id, edge_id, vertex_id);
                            let j = choose|j: int|
                                0 <= j < seen && j < search.visited.len() && (
                                #[trigger] search.all()[j]).vertex == from_vertex_id;
                            assert(visited[j].vertex == from_vertex_id);
                            view.lemma_visits_entered(visited, from_vertex_id);
                        }
                        let edge = graph.edges.get(&edge_id).unwrap();
                        visitor.visit_edge(from_vertex_id, edge, vertex_id);
                    },
                    None => {},
                }

                visitor.visit_vertex(vertex);

                proof {
                    let longer = visited.push(transition);
                    assert(longer.drop_last() =~= visited);
                    assert(view.visits(longer) =~= view.visits(visited) + view.shown(transition));
                    assert(visitor.trace() =~= view.visits(longer));
                    view.lemma_search_step(source, search);
                }
                let ghost rest = transition_queue@;
                let ghost covered = search.covered();
                let ghost links = view.out_links(vertex_id);

                match graph.forward_edges.get(&vertex_id) {
                    Some(forward) => {
                        let mut i: usize = 0;
                        assert(forward@.take(0) =~= Seq::<(Id, Id)>::empty());
                        assert(rest + discover(covered, vertex_id, forward@.take(0)) =~= rest);
                        while i < forward.len()
                            invariant
                                i <= forward.len(),
                                forward@ == links,
                                transition_queue@ == rest + discover(
                                    covered,
                                    vertex_id,
                                    links.take(i as int),
                                ),
                                forall|vertex: Id|
                                    #![trigger covered_vertices@.contains(vertex)]
                                    covered_vertices@.contains(vertex) <==> covered.contains(vertex)
                                        || enters(
                                        discover(covered, vertex_id, links.take(i as int)),
                                        vertex,
                                    ),
                            decreases forward.len() - i,
                        {
                            proof {
                                Id::lemma_identifier();
                            }
                            let (edge_id, to_vertex_id) = forward[i];
                            let ghost earlier = discover(covered, vertex_id, links.take(i as int));
                            let ghost scanned = links.take(i + 1);
                            proof {
                                assert(scanned.drop_last() =~= links.take(i as int));
                                assert(scanned.last() == (edge_id, to_vertex_id));
                            }
                            let new_transition = Transition {
                                via: Some((vertex_id, edge_id)),
                                vertex: to_vertex_id,
                            };

                            if !covered_vertices.contains(&to_vertex_id) {
                                let ghost covered_before = covered_vertices@;
                                assert(!covered_before.contains(to_vertex_id));
                                assert(!covered.contains(to_vertex_id) && !enters(
                                    earlier,
                                    to_vertex_id,
                                ));
                                covered_vertices.insert(to_vertex_id);
                                transition_queue.push_back(new_transition);
                                proof {
                                    let found = discover(covered, vertex_id, scanned);
                                    assert(found == earlier.push(new_transition));
                                    assert(transition_queue@ =~= rest + found);
                                    assert(covered_vertices@ == covered_before.insert(
                                        to_vertex_id,
                                    ));
                                    assert forall|vertex: Id|
                                        covered_vertices@.contains(vertex) <==> covered.contains(
                                            vertex,
                                        ) || enters(found, vertex) by {
                                        assert(covered_before.contains(vertex)
                                            <==> covered.contains(vertex) || enters(
                                            earlier,
                                            vertex,
                                        ));
                                        if enters(found, vertex) {
                                            let k = choose|k: int|
                                                0 <= k < found.len() && (
                                                #[trigger] found[k]).vertex == vertex;
                                            if k < earlier.len() {
                                                assert(earlier[k].vertex == vertex);
                                            }
                                        }
                                        if enters(earlier, vertex) {
                                            let k = choose|k: int|
                                                0 <= k < earlier.len() && (
                                                #[trigger] earlier[k]).vertex == vertex;
                                            assert(found[k].vertex == vertex);
                                        }
                                        assert(found[earlier.len() as int].vertex == to_vertex_id);
                                    }
                                }
                            } else {
                                assert(discover(covered, vertex_id, scanned) == earlier);
                            }
                            i += 1;
                        }
                        assert(links.take(i as int) =~= links);
                    },
                    None => {
                        assert(links =~= Seq::<(Id, Id)>::empty());
                        assert(rest + discover(covered, vertex_id, links) =~= rest);
                        assert forall|vertex: Id|
                            covered_vertices@.contains(vertex) <==> covered.contains(vertex)
                                || enters(discover(covered, vertex_id, links), vertex) by {
                            if enters(discover(covered, vertex_id, links), vertex) {
                                let k = choose|k: int|
                                    0 <= k < discover(covered, vertex_id, links).len() && (
                                    #[trigger] discover(covered, vertex_id, links)[k]).vertex
                                        == vertex;
                            }
                        }
                    },
                }
                assert(forall|vertex: Id|
                    #![trigger covered_vertices@.contains(vertex)]
                    covered_vertices@.contains(vertex) <==> covered.contains(vertex) || enters(
                        discover(covered, vertex_id, links),
                        vertex,
                    ));
                proof {
                    let found = discover(covered, vertex_id, links);
                    let next = view.search_step(search);
                    assert(rest =~= search.queue.drop_first());
                    assert(transition_queue@ =~= next.queue);
                    visited = visited.push(transition);
                    assert(next == (Search { visited: visited, queue: transition_queue@ }));
                    assert(next == view.search_after(source, visited.len()));
                    view.lemma_search_bounded(source, next);
                    view.lemma_search_grows(source, visited.len(), size);
                    assert(visited =~= view.breadth_first(source).take(visited.len() as int));
                    assert(covered_vertices@ =~= next.covered()) by {
                        assert forall|vertex: Id|
                            covered_vertices@.contains(vertex) <==> next.covers(vertex) by {
                            lemma_enters_concat(search.all(), found, vertex);
                            assert(covered.contains(vertex) <==> search.covers(vertex));
                            assert(covered_vertices@.contains(vertex) <==> covered.contains(vertex)
                                || enters(found, vertex));
                        }
                    }
                }
            },
        }
    }
    proof {
        let seen = visited.len();
        view.lemma_search_grows(source, seen, size);
        if transition_queue@.len() == 0 {
            view.lemma_search_rests(source, seen, size);
        }
        lemma_stops_first(view, source, given, 0, seen);
    }
}

/// A concatenation enters what either part enters.
pub proof fn lemma_enters_concat<Id>(
    first: Seq<Transition<Id>>,
    second: Seq<Transition<Id>>,
    vertex: Id,
)
    ensures
        enters(first + second, vertex) <==> enters(first, vertex) || enters(second, vertex),
{
    let both = first + second;
    if enters(both, vertex) {
        let k = choose|k: int| 0 <= k < both.len() && (#[trigger] both[k]).vertex == vertex;
        if k < first.len() {
            assert(first[k].vertex == vertex);
        } else {
            assert(second[k - first.len()].vertex == vertex);
        }
    }
    if enters(first, vertex) {
        let k = choose|k: int| 0 <= k < first.len() && (#[trigger] first[k]).vertex == vertex;
        assert(both[k].vertex == vertex);
    }
    if enters(second, vertex) {
        let k = choose|k: int| 0 <= k < second.len() && (#[trigger] second[k]).vertex == vertex;
        assert(both[first.len() + k].vertex == vertex);
    }
}

} // verus!
