use digraph::math::graph::elements::make_edge;
use digraph::math::graph::elements::make_vertex;
use digraph::math::graph::elements::EdgeDescriptor;
use digraph::math::graph::elements::GraphElement;
use digraph::math::graph::elements::VertexDescriptor;
use digraph::math::graph::mutators;
use digraph::math::graph::pathfinding::find_path;
use digraph::math::graph::traversal::breadth_first_traversal;
use digraph::math::graph::Graph;
use digraph::math::graph::GraphVisitor;
use digraph::math::graph::VertexCollector;
use digraph::utility::idregistry::ExplicitIntegralIdentifierRegistry;
use digraph::utility::idregistry::IdentifierRegistry;
use std::collections::LinkedList;
use std::marker::PhantomData;

struct CountingGraphVisitor {
    vertex_count: usize,
    edge_count: usize,
}

impl<'a> GraphVisitor<'a, usize, f32, f32> for CountingGraphVisitor {
    fn reset(&mut self) {
        self.vertex_count = 0;
        self.edge_count = 0;
    }

    fn visit_vertex(&mut self, _: &'a VertexDescriptor<usize, f32>) {
        self.vertex_count += 1;
    }

    fn visit_edge(&mut self, _: usize, _: &'a EdgeDescriptor<usize, f32>, _: usize) {
        self.edge_count += 1;
    }

    fn should_terminate(&self) -> bool {
        false
    }
}

#[test]
fn graph_empty() {
    let _: Graph<usize, f32, f32, _> = Graph::new(
        ExplicitIntegralIdentifierRegistry::null_registry(),
        ExplicitIntegralIdentifierRegistry::null_registry(),
    );
}

#[test]
fn graph_simple_visiting() {
    let mut g: Graph<usize, f32, f32, _> = Graph::new(
        ExplicitIntegralIdentifierRegistry::new(3),
        ExplicitIntegralIdentifierRegistry::new(2),
    );

    let v1 = mutators::add_vertex(&mut g, 1.5);
    let v2 = mutators::add_vertex(&mut g, 1.5);
    let v3 = mutators::add_vertex(&mut g, 1.5);
    mutators::add_edge(&mut g, v2, v3, 2.0);

    let mut visitor = CountingGraphVisitor {
        vertex_count: 0,
        edge_count: 0,
    };

    breadth_first_traversal(&g, v1, &mut visitor);

    assert_eq!(visitor.edge_count, 0);
    assert_eq!(visitor.vertex_count, 1);

    breadth_first_traversal(&g, v2, &mut visitor);

    assert_eq!(visitor.edge_count, 1);
    assert_eq!(visitor.vertex_count, 2);

    breadth_first_traversal(&g, v3, &mut visitor);

    assert_eq!(visitor.edge_count, 0);
    assert_eq!(visitor.vertex_count, 1);
}

#[derive(Clone, PartialEq, Debug)]
enum VertexTag {
    V1,
    V2,
    V3,
    V4,
    V5,
}

type TaggedGraph = Graph<usize, VertexTag, PhantomData<f32>, ExplicitIntegralIdentifierRegistry>;

/// Vertices {1,2,3,4,5} and edges 1→2, 1→3, 1→4, 3→2, 3→5, 3→4, 4→5, 4→1,
/// 2→5, 5→2, added in this order.
fn tagged_graph() -> (TaggedGraph, [usize; 5]) {
    let mut g: TaggedGraph = Graph::new(
        ExplicitIntegralIdentifierRegistry::new(6),
        ExplicitIntegralIdentifierRegistry::new(12),
    );

    let v1 = mutators::add_vertex(&mut g, VertexTag::V1);
    let v2 = mutators::add_vertex(&mut g, VertexTag::V2);
    let v3 = mutators::add_vertex(&mut g, VertexTag::V3);
    let v4 = mutators::add_vertex(&mut g, VertexTag::V4);
    let v5 = mutators::add_vertex(&mut g, VertexTag::V5);

    mutators::add_edge(&mut g, v1, v2, PhantomData);
    mutators::add_edge(&mut g, v1, v3, PhantomData);
    mutators::add_edge(&mut g, v1, v4, PhantomData);

    mutators::add_edge(&mut g, v3, v2, PhantomData);
    mutators::add_edge(&mut g, v3, v5, PhantomData);
    mutators::add_edge(&mut g, v3, v4, PhantomData);

    mutators::add_edge(&mut g, v4, v5, PhantomData);
    mutators::add_edge(&mut g, v4, v1, PhantomData);

    mutators::add_edge(&mut g, v2, v5, PhantomData);

    mutators::add_edge(&mut g, v5, v2, PhantomData);

    (g, [v1, v2, v3, v4, v5])
}

#[test]
fn graph_nontrivial_bfs() {
    let mut g: Graph<usize, VertexTag, PhantomData<f32>, _> = Graph::new(
        ExplicitIntegralIdentifierRegistry::new(6),
        ExplicitIntegralIdentifierRegistry::new(12),
    );

    let v1 = mutators::add_vertex(&mut g, VertexTag::V1);
    let v2 = mutators::add_vertex(&mut g, VertexTag::V2);
    let v3 = mutators::add_vertex(&mut g, VertexTag::V3);
    let v4 = mutators::add_vertex(&mut g, VertexTag::V4);
    let v5 = mutators::add_vertex(&mut g, VertexTag::V5);

    mutators::add_edge(&mut g, v1, v2, PhantomData);
    mutators::add_edge(&mut g, v1, v3, PhantomData);
    mutators::add_edge(&mut g, v1, v4, PhantomData);

    mutators::add_edge(&mut g, v3, v2, PhantomData);
    mutators::add_edge(&mut g, v3, v5, PhantomData);
    mutators::add_edge(&mut g, v3, v4, PhantomData);

    mutators::add_edge(&mut g, v4, v5, PhantomData);
    mutators::add_edge(&mut g, v4, v1, PhantomData);

    mutators::add_edge(&mut g, v2, v5, PhantomData);

    mutators::add_edge(&mut g, v5, v2, PhantomData);

    // BFS from V1 should result in the entire vertex set.
    {
        let mut vertex_collector = VertexCollector::new(|_| true);
        breadth_first_traversal(&g, v1, &mut vertex_collector);
        let g_bfs: LinkedList<usize> = vertex_collector
            .vertices()
            .iter()
            .map(|vdesc| vdesc.id().clone())
            .collect();
        assert_eq!(g_bfs, LinkedList::from([v1, v2, v3, v4, v5]))
    }
    {
        // BFS from V2 and V5 are just the two element set containing V2 and V5.
        let mut vertex_collector = VertexCollector::new(|_| true);
        breadth_first_traversal(&g, v2, &mut vertex_collector);
        let g_bfs: LinkedList<usize> = vertex_collector
            .vertices()
            .iter()
            .map(|vdesc| vdesc.id().clone())
            .collect();
        assert_eq!(g_bfs, LinkedList::from([v2, v5]));
    }
    {
        // BFS from V2 and V5 are just the two element set containing V2 and V5.
        let mut vertex_collector = VertexCollector::new(|_| true);
        breadth_first_traversal(&g, v5, &mut vertex_collector);
        let g_bfs: LinkedList<usize> = vertex_collector
            .vertices()
            .iter()
            .map(|vdesc| vdesc.id().clone())
            .collect();
        assert_eq!(g_bfs, LinkedList::from([v5, v2]));
    }
    {
        // BFS from V3 is the entire set.
        let mut vertex_collector = VertexCollector::new(|_| true);
        breadth_first_traversal(&g, v3, &mut vertex_collector);
        let g_bfs: LinkedList<usize> = vertex_collector
            .vertices()
            .iter()
            .map(|vdesc| vdesc.id().clone())
            .collect();
        assert_eq!(g_bfs, LinkedList::from([v3, v2, v5, v4, v1]))
    }
    {
        // BFS from V4 is the entire set.
        let mut vertex_collector = VertexCollector::new(|_| true);
        breadth_first_traversal(&g, v4, &mut vertex_collector);
        let g_bfs: LinkedList<usize> = vertex_collector
            .vertices()
            .iter()
            .map(|vdesc| vdesc.id().clone())
            .collect();
        assert_eq!(g_bfs, LinkedList::from([v4, v5, v1, v2, v3]))
    }
}

#[test]
fn elements_keep_their_identifier() {
    let vertex = make_vertex(7usize, "seven");
    assert_eq!(*vertex.id(), 7);
    assert_eq!(*vertex.data(), "seven");
    let renamed = vertex.with_data("sept");
    assert_eq!(*renamed.id(), 7);
    assert_eq!(*renamed.data(), "sept");
    assert_eq!(*vertex.data(), "seven");

    let edge = make_edge(3usize, 10u32);
    assert_eq!(*edge.id(), 3);
    assert_eq!(*edge.data(), 10);
    let doubled = edge.map(|weight| weight * 2);
    assert_eq!(*doubled.id(), 3);
    assert_eq!(*doubled.data(), 20);
}

#[test]
fn graph_vertices_are_named_in_rising_order() {
    let mut g: Graph<usize, &str, u32, _> = Graph::new(
        ExplicitIntegralIdentifierRegistry::new(2),
        ExplicitIntegralIdentifierRegistry::new(1),
    );
    let a = mutators::add_vertex(&mut g, "a");
    let b = mutators::add_vertex(&mut g, "b");
    // The third vertex makes the registry grow.
    let c = mutators::add_vertex(&mut g, "c");
    assert_eq!((a, b, c), (0, 1, 2));
    assert_eq!(*g.get_vertex(a).id(), a);
    assert_eq!(*g.get_vertex(a).data(), "a");
    assert_eq!(*g.get_vertex(b).data(), "b");
    assert_eq!(*g.get_vertex(c).data(), "c");

    let ab = mutators::add_edge(&mut g, a, b, 10);
    let bc = mutators::add_edge(&mut g, b, c, 20);
    assert_eq!((ab, bc), (0, 1));
    assert_eq!(*g.get_edge(ab).id(), ab);
    assert_eq!(*g.get_edge(ab).data(), 10);
    assert_eq!(*g.get_edge(bc).data(), 20);
}

#[test]
fn graph_adjacency_is_directed() {
    let mut g: Graph<usize, &str, &str, _> = Graph::new(
        ExplicitIntegralIdentifierRegistry::new(2),
        ExplicitIntegralIdentifierRegistry::new(2),
    );
    let a = mutators::add_vertex(&mut g, "A");
    let b = mutators::add_vertex(&mut g, "B");
    let ab = mutators::add_edge(&mut g, a, b, "W");

    assert!(g.is_adjacent(a, b));
    assert!(!g.is_adjacent(b, a));
    assert!(!g.is_adjacent(a, a));
    let edge = g.get_edge_between(a, b);
    assert_eq!(*edge.id(), ab);
    assert_eq!(*edge.data(), "W");
}

#[test]
fn graph_edge_between_is_the_first_that_was_added() {
    let mut g: Graph<usize, (), &str, _> = Graph::new(
        ExplicitIntegralIdentifierRegistry::new(2),
        ExplicitIntegralIdentifierRegistry::new(2),
    );
    let a = mutators::add_vertex(&mut g, ());
    let b = mutators::add_vertex(&mut g, ());
    let first = mutators::add_edge(&mut g, a, b, "first");
    let second = mutators::add_edge(&mut g, a, b, "second");
    assert_ne!(first, second);
    assert_eq!(*g.get_edge_between(a, b).id(), first);
    assert_eq!(*g.get_edge_between(a, b).data(), "first");
    assert_eq!(g.out_neighbours_of(a).len(), 2);
}

fn ids_of<'a, W: Clone>(
    neighbours: impl IntoIterator<
        Item = (&'a EdgeDescriptor<usize, W>, &'a VertexDescriptor<usize, VertexTag>),
    >,
) -> Vec<(usize, usize)>
where
    W: 'a,
{
    neighbours
        .into_iter()
        .map(|(edge, vertex)| (*edge.id(), *vertex.id()))
        .collect()
}

#[test]
fn graph_neighbours_come_in_insertion_order() {
    let (g, [v1, v2, v3, v4, v5]) = tagged_graph();
    assert_eq!(ids_of(g.out_neighbours_of(v1)), vec![(0, v2), (1, v3), (2, v4)]);
    assert_eq!(ids_of(g.neighbours_of(v1)), vec![(0, v2), (1, v3), (2, v4)]);
    assert_eq!(ids_of(g.out_neighbours_of(v3)), vec![(3, v2), (4, v5), (5, v4)]);
    assert_eq!(ids_of(g.out_neighbours_of(v2)), vec![(8, v5)]);
    assert_eq!(ids_of(g.in_neighbours_of(v2)), vec![(0, v1), (3, v3), (9, v5)]);
    assert_eq!(ids_of(g.in_neighbours_of(v5)), vec![(4, v3), (6, v4), (8, v2)]);
    assert_eq!(ids_of(g.in_neighbours_of(v3)), vec![(1, v1)]);
    // A vertex that is not in the graph has no neighbours.
    assert!(g.out_neighbours_of(99).is_empty());
    assert!(g.in_neighbours_of(99).is_empty());
    // The payloads are those of the graph.
    let neighbours = g.out_neighbours_of(v1);
    let tags: Vec<VertexTag> = neighbours.iter().map(|(_, v)| v.data().clone()).collect();
    assert_eq!(tags, vec![VertexTag::V2, VertexTag::V3, VertexTag::V4]);
}

#[test]
fn graph_adjacency_is_symmetric() {
    let (g, vertices) = tagged_graph();
    for &u in vertices.iter() {
        for (edge, v) in g.out_neighbours_of(u) {
            assert!(g.is_adjacent(u, *v.id()));
            let back = ids_of(g.in_neighbours_of(*v.id()));
            assert!(back.contains(&(*edge.id(), u)));
        }
        for (edge, v) in g.in_neighbours_of(u) {
            let forth = ids_of(g.out_neighbours_of(*v.id()));
            assert!(forth.contains(&(*edge.id(), u)));
        }
    }
}

#[test]
fn graph_reverse_swaps_the_directions() {
    let (g, [v1, v2, v3, v4, v5]) = tagged_graph();
    let out_before: Vec<Vec<(usize, usize)>> = [v1, v2, v3, v4, v5]
        .iter()
        .map(|&v| ids_of(g.out_neighbours_of(v)))
        .collect();
    let in_before: Vec<Vec<(usize, usize)>> = [v1, v2, v3, v4, v5]
        .iter()
        .map(|&v| ids_of(g.in_neighbours_of(v)))
        .collect();
    let reversed = g.reverse_graph();
    for (k, &v) in [v1, v2, v3, v4, v5].iter().enumerate() {
        assert_eq!(ids_of(reversed.out_neighbours_of(v)), in_before[k]);
        assert_eq!(ids_of(reversed.in_neighbours_of(v)), out_before[k]);
    }
    assert!(reversed.is_adjacent(v2, v1));
    assert!(!reversed.is_adjacent(v1, v2));
    assert_eq!(*reversed.get_vertex(v3).data(), VertexTag::V3);
    // Reversing twice gives the first graph back.
    let again = reversed.reverse_graph();
    for (k, &v) in [v1, v2, v3, v4, v5].iter().enumerate() {
        assert_eq!(ids_of(again.out_neighbours_of(v)), out_before[k]);
    }
}

#[test]
fn graph_select_vertices_by_payload() {
    let mut g: Graph<usize, u32, (), _> = Graph::new(
        ExplicitIntegralIdentifierRegistry::new(4),
        ExplicitIntegralIdentifierRegistry::new(1),
    );
    let ids: Vec<usize> = [5u32, 12, 7, 30, 12]
        .iter()
        .map(|&payload| mutators::add_vertex(&mut g, payload))
        .collect();
    let mut large: Vec<usize> = g
        .select_vertices(|payload| *payload > 10)
        .iter()
        .map(|vertex| *vertex.id())
        .collect();
    large.sort();
    assert_eq!(large, vec![ids[1], ids[3], ids[4]]);
    assert!(g.select_vertices(|_| false).is_empty());
    assert_eq!(g.select_vertices(|_| true).len(), 5);
}

#[test]
fn graph_map_vertex_replaces_the_payload() {
    let mut g: Graph<usize, String, u8, _> = Graph::new(
        ExplicitIntegralIdentifierRegistry::new(2),
        ExplicitIntegralIdentifierRegistry::new(2),
    );
    let a = mutators::add_vertex(&mut g, "a".to_string());
    let b = mutators::add_vertex(&mut g, "b".to_string());
    let ab = mutators::add_edge(&mut g, a, b, 1);
    mutators::map_vertex(&mut g, a, |payload| format!("{}{}", payload, payload));
    assert_eq!(g.get_vertex(a).data(), "aa");
    assert_eq!(*g.get_vertex(a).id(), a);
    assert_eq!(g.get_vertex(b).data(), "b");
    // The edges are as they were.
    assert!(g.is_adjacent(a, b));
    assert_eq!(*g.get_edge_between(a, b).id(), ab);
    // The next vertex gets the next identifier.
    assert_eq!(mutators::add_vertex(&mut g, "c".to_string()), 2);
}

#[derive(Debug, PartialEq)]
enum Seen {
    Reset,
    Vertex(usize),
    Edge(usize, usize, usize),
}

struct Recorder {
    seen: Vec<Seen>,
    stop_after: usize,
    vertices: usize,
}

impl<'a> GraphVisitor<'a, usize, VertexTag, PhantomData<f32>> for Recorder {
    fn reset(&mut self) {
        self.seen.clear();
        self.seen.push(Seen::Reset);
        self.vertices = 0;
    }

    fn visit_vertex(&mut self, vertex: &'a VertexDescriptor<usize, VertexTag>) {
        self.seen.push(Seen::Vertex(*vertex.id()));
        self.vertices += 1;
    }

    fn visit_edge(
        &mut self,
        from: usize,
        edge: &'a EdgeDescriptor<usize, PhantomData<f32>>,
        to: usize,
    ) {
        self.seen.push(Seen::Edge(from, *edge.id(), to));
    }

    fn should_terminate(&self) -> bool {
        self.vertices >= self.stop_after
    }
}

#[test]
fn traversal_shows_each_edge_before_its_vertex() {
    let (g, [v1, v2, v3, v4, v5]) = tagged_graph();
    let mut recorder = Recorder { seen: vec![Seen::Vertex(77)], stop_after: usize::MAX, vertices: 9 };
    breadth_first_traversal(&g, v1, &mut recorder);
    assert_eq!(
        recorder.seen,
        vec![
            Seen::Reset,
            Seen::Vertex(v1),
            Seen::Edge(v1, 0, v2),
            Seen::Vertex(v2),
            Seen::Edge(v1, 1, v3),
            Seen::Vertex(v3),
            Seen::Edge(v1, 2, v4),
            Seen::Vertex(v4),
            Seen::Edge(v2, 8, v5),
            Seen::Vertex(v5),
        ]
    );
}

#[test]
fn traversal_stops_when_the_visitor_asks() {
    let (g, [v1, v2, v3, _, _]) = tagged_graph();
    let mut recorder = Recorder { seen: Vec::new(), stop_after: 3, vertices: 0 };
    breadth_first_traversal(&g, v1, &mut recorder);
    assert_eq!(
        recorder.seen,
        vec![
            Seen::Reset,
            Seen::Vertex(v1),
            Seen::Edge(v1, 0, v2),
            Seen::Vertex(v2),
            Seen::Edge(v1, 1, v3),
            Seen::Vertex(v3),
        ]
    );
    // A visitor that wants to stop at once is shown nothing.
    let mut recorder = Recorder { seen: Vec::new(), stop_after: 0, vertices: 0 };
    breadth_first_traversal(&g, v1, &mut recorder);
    assert_eq!(recorder.seen, vec![Seen::Reset]);
}

#[test]
fn traversal_visits_what_is_reachable_once() {
    let (g, vertices) = tagged_graph();
    // 2 and 5 reach only each other; every other vertex reaches all five.
    let expected: [&[usize]; 5] = [&[0, 1, 2, 3, 4], &[1, 4], &[2, 1, 4, 3, 0], &[3, 4, 0, 1, 2], &[4, 1]];
    for (k, &source) in vertices.iter().enumerate() {
        let mut collector = VertexCollector::new(|_| true);
        breadth_first_traversal(&g, source, &mut collector);
        let order: Vec<usize> = collector.vertices().iter().map(|v| *v.id()).collect();
        assert_eq!(order, expected[k].to_vec());
        let mut sorted = order.clone();
        sorted.sort();
        sorted.dedup();
        assert_eq!(sorted.len(), order.len());
    }
}

#[test]
fn collector_keeps_what_the_selector_accepts() {
    let (g, [v1, _, v3, _, v5]) = tagged_graph();
    let mut collector =
        VertexCollector::new(|tag: &VertexTag| matches!(tag, VertexTag::V1 | VertexTag::V3 | VertexTag::V5));
    breadth_first_traversal(&g, v1, &mut collector);
    let order: Vec<usize> = collector.vertices().iter().map(|v| *v.id()).collect();
    assert_eq!(order, vec![v1, v3, v5]);
    // A second traversal starts from nothing.
    breadth_first_traversal(&g, v5, &mut collector);
    let order: Vec<usize> = collector.vertices().iter().map(|v| *v.id()).collect();
    assert_eq!(order, vec![v5]);
}

fn path_ids(g: &TaggedGraph, from: usize, to: usize) -> Option<(Vec<usize>, Vec<usize>)> {
    find_path(g, from, to).map(|walk| {
        (
            walk.vertices().iter().map(|v| *v.id()).collect(),
            walk.edges().iter().map(|e| *e.id()).collect(),
        )
    })
}

#[test]
fn path_is_shortest_by_edge_count() {
    let (g, [v1, v2, v3, v4, v5]) = tagged_graph();
    assert_eq!(path_ids(&g, v1, v2), Some((vec![v1, v2], vec![0])));
    assert_eq!(path_ids(&g, v1, v5), Some((vec![v1, v2, v5], vec![0, 8])));
    assert_eq!(path_ids(&g, v3, v1), Some((vec![v3, v4, v1], vec![5, 7])));
    assert_eq!(path_ids(&g, v4, v3), Some((vec![v4, v1, v3], vec![7, 1])));
    assert_eq!(path_ids(&g, v5, v2), Some((vec![v5, v2], vec![9])));
    let _ = (v3, v4);
}

#[test]
fn path_to_itself_has_no_edge() {
    let (g, [v1, _, _, _, v5]) = tagged_graph();
    assert_eq!(path_ids(&g, v1, v1), Some((vec![v1], vec![])));
    assert_eq!(path_ids(&g, v5, v5), Some((vec![v5], vec![])));
}

#[test]
fn path_is_nothing_when_unreachable() {
    let (g, [v1, v2, v3, v4, v5]) = tagged_graph();
    assert_eq!(path_ids(&g, v2, v1), None);
    assert_eq!(path_ids(&g, v5, v3), None);
    assert_eq!(path_ids(&g, v2, v4), None);
    let _ = (v1, v3, v4, v5);
}

#[test]
fn path_carries_the_payloads_of_the_graph() {
    let mut g: Graph<usize, &str, u32, _> = Graph::new(
        ExplicitIntegralIdentifierRegistry::new(1),
        ExplicitIntegralIdentifierRegistry::new(1),
    );
    let a = mutators::add_vertex(&mut g, "a");
    let b = mutators::add_vertex(&mut g, "b");
    let c = mutators::add_vertex(&mut g, "c");
    let d = mutators::add_vertex(&mut g, "d");
    mutators::add_edge(&mut g, a, b, 100);
    mutators::add_edge(&mut g, b, c, 200);
    mutators::add_edge(&mut g, c, d, 300);
    // A heavy shortcut: weights do not count, only the number of edges.
    mutators::add_edge(&mut g, a, c, 9000);
    let walk = find_path(&g, a, d).expect("d is reachable from a");
    let names: Vec<&str> = walk.vertices().iter().map(|v| *v.data()).collect();
    let weights: Vec<u32> = walk.edges().iter().map(|e| *e.data()).collect();
    assert_eq!(names, vec!["a", "c", "d"]);
    assert_eq!(weights, vec![9000, 300]);
    assert_eq!(walk.edges().len() + 1, walk.vertices().len());
    assert!(find_path(&g, d, a).is_none());
}

#[test]
#[should_panic(expected = "The breadth-first search must begin on a vertex in the graph.")]
fn graph_empty_visiting() {
    let g: Graph<usize, f32, f32, _> = Graph::new(
        ExplicitIntegralIdentifierRegistry::null_registry(),
        ExplicitIntegralIdentifierRegistry::null_registry(),
    );
    let mut visitor = CountingGraphVisitor {
        vertex_count: 0,
        edge_count: 0,
    };

    breadth_first_traversal(&g, 0, &mut visitor);
}

#[test]
fn graph_add_edge_takes_the_endpoints_on_trust() {
    // Nothing checks that the ends of a new edge are vertices of the graph:
    // that is the caller's part. The edge is stored all the same.
    let mut g: Graph<usize, &str, &str, _> = Graph::new(
        ExplicitIntegralIdentifierRegistry::new(1),
        ExplicitIntegralIdentifierRegistry::new(1),
    );
    let a = mutators::add_vertex(&mut g, "a");
    let dangling = mutators::add_edge(&mut g, a, 99, "nowhere");
    assert_eq!(dangling, 0);
    assert_eq!(*g.get_edge(dangling).data(), "nowhere");
    assert_eq!(*g.get_vertex(a).data(), "a");
}

#[test]
fn traversal_goes_level_by_level() {
    // A diamond with a tail: 0 → 1, 0 → 2, 1 → 3, 2 → 3, 3 → 4.
    let mut g: Graph<usize, u8, u8, _> = Graph::new(
        ExplicitIntegralIdentifierRegistry::new(5),
        ExplicitIntegralIdentifierRegistry::new(5),
    );
    let v: Vec<usize> = (0..5u8).map(|d| mutators::add_vertex(&mut g, d)).collect();
    mutators::add_edge(&mut g, v[0], v[2], 0);
    mutators::add_edge(&mut g, v[0], v[1], 0);
    mutators::add_edge(&mut g, v[1], v[3], 0);
    mutators::add_edge(&mut g, v[2], v[3], 0);
    mutators::add_edge(&mut g, v[3], v[4], 0);
    let mut collector = VertexCollector::new(|_| true);
    breadth_first_traversal(&g, v[0], &mut collector);
    let order: Vec<usize> = collector.vertices().iter().map(|d| *d.id()).collect();
    // 2 was linked before 1, so it is visited first and 3 is reached from it.
    assert_eq!(order, vec![v[0], v[2], v[1], v[3], v[4]]);
    let walk = find_path(&g, v[0], v[4]).expect("4 is reachable from 0");
    let ids: Vec<usize> = walk.vertices().iter().map(|d| *d.id()).collect();
    assert_eq!(ids, vec![v[0], v[2], v[3], v[4]]);
    // Distances along the order never fall.
    let distance = |to: usize| find_path(&g, v[0], to).map(|w| w.edges().len());
    let distances: Vec<usize> = order.iter().map(|&to| distance(to).unwrap()).collect();
    assert_eq!(distances, vec![0, 1, 1, 2, 3]);
}

#[test]
fn descriptors_compare_by_identifier() {
    assert!(make_vertex(1usize, "a") == make_vertex(1usize, "b"));
    assert!(make_vertex(1usize, "a") != make_vertex(2usize, "a"));
    assert!(make_edge(4usize, 1.5f32) == make_edge(4usize, 2.5f32));
    let copy = make_edge(4usize, 1.5f32).clone();
    assert_eq!(*copy.id(), 4);
    assert_eq!(*copy.data(), 1.5);
}
