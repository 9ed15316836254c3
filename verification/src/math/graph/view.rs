//! A graph as a mathematical object.
//!
//! The view of a graph holds its vertices, its edges and its links as plain
//! maps and sequences. What the graph engine does is stated over it.

use vstd::prelude::*;

verus! {

/// A graph as plain values: the payload under each vertex and edge
/// identifier, and for each vertex the links that leave it and that enter it.
/// A link is the pair of an edge identifier and the vertex at the edge's other
/// end; the links of a vertex stand in the order in which they were added.
#[verifier::reject_recursive_types(Id)]
pub struct GraphView<Id, Data, WeightData> {
    pub vertices: Map<Id, Data>,
    pub edges: Map<Id, WeightData>,
    pub forward: Map<Id, Seq<(Id, Id)>>,
    pub backward: Map<Id, Seq<(Id, Id)>>,
}

impl<Id, Data, WeightData> GraphView<Id, Data, WeightData> {
    /// The graph without vertices and edges.
    pub open spec fn empty() -> Self {
        GraphView {
            vertices: Map::empty(),
            edges: Map::empty(),
            forward: Map::empty(),
            backward: Map::empty(),
        }
    }

    /// The links of `links` at `vertex`, none if it has no entry.
    pub open spec fn links_at(links: Map<Id, Seq<(Id, Id)>>, vertex: Id) -> Seq<(Id, Id)> {
        if links.contains_key(vertex) {
            links[vertex]
        } else {
            Seq::empty()
        }
    }

    /// The links that leave `vertex`, as (edge, target), in insertion order.
    pub open spec fn out_links(self, vertex: Id) -> Seq<(Id, Id)> {
        Self::links_at(self.forward, vertex)
    }

    /// The links that enter `vertex`, as (edge, source), in insertion order.
    pub open spec fn in_links(self, vertex: Id) -> Seq<(Id, Id)> {
        Self::links_at(self.backward, vertex)
    }

    /// Some edge leads from `from` to `to`.
    pub open spec fn adjacent(self, from: Id, to: Id) -> bool {
        exists|i: int|
            0 <= i < self.out_links(from).len() && (#[trigger] self.out_links(from)[i]).1 == to
    }

    /// Every link stands at a vertex of the graph and names an edge and a
    /// vertex of the graph.
    pub open spec fn links_closed(self, links: Map<Id, Seq<(Id, Id)>>) -> bool {
        forall|vertex: Id, i: int|
            links.contains_key(vertex) && 0 <= i < links[vertex].len() ==> self.holds(
                vertex,
                #[trigger] links[vertex][i],
            )
    }

    /// The graph holds `vertex` and both the edge and the vertex of `link`.
    pub open spec fn holds(self, vertex: Id, link: (Id, Id)) -> bool {
        &&& self.vertices.contains_key(vertex)
        &&& self.edges.contains_key(link.0)
        &&& self.vertices.contains_key(link.1)
    }

    /// No edge identifier stands in two links.
    pub open spec fn links_distinct(links: Map<Id, Seq<(Id, Id)>>) -> bool {
        forall|v: Id, i: int, w: Id, j: int|
            links.contains_key(v) && 0 <= i < links[v].len() && links.contains_key(w) && 0 <= j
                < links[w].len() && (#[trigger] links[v][i]).0 == (#[trigger] links[w][j]).0 ==> v
                == w && i == j
    }

    /// Some link of `links` names `edge`.
    pub open spec fn links_name(links: Map<Id, Seq<(Id, Id)>>, edge: Id) -> bool {
        exists|vertex: Id, i: int|
            links.contains_key(vertex) && 0 <= i < links[vertex].len() && (
            #[trigger] links[vertex][i]).0 == edge
    }

    /// Every edge of the graph stands in a link.
    pub open spec fn edges_linked(self, links: Map<Id, Seq<(Id, Id)>>) -> bool {
        forall|edge: Id| #[trigger] self.edges.contains_key(edge) ==> Self::links_name(links, edge)
    }

    /// The edge `edge` leads from `from` to `to`.
    pub open spec fn joins(self, edge: Id, from: Id, to: Id) -> bool {
        self.out_links(from).contains((edge, to))
    }

    /// The graph's invariant: it has finitely many vertices, links name only
    /// what the graph holds, every edge stands in exactly one link of each
    /// direction, and the links that enter are exactly the links that leave,
    /// read backward.
    pub open spec fn well_formed(self) -> bool {
        &&& self.vertices.dom().finite()
        &&& self.links_closed(self.forward)
        &&& self.links_closed(self.backward)
        &&& Self::links_distinct(self.forward)
        &&& Self::links_distinct(self.backward)
        &&& self.edges_linked(self.forward)
        &&& self.edges_linked(self.backward)
        &&& forall|from: Id, edge: Id, to: Id|
            #![trigger self.out_links(from).contains((edge, to))]
            #![trigger self.in_links(to).contains((edge, from))]
            self.out_links(from).contains((edge, to)) <==> self.in_links(to).contains((edge, from))
    }

    /// The same vertices and edges with every edge turned around.
    pub open spec fn reversed(self) -> Self {
        GraphView { forward: self.backward, backward: self.forward, ..self }
    }

    /// The graph with one more vertex, or with another payload under `id`.
    pub open spec fn with_vertex(self, id: Id, data: Data) -> Self {
        GraphView { vertices: self.vertices.insert(id, data), ..self }
    }

    /// The graph with one more edge from `from` to `to`: its link is the last
    /// to leave `from` and the last to enter `to`.
    pub open spec fn with_edge(self, id: Id, from: Id, data: WeightData, to: Id) -> Self {
        GraphView {
            edges: self.edges.insert(id, data),
            forward: self.forward.insert(from, self.out_links(from).push((id, to))),
            backward: self.backward.insert(to, self.in_links(to).push((id, from))),
            ..self
        }
    }

    /// A vertex more, or another payload, leaves the graph well formed.
    pub proof fn lemma_with_vertex(self, id: Id, data: Data)
        requires
            self.well_formed(),
        ensures
            self.with_vertex(id, data).well_formed(),
    {
        let next = self.with_vertex(id, data);
        assert forall|vertex: Id, i: int|
            next.forward.contains_key(vertex) && 0 <= i < next.forward[vertex].len() implies next.holds(
            vertex,
            #[trigger] next.forward[vertex][i],
        ) by {
            assert(self.holds(vertex, self.forward[vertex][i]));
        }
        assert forall|vertex: Id, i: int|
            next.backward.contains_key(vertex) && 0 <= i < next.backward[vertex].len() implies next.holds(
            vertex,
            #[trigger] next.backward[vertex][i],
        ) by {
            assert(self.holds(vertex, self.backward[vertex][i]));
        }
        assert forall|from: Id, edge: Id, to: Id|
            next.out_links(from).contains((edge, to)) <==> next.in_links(to).contains(
                (edge, from),
            ) by {
            assert(next.out_links(from) == self.out_links(from));
            assert(next.in_links(to) == self.in_links(to));
        }
        assert forall|edge: Id| #[trigger] next.edges.contains_key(edge) implies Self::links_name(
            next.forward,
            edge,
        ) && Self::links_name(next.backward, edge) by {
            assert(self.edges.contains_key(edge));
        }
    }

    /// A new edge between two vertices of the graph leaves it well formed.
    pub proof fn lemma_with_edge(self, id: Id, from: Id, data: WeightData, to: Id)
        requires
            self.well_formed(),
            !self.edges.contains_key(id),
            self.vertices.contains_key(from),
            self.vertices.contains_key(to),
        ensures
            self.with_edge(id, from, data, to).well_formed(),
    {
        let next = self.with_edge(id, from, data, to);
        Self::lemma_links_grow(self, next, self.forward, next.forward, id, from, to);
        Self::lemma_links_grow(self, next, self.backward, next.backward, id, to, from);
        assert forall|u: Id, e: Id, v: Id|
            next.out_links(u).contains((e, v)) <==> next.in_links(v).contains((e, u)) by {
            lemma_push_contains(self.out_links(from), (id, to), (e, v));
            lemma_push_contains(self.in_links(to), (id, from), (e, u));
            assert(self.out_links(u).contains((e, v)) <==> self.in_links(v).contains((e, u)));
        }
    }

    /// Appending the link of a new edge at `at` keeps a family of links
    /// closed and distinct.
    proof fn lemma_links_grow(
        before: Self,
        after: Self,
        links: Map<Id, Seq<(Id, Id)>>,
        grown: Map<Id, Seq<(Id, Id)>>,
        id: Id,
        at: Id,
        other: Id,
    )
        requires
            before.links_closed(links),
            Self::links_distinct(links),
            !before.edges.contains_key(id),
            before.vertices.contains_key(at),
            before.vertices.contains_key(other),
            after.vertices == before.vertices,
            after.edges.contains_key(id),
            before.edges.dom().subset_of(after.edges.dom()),
            grown == links.insert(at, Self::links_at(links, at).push((id, other))),
        ensures
            after.links_closed(grown),
            Self::links_distinct(grown),
            before.edges_linked(links) && after.edges.dom() == before.edges.dom().insert(id)
                ==> after.edges_linked(grown),
            forall|vertex: Id, i: int|
                grown.contains_key(vertex) && 0 <= i < grown[vertex].len() && (
                #[trigger] grown[vertex][i]).0 == id ==> vertex == at && i == grown[vertex].len()
                    - 1,
    {
        let old_len = Self::links_at(links, at).len() as int;
        assert forall|vertex: Id, i: int|
            grown.contains_key(vertex) && 0 <= i < grown[vertex].len() implies after.holds(
            vertex,
            #[trigger] grown[vertex][i],
        ) && (grown[vertex][i].0 == id ==> vertex == at && i == grown[vertex].len() - 1) && (!(
        vertex == at && i == old_len) ==> links.contains_key(vertex) && i < links[vertex].len()
            && links[vertex][i] == grown[vertex][i]) by {
            if !(vertex == at && i == old_len) {
                assert(before.holds(vertex, links[vertex][i]));
            }
        }
        assert forall|v: Id, i: int, w: Id, j: int|
            grown.contains_key(v) && 0 <= i < grown[v].len() && grown.contains_key(w) && 0 <= j
                < grown[w].len() && (#[trigger] grown[v][i]).0 == (#[trigger] grown[w][j]).0 implies v
            == w && i == j by {
            let first_is_new = v == at && i == old_len;
            let second_is_new = w == at && j == old_len;
            if !first_is_new {
                assert(before.holds(v, links[v][i]));
            }
            if !second_is_new {
                assert(before.holds(w, links[w][j]));
            }
            if !first_is_new && !second_is_new {
                assert(links[v][i].0 == links[w][j].0);
            }
        }
        if before.edges_linked(links) && after.edges.dom() == before.edges.dom().insert(id) {
            assert forall|edge: Id| #[trigger] after.edges.contains_key(edge) implies Self::links_name(
                grown,
                edge,
            ) by {
                if edge == id {
                    assert(grown[at][old_len].0 == id);
                } else {
                    assert(before.edges.contains_key(edge));
                    let (vertex, i) = choose|vertex: Id, i: int|
                        links.contains_key(vertex) && 0 <= i < links[vertex].len() && (
                        #[trigger] links[vertex][i]).0 == edge;
                    assert(grown[vertex][i].0 == edge);
                }
            }
        }
    }

    /// Adjacency symmetry: an edge of the graph leads from one vertex to one
    /// vertex, both in the graph. Its link leaves the first and enters the
    /// second, and in the reversed graph it leads back.
    pub proof fn lemma_edge_joins(self, edge: Id)
        requires
            self.well_formed(),
            self.edges.contains_key(edge),
        ensures
            exists|from: Id, to: Id| #[trigger] self.joins(edge, from, to),
            forall|from: Id, to: Id| #[trigger]
                self.joins(edge, from, to) ==> {
                    &&& self.vertices.contains_key(from)
                    &&& self.vertices.contains_key(to)
                    &&& self.adjacent(from, to)
                    &&& self.out_links(from).contains((edge, to))
                    &&& self.in_links(to).contains((edge, from))
                    &&& self.reversed().joins(edge, to, from)
                },
            forall|from: Id, to: Id, other_from: Id, other_to: Id|
                #![trigger self.joins(edge, from, to), self.joins(edge, other_from, other_to)]
                self.joins(edge, from, to) && self.joins(edge, other_from, other_to) ==> from
                    == other_from && to == other_to,
    {
        let (vertex, i) = choose|vertex: Id, i: int|
            self.forward.contains_key(vertex) && 0 <= i < self.forward[vertex].len() && (
            #[trigger] self.forward[vertex][i]).0 == edge;
        let target = self.forward[vertex][i].1;
        assert(self.out_links(vertex)[i] == (edge, target));
        assert(self.joins(edge, vertex, target));
        assert forall|from: Id, to: Id| #[trigger] self.joins(edge, from, to) implies {
            &&& self.vertices.contains_key(from)
            &&& self.vertices.contains_key(to)
            &&& self.adjacent(from, to)
            &&& self.out_links(from).contains((edge, to))
            &&& self.in_links(to).contains((edge, from))
            &&& self.reversed().joins(edge, to, from)
        } by {
            let k = choose|k: int|
                0 <= k < self.out_links(from).len() && self.out_links(from)[k] == (edge, to);
            assert(self.holds(from, self.forward[from][k]));
            assert(self.out_links(from)[k].1 == to);
            assert(self.reversed().out_links(to) == self.in_links(to));
        }
        assert forall|from: Id, to: Id, other_from: Id, other_to: Id|
            #![trigger self.joins(edge, from, to), self.joins(edge, other_from, other_to)]
            self.joins(edge, from, to) && self.joins(edge, other_from, other_to) implies from
            == other_from && to == other_to by {
            let k = choose|k: int|
                0 <= k < self.out_links(from).len() && self.out_links(from)[k] == (edge, to);
            let m = choose|m: int|
                0 <= m < self.out_links(other_from).len() && self.out_links(other_from)[m] == (
                    edge,
                    other_to,
                );
            assert(self.forward[from][k].0 == self.forward[other_from][m].0);
        }
    }

    /// Reversing swaps the links that leave a vertex with those that enter
    /// it, keeps the graph well formed, and is undone by reversing again.
    pub proof fn lemma_reversed(self)
        requires
            self.well_formed(),
        ensures
            self.reversed().well_formed(),
            self.reversed().reversed() == self,
            forall|vertex: Id| #[trigger]
                self.reversed().out_links(vertex) == self.in_links(vertex),
            forall|vertex: Id| #[trigger]
                self.reversed().in_links(vertex) == self.out_links(vertex),
            forall|from: Id, to: Id|
                self.adjacent(from, to) ==> exists|i: int|
                    0 <= i < self.in_links(to).len() && (#[trigger] self.in_links(to)[i]).1
                        == from,
    {
        let after = self.reversed();
        assert forall|from: Id, edge: Id, to: Id|
            after.out_links(from).contains((edge, to)) <==> after.in_links(to).contains(
                (edge, from),
            ) by {
            assert(after.out_links(from) == self.in_links(from));
            assert(after.in_links(to) == self.out_links(to));
        }
        assert(after.links_closed(after.forward));
        assert(after.links_closed(after.backward));
        assert forall|from: Id, to: Id| self.adjacent(from, to) implies exists|i: int|
            0 <= i < self.in_links(to).len() && (#[trigger] self.in_links(to)[i]).1 == from by {
            let k = choose|k: int|
                0 <= k < self.out_links(from).len() && (#[trigger] self.out_links(from)[k]).1
                    == to;
            let edge = self.out_links(from)[k].0;
            assert(self.out_links(from).contains((edge, to)));
            assert(self.in_links(to).contains((edge, from)));
            let i = choose|i: int|
                0 <= i < self.in_links(to).len() && self.in_links(to)[i] == (edge, from);
            assert(self.in_links(to)[i].1 == from);
        }
    }
}

/// A pushed sequence holds what it held before, and the new item.
proof fn lemma_push_contains<A>(s: Seq<A>, pushed: A, sought: A)
    ensures
        s.push(pushed).contains(sought) <==> s.contains(sought) || sought == pushed,
{
    let t = s.push(pushed);
    if t.contains(sought) {
        let i = choose|i: int| 0 <= i < t.len() && t[i] == sought;
        if i < s.len() {
            assert(s[i] == sought);
        }
    }
    if s.contains(sought) {
        let i = choose|i: int| 0 <= i < s.len() && s[i] == sought;
        assert(t[i] == sought);
    }
    assert(t[s.len() as int] == pushed);
}

} // verus!
