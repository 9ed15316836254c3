//! Breadth-first search as a mathematical object.
//!
//! The search keeps a queue of transitions. One step takes the transition at
//! the front, visits its vertex, and queues a transition to each vertex that
//! a link of that vertex leads to and that no transition has named yet, in
//! the order of the links. `breadth_first` is the sequence of transitions so
//! visited when the queue has run empty; the lemmas at the end of this file
//! say what that sequence is.

use crate::math::graph::GraphView;
use vstd::prelude::*;

verus! {

/// One transition of a traversal: the vertex that is entered and, unless it
/// is the source, the vertex and the edge over which it is entered.
pub struct Transition<Id> {
    pub via: Option<(Id, Id)>,
    pub vertex: Id,
}

/// Some transition of `steps` enters `vertex`.
pub open spec fn enters<Id>(steps: Seq<Transition<Id>>, vertex: Id) -> bool {
    exists|k: int| 0 <= k < steps.len() && (#[trigger] steps[k]).vertex == vertex
}

/// The transitions that a scan of `links`, the links that leave `from`, adds
/// to the queue: one for each vertex that is neither in `covered` nor the
/// target of an earlier link, in the order of the links.
pub open spec fn discover<Id>(covered: Set<Id>, from: Id, links: Seq<(Id, Id)>) -> Seq<
    Transition<Id>,
>
    decreases links.len(),
{
    if links.len() == 0 {
        Seq::empty()
    } else {
        let earlier = discover(covered, from, links.drop_last());
        let (edge, to) = links.last();
        if covered.contains(to) || enters(earlier, to) {
            earlier
        } else {
            earlier.push(Transition { via: Some((from, edge)), vertex: to })
        }
    }
}

/// `step` leads over one of `links` from `from` to a vertex outside `covered`.
pub open spec fn discovered<Id>(
    covered: Set<Id>,
    from: Id,
    links: Seq<(Id, Id)>,
    step: Transition<Id>,
) -> bool {
    match step.via {
        Some((origin, edge)) => {
            &&& origin == from
            &&& links.contains((edge, step.vertex))
            &&& !covered.contains(step.vertex)
        },
        None => false,
    }
}

/// The vertex of `link` is in `covered` or entered by one of `steps`.
pub open spec fn caught<Id>(covered: Set<Id>, steps: Seq<Transition<Id>>, link: (Id, Id)) -> bool {
    covered.contains(link.1) || enters(steps, link.1)
}

/// A scan queues only new vertices, each once, and leaves no target out.
pub proof fn lemma_discover<Id>(covered: Set<Id>, from: Id, links: Seq<(Id, Id)>)
    ensures
        forall|k: int|
            0 <= k < discover(covered, from, links).len() ==> discovered(
                covered,
                from,
                links,
                #[trigger] discover(covered, from, links)[k],
            ),
        forall|i: int, j: int|
            0 <= i < j < discover(covered, from, links).len() ==> (#[trigger] discover(
                covered,
                from,
                links,
            )[i]).vertex != (#[trigger] discover(covered, from, links)[j]).vertex,
        forall|i: int|
            0 <= i < links.len() ==> caught(
                covered,
                discover(covered, from, links),
                #[trigger] links[i],
            ),
    decreases links.len(),
{
    let found = discover(covered, from, links);
    if links.len() > 0 {
        let fewer = links.drop_last();
        let earlier = discover(covered, from, fewer);
        let (edge, to) = links.last();
        lemma_discover(covered, from, fewer);
        assert forall|k: int| 0 <= k < found.len() implies discovered(
            covered,
            from,
            links,
            #[trigger] found[k],
        ) by {
            if k < earlier.len() {
                assert(discovered(covered, from, fewer, earlier[k]));
                let edge_k = earlier[k].via.unwrap().1;
                let at = choose|at: int|
                    0 <= at < fewer.len() && fewer[at] == (edge_k, earlier[k].vertex);
                assert(links[at] == (edge_k, earlier[k].vertex));
            } else {
                assert(links[links.len() - 1] == (edge, to));
            }
        }
        assert forall|i: int, j: int| 0 <= i < j < found.len() implies (#[trigger] found[i]).vertex
            != (#[trigger] found[j]).vertex by {
            if j >= earlier.len() {
                assert(earlier[i].vertex != to);
            }
        }
        assert forall|i: int| 0 <= i < links.len() implies caught(
            covered,
            found,
            #[trigger] links[i],
        ) by {
            if i < fewer.len() {
                assert(caught(covered, earlier, fewer[i]));
                if enters(earlier, links[i].1) {
                    let k = choose|k: int|
                        0 <= k < earlier.len() && (#[trigger] earlier[k]).vertex == links[i].1;
                    assert(found[k].vertex == links[i].1);
                }
            } else {
                if !(covered.contains(to) || enters(earlier, to)) {
                    assert(found[earlier.len() as int].vertex == to);
                } else if enters(earlier, to) {
                    let k = choose|k: int|
                        0 <= k < earlier.len() && (#[trigger] earlier[k]).vertex == to;
                    assert(found[k].vertex == to);
                }
            }
        }
    }
}

/// The positions in `links` of the links over which the transitions of
/// `discover` lead, one for one.
pub open spec fn discover_links<Id>(covered: Set<Id>, from: Id, links: Seq<(Id, Id)>) -> Seq<int>
    decreases links.len(),
{
    if links.len() == 0 {
        Seq::empty()
    } else {
        let earlier = discover(covered, from, links.drop_last());
        let picked = discover_links(covered, from, links.drop_last());
        if covered.contains(links.last().1) || enters(earlier, links.last().1) {
            picked
        } else {
            picked.push(links.len() - 1)
        }
    }
}

/// The link over which the transition at `k` of a scan leads is the first
/// link to its vertex, and comes after the link of every earlier transition.
pub open spec fn picked<Id>(
    from: Id,
    links: Seq<(Id, Id)>,
    found: Seq<Transition<Id>>,
    picks: Seq<int>,
    k: int,
) -> bool {
    &&& 0 <= picks[k] < links.len()
    &&& found[k] == (Transition { via: Some((from, links[picks[k]].0)), vertex: links[picks[k]].1 })
    &&& forall|m: int| 0 <= m < picks[k] ==> (#[trigger] links[m]).1 != found[k].vertex
    &&& k > 0 ==> picks[k - 1] < picks[k]
}

/// A scan queues its transitions in the order of the links, each for the
/// first link that leads to its vertex.
pub proof fn lemma_discover_links<Id>(covered: Set<Id>, from: Id, links: Seq<(Id, Id)>)
    ensures
        discover_links(covered, from, links).len() == discover(covered, from, links).len(),
        forall|k: int|
            0 <= k < discover(covered, from, links).len() ==> #[trigger] picked(
                from,
                links,
                discover(covered, from, links),
                discover_links(covered, from, links),
                k,
            ),
    decreases links.len(),
{
    let found = discover(covered, from, links);
    let picks = discover_links(covered, from, links);
    if links.len() > 0 {
        let fewer = links.drop_last();
        let earlier = discover(covered, from, fewer);
        let before = discover_links(covered, from, fewer);
        lemma_discover_links(covered, from, fewer);
        lemma_discover(covered, from, fewer);
        assert forall|k: int| 0 <= k < found.len() implies #[trigger] picked(
            from,
            links,
            found,
            picks,
            k,
        ) by {
            if k < earlier.len() {
                assert(picked(from, fewer, earlier, before, k));
                assert(links[before[k]] == fewer[before[k]]);
                assert forall|m: int| 0 <= m < picks[k] implies (#[trigger] links[m]).1
                    != found[k].vertex by {
                    assert(fewer[m] == links[m]);
                }
            } else {
                assert forall|m: int| 0 <= m < picks[k] implies (#[trigger] links[m]).1
                    != found[k].vertex by {
                    assert(caught(covered, earlier, fewer[m]));
                }
                if k > 0 {
                    assert(picked(from, fewer, earlier, before, k - 1));
                }
            }
        }
    }
}

/// Of two transitions of a scan, the earlier leads over the earlier link.
pub proof fn lemma_rising<Id>(
    from: Id,
    links: Seq<(Id, Id)>,
    found: Seq<Transition<Id>>,
    picks: Seq<int>,
    i: int,
    j: int,
)
    requires
        0 <= i < j < found.len(),
        forall|k: int| 0 <= k < found.len() ==> #[trigger] picked(from, links, found, picks, k),
    ensures
        picks[i] < picks[j],
    decreases j - i,
{
    assert(picked(from, links, found, picks, j));
    if i < j - 1 {
        lemma_rising(from, links, found, picks, i, j - 1);
    }
}

/// The position of the transition of `steps` that enters `vertex`.
pub open spec fn position<Id>(steps: Seq<Transition<Id>>, vertex: Id) -> int {
    choose|k: int| 0 <= k < steps.len() && (#[trigger] steps[k]).vertex == vertex
}

/// Where every vertex is entered once, the transition at `k` is the one that
/// enters its vertex.
pub proof fn lemma_position<Id>(steps: Seq<Transition<Id>>, k: int)
    requires
        0 <= k < steps.len(),
        forall|i: int, j: int|
            0 <= i < j < steps.len() ==> (#[trigger] steps[i]).vertex != (
            #[trigger] steps[j]).vertex,
    ensures
        position(steps, steps[k].vertex) == k,
{
    let found = position(steps, steps[k].vertex);
    assert(steps[k].vertex == steps[k].vertex);
    if found < k {
        assert(steps[found].vertex != steps[k].vertex);
    } else if k < found {
        assert(steps[k].vertex != steps[found].vertex);
    }
}

/// The state of a search: the transitions visited so far, in order, and the
/// transitions that wait to be visited, in order.
pub struct Search<Id> {
    pub visited: Seq<Transition<Id>>,
    pub queue: Seq<Transition<Id>>,
}

impl<Id> Search<Id> {
    /// The visited transitions, then the waiting ones.
    pub open spec fn all(self) -> Seq<Transition<Id>> {
        self.visited + self.queue
    }

    /// Some transition, visited or waiting, enters `vertex`.
    pub open spec fn covers(self, vertex: Id) -> bool {
        enters(self.all(), vertex)
    }

    /// The vertices that are visited or wait to be.
    pub open spec fn covered(self) -> Set<Id> {
        Set::new(|vertex: Id| self.covers(vertex))
    }
}

impl<Id, Data, WeightData> GraphView<Id, Data, WeightData> {
    /// The search before its first step: only the source waits.
    pub open spec fn search_start(source: Id) -> Search<Id> {
        Search { visited: Seq::empty(), queue: seq![Transition { via: None, vertex: source }] }
    }

    /// One step of a search whose queue is not empty.
    pub open spec fn search_step(self, search: Search<Id>) -> Search<Id> {
        let head = search.queue[0];
        Search {
            visited: search.visited.push(head),
            queue: search.queue.drop_first() + discover(
                search.covered(),
                head.vertex,
                self.out_links(head.vertex),
            ),
        }
    }

    /// The search from `source` after `steps` steps, or after as many as it
    /// takes to empty the queue if that is fewer.
    pub open spec fn search_after(self, source: Id, steps: nat) -> Search<Id>
        decreases steps,
    {
        if steps == 0 {
            Self::search_start(source)
        } else {
            let before = self.search_after(source, (steps - 1) as nat);
            if before.queue.len() == 0 {
                before
            } else {
                self.search_step(before)
            }
        }
    }

    /// The breadth-first traversal from `source`: every transition that the
    /// search visits, in order.
    pub open spec fn breadth_first(self, source: Id) -> Seq<Transition<Id>> {
        self.search_after(source, self.vertices.dom().len()).visited
    }

    /// The transition at `k` is the source's, at the front, or arrives over a
    /// link from a vertex that was visited before it and lies one step nearer
    /// to the source.
    pub open spec fn arrives(self, source: Id, search: Search<Id>, k: int) -> bool {
        match search.all()[k].via {
            Some((from, edge)) => {
                &&& k > 0
                &&& exists|j: int|
                    0 <= j < k && j < search.visited.len() && (#[trigger] search.all()[j]).vertex
                        == from
                &&& self.out_links(from).contains((edge, search.all()[k].vertex))
                &&& self.distance(source, search.all()[k].vertex) == self.distance(source, from)
                    + 1
            },
            None => k == 0 && search.all()[k].vertex == source,
        }
    }

    /// The transition at `k` enters a vertex of the graph that a walk from
    /// the source reaches, and arrives as `arrives` says.
    pub open spec fn placed(self, source: Id, search: Search<Id>, k: int) -> bool {
        &&& self.vertices.contains_key(search.all()[k].vertex)
        &&& self.reachable(source, search.all()[k].vertex)
        &&& self.arrives(source, search, k)
    }

    /// The transitions at `i` and `j` enter different vertices, the later one
    /// no nearer to the source.
    pub open spec fn ordered(self, source: Id, search: Search<Id>, i: int, j: int) -> bool {
        &&& search.all()[i].vertex != search.all()[j].vertex
        &&& self.distance(source, search.all()[i].vertex) <= self.distance(
            source,
            search.all()[j].vertex,
        )
    }

    /// The last waiting vertex is at most one step farther than the first,
    /// and every vertex as near as the first is covered.
    pub open spec fn frontier(self, source: Id, search: Search<Id>) -> bool {
        &&& self.distance(source, search.all().last().vertex) <= self.distance(
            source,
            search.queue[0].vertex,
        ) + 1
        &&& forall|vertex: Id|
            self.reachable(source, vertex) && self.distance(source, vertex) <= self.distance(
                source,
                search.queue[0].vertex,
            ) ==> #[trigger] search.covers(vertex)
    }

    /// What holds of a search from `source` at every step.
    pub open spec fn search_inv(self, source: Id, search: Search<Id>) -> bool {
        &&& search.all().len() > 0
        &&& forall|k: int| 0 <= k < search.all().len() ==> #[trigger] self.placed(source, search, k)
        &&& forall|i: int, j: int|
            0 <= i < j < search.all().len() ==> #[trigger] self.ordered(source, search, i, j)
        &&& forall|j: int, i: int|
            0 <= j < search.visited.len() && 0 <= i < self.out_links(
                search.visited[j].vertex,
            ).len() ==> search.covers(
                (#[trigger] self.out_links(search.visited[j].vertex)[i]).1,
            )
        &&& search.queue.len() > 0 ==> self.frontier(source, search)
    }

    proof fn lemma_search_start(self, source: Id)
        requires
            self.vertices.contains_key(source),
        ensures
            self.search_inv(source, Self::search_start(source)),
    {
        let start = Self::search_start(source);
        self.lemma_distance_self(source);
        assert(start.all() =~= seq![Transition { via: None, vertex: source }]);
        assert(self.placed(source, start, 0));
        assert forall|vertex: Id|
            self.reachable(source, vertex) && self.distance(source, vertex) <= self.distance(
                source,
                start.queue[0].vertex,
            ) implies #[trigger] start.covers(vertex) by {
            self.lemma_distance(source, vertex);
            self.lemma_no_hops(source, vertex);
            assert(start.all()[0].vertex == vertex);
        }
    }

    /// A link stands for an edge between two vertices of the graph.
    pub proof fn lemma_link_of(self, from: Id, edge: Id, to: Id)
        requires
            self.well_formed(),
            self.out_links(from).contains((edge, to)),
        ensures
            self.adjacent(from, to),
            self.vertices.contains_key(from),
            self.vertices.contains_key(to),
            self.edges.contains_key(edge),
    {
        let i = choose|i: int|
            0 <= i < self.out_links(from).len() && self.out_links(from)[i] == (edge, to);
        assert(self.out_links(from)[i].1 == to);
        assert(self.holds(from, self.forward[from][i]));
    }

    /// One step keeps the search's invariant, and adds to the transitions
    /// what the scan of the visited vertex's links discovers.
    pub proof fn lemma_search_step(self, source: Id, search: Search<Id>)
        requires
            self.well_formed(),
            self.search_inv(source, search),
            search.queue.len() > 0,
        ensures
            self.search_inv(source, self.search_step(search)),
            self.search_step(search).all() == search.all() + discover(
                search.covered(),
                search.queue[0].vertex,
                self.out_links(search.queue[0].vertex),
            ),
    {
        let head = search.queue[0];
        let near = self.distance(source, head.vertex);
        let links = self.out_links(head.vertex);
        let covered = search.covered();
        let found = discover(covered, head.vertex, links);
        let next = self.search_step(search);
        let all = search.all();
        let seen = search.visited.len() as int;
        let old_len = all.len() as int;
        lemma_discover(covered, head.vertex, links);
        assert(next.all() =~= all + found);
        assert(all[seen] == head);
        assert(self.placed(source, search, seen));
        assert(next.all()[seen] == head);

        // What the search knew stays as it was.
        assert forall|vertex: Id| search.covers(vertex) implies next.covers(vertex) by {
            let k = choose|k: int| 0 <= k < all.len() && (#[trigger] all[k]).vertex == vertex;
            assert(next.all()[k].vertex == vertex);
        }
        // The last of the old transitions is at most one step beyond the head.
        assert forall|i: int| 0 <= i < old_len implies self.distance(source, all[i].vertex) <= near
            + 1 by {
            if i < old_len - 1 {
                assert(self.ordered(source, search, i, old_len - 1));
            }
        }
        // Each new transition enters a vertex one step beyond the head.
        assert forall|k: int| 0 <= k < found.len() implies {
            &&& self.adjacent(head.vertex, (#[trigger] found[k]).vertex)
            &&& self.distance(source, found[k].vertex) == near + 1
            &&& !search.covers(found[k].vertex)
            &&& self.placed(source, next, old_len + k)
        } by {
            let step = found[k];
            assert(discovered(covered, head.vertex, links, step));
            let edge = step.via.unwrap().1;
            self.lemma_link_of(head.vertex, edge, step.vertex);
            self.lemma_distance_step(source, head.vertex, step.vertex);
            assert(!search.covers(step.vertex));
            assert(next.all()[old_len + k] == step);
            assert(next.all()[seen].vertex == head.vertex);
        }
        assert forall|k: int| 0 <= k < next.all().len() implies #[trigger] self.placed(
            source,
            next,
            k,
        ) by {
            if k < old_len {
                assert(self.placed(source, search, k));
                assert(next.all()[k] == all[k]);
                if k > 0 {
                    let from = all[k].via.unwrap().0;
                    let j = choose|j: int|
                        0 <= j < k && j < search.visited.len() && (#[trigger] all[j]).vertex
                            == from;
                    assert(next.all()[j].vertex == from);
                }
            } else {
                assert(found[k - old_len].vertex == next.all()[k].vertex);
            }
        }
        assert forall|i: int, j: int| 0 <= i < j < next.all().len() implies #[trigger] self.ordered(
            source,
            next,
            i,
            j,
        ) by {
            if j < old_len {
                assert(self.ordered(source, search, i, j));
            } else if i < old_len {
                assert(found[j - old_len].vertex == next.all()[j].vertex);
                assert(all[i].vertex == next.all()[i].vertex);
            } else {
                assert(found[i - old_len].vertex == next.all()[i].vertex);
                assert(found[j - old_len].vertex == next.all()[j].vertex);
            }
        }
        assert forall|j: int, i: int|
            0 <= j < next.visited.len() && 0 <= i < self.out_links(
                next.visited[j].vertex,
            ).len() implies next.covers(
            (#[trigger] self.out_links(next.visited[j].vertex)[i]).1,
        ) by {
            let target = self.out_links(next.visited[j].vertex)[i].1;
            if j < seen {
                assert(next.visited[j] == search.visited[j]);
                assert(search.covers(self.out_links(search.visited[j].vertex)[i].1));
            } else {
                assert(caught(covered, found, links[i]));
                if enters(found, target) {
                    let k = choose|k: int|
                        0 <= k < found.len() && (#[trigger] found[k]).vertex == target;
                    assert(next.all()[old_len + k].vertex == target);
                }
            }
        }
        if next.queue.len() > 0 {
            let next_head = next.queue[0];
            assert(next.all()[seen + 1] == next_head);
            assert(self.ordered(source, next, seen, seen + 1));
            let last = next.all().len() - 1;
            if found.len() > 0 {
                assert(found[found.len() - 1].vertex == next.all()[last].vertex);
            } else {
                assert(next.all()[last] == all[last]);
            }
            if seen + 1 < last {
                assert(self.ordered(source, next, seen + 1, last));
            }
            assert forall|vertex: Id|
                self.reachable(source, vertex) && self.distance(source, vertex) <= self.distance(
                    source,
                    next_head.vertex,
                ) implies #[trigger] next.covers(vertex) by {
                if self.distance(source, vertex) <= near {
                    assert(search.covers(vertex));
                } else {
                    self.lemma_predecessor(source, vertex);
                    let via = choose|via: Id| #[trigger]
                        self.adjacent(via, vertex) && self.reachable(source, via)
                            && self.distance(source, via) + 1 == self.distance(source, vertex);
                    assert(search.covers(via));
                    let j = choose|j: int| 0 <= j < all.len() && (#[trigger] all[j]).vertex == via;
                    assert(next.all()[j].vertex == via);
                    if j > seen + 1 {
                        assert(self.ordered(source, next, seen + 1, j));
                    }
                    assert(j <= seen);
                    assert(next.visited[j] == next.all()[j]);
                    let i = choose|i: int|
                        0 <= i < self.out_links(via).len() && (#[trigger] self.out_links(
                            via,
                        )[i]).1 == vertex;
                    assert(next.covers(self.out_links(next.visited[j].vertex)[i].1));
                }
            }
        }
    }

    /// The search's invariant holds after any number of steps.
    pub proof fn lemma_search_inv(self, source: Id, steps: nat)
        requires
            self.well_formed(),
            self.vertices.contains_key(source),
        ensures
            self.search_inv(source, self.search_after(source, steps)),
        decreases steps,
    {
        if steps == 0 {
            self.lemma_search_start(source);
        } else {
            let before = self.search_after(source, (steps - 1) as nat);
            self.lemma_search_inv(source, (steps - 1) as nat);
            if before.queue.len() > 0 {
                self.lemma_search_step(source, before);
            }
        }
    }

    /// The position, among the links that leave `from`, of the link over
    /// `edge` to `to`.
    pub open spec fn link_index(self, from: Id, edge: Id, to: Id) -> int {
        choose|m: int| 0 <= m < self.out_links(from).len() && self.out_links(from)[m] == (edge, to)
    }

    /// In a well-formed graph a link has one position.
    pub proof fn lemma_link_index(self, from: Id, at: int)
        requires
            self.well_formed(),
            0 <= at < self.out_links(from).len(),
        ensures
            self.link_index(from, self.out_links(from)[at].0, self.out_links(from)[at].1) == at,
    {
        let link = self.out_links(from)[at];
        let found = self.link_index(from, link.0, link.1);
        assert(self.out_links(from)[at] == (link.0, link.1));
        assert(self.forward[from][found].0 == self.forward[from][at].0);
    }

    /// The transition at `k`, not the first, arrives over the first link by
    /// which the search could reach its vertex: no vertex visited before the
    /// one it comes from is adjacent to it, and no earlier link of the one it
    /// comes from leads to it.
    pub open spec fn first_reached(self, steps: Seq<Transition<Id>>, k: int) -> bool {
        let vertex = steps[k].vertex;
        let from = steps[k].via.unwrap().0;
        let edge = steps[k].via.unwrap().1;
        &&& forall|j: int|
            0 <= j < position(steps, from) ==> !self.adjacent((#[trigger] steps[j]).vertex, vertex)
        &&& forall|m: int|
            0 <= m < self.link_index(from, edge, vertex) ==> (#[trigger] self.out_links(
                from,
            )[m]).1 != vertex
    }

    /// Of two transitions, neither the first, the earlier comes from a vertex
    /// that was visited earlier, or from the same vertex over an earlier link.
    pub open spec fn layered(self, steps: Seq<Transition<Id>>, i: int, j: int) -> bool {
        let from_i = steps[i].via.unwrap().0;
        let from_j = steps[j].via.unwrap().0;
        ||| position(steps, from_i) < position(steps, from_j)
        ||| {
            &&& from_i == from_j
            &&& self.link_index(from_i, steps[i].via.unwrap().1, steps[i].vertex)
                < self.link_index(from_j, steps[j].via.unwrap().1, steps[j].vertex)
        }
    }

    /// The transitions stand in the order in which a search level by level
    /// reaches them.
    pub open spec fn search_layers(self, steps: Seq<Transition<Id>>) -> bool {
        &&& forall|k: int| 1 <= k < steps.len() ==> #[trigger] self.first_reached(steps, k)
        &&& forall|i: int, j: int| 1 <= i < j < steps.len() ==> #[trigger] self.layered(steps, i, j)
    }

    proof fn lemma_layers_step(self, source: Id, search: Search<Id>)
        requires
            self.well_formed(),
            self.search_inv(source, search),
            self.search_layers(search.all()),
            search.queue.len() > 0,
        ensures
            self.search_layers(self.search_step(search).all()),
    {
        let head = search.queue[0];
        let links = self.out_links(head.vertex);
        let covered = search.covered();
        let found = discover(covered, head.vertex, links);
        let picks = discover_links(covered, head.vertex, links);
        let next = self.search_step(search);
        let all = search.all();
        let steps = next.all();
        let seen = search.visited.len() as int;
        let old_len = all.len() as int;
        self.lemma_search_step(source, search);
        lemma_discover(covered, head.vertex, links);
        lemma_discover_links(covered, head.vertex, links);
        assert(steps =~= all + found);
        assert(all[seen] == head);
        assert forall|i: int, j: int| 0 <= i < j < steps.len() implies (#[trigger] steps[i]).vertex
            != (#[trigger] steps[j]).vertex by {
            assert(self.ordered(source, next, i, j));
        }
        assert forall|i: int, j: int| 0 <= i < j < all.len() implies (#[trigger] all[i]).vertex != (
        #[trigger] all[j]).vertex by {
            assert(self.ordered(source, search, i, j));
        }
        // Where each transition comes from, and over which link.
        assert forall|k: int| 1 <= k < steps.len() implies {
            let from = (#[trigger] steps[k]).via.unwrap().0;
            &&& 0 <= position(steps, from) < seen + 1
            &&& steps[position(steps, from)].vertex == from
            &&& k < old_len ==> position(steps, from) == position(all, from) && position(
                steps,
                from,
            ) < seen
            &&& k >= old_len ==> position(steps, from) == seen && self.link_index(
                from,
                steps[k].via.unwrap().1,
                steps[k].vertex,
            ) == picks[k - old_len]
        } by {
            let from = steps[k].via.unwrap().0;
            if k < old_len {
                assert(steps[k] == all[k]);
                assert(self.placed(source, search, k));
                let j = choose|j: int|
                    0 <= j < k && j < search.visited.len() && (#[trigger] all[j]).vertex == from;
                assert(steps[j] == all[j]);
                lemma_position(all, j);
                lemma_position(steps, j);
            } else {
                assert(steps[k] == found[k - old_len]);
                assert(picked(head.vertex, links, found, picks, k - old_len));
                assert(steps[seen] == head);
                lemma_position(steps, seen);
                self.lemma_link_index(head.vertex, picks[k - old_len]);
            }
        }
        assert forall|k: int| 1 <= k < steps.len() implies #[trigger] self.first_reached(
            steps,
            k,
        ) by {
            let vertex = steps[k].vertex;
            let from = steps[k].via.unwrap().0;
            let at = position(steps, from);
            if k < old_len {
                assert(self.first_reached(all, k));
                assert(steps[k] == all[k]);
                assert forall|j: int| 0 <= j < at implies !self.adjacent(
                    (#[trigger] steps[j]).vertex,
                    vertex,
                ) by {
                    assert(steps[j] == all[j]);
                }
            } else {
                assert(steps[k] == found[k - old_len]);
                assert(picked(head.vertex, links, found, picks, k - old_len));
                assert(discovered(covered, head.vertex, links, found[k - old_len]));
                assert forall|j: int| 0 <= j < at implies !self.adjacent(
                    (#[trigger] steps[j]).vertex,
                    vertex,
                ) by {
                    assert(steps[j] == search.visited[j]);
                    if self.adjacent(steps[j].vertex, vertex) {
                        let i = choose|i: int|
                            0 <= i < self.out_links(steps[j].vertex).len() && (
                            #[trigger] self.out_links(steps[j].vertex)[i]).1 == vertex;
                        assert(search.covers(self.out_links(search.visited[j].vertex)[i].1));
                    }
                }
            }
        }
        assert forall|i: int, j: int| 1 <= i < j < steps.len() implies #[trigger] self.layered(
            steps,
            i,
            j,
        ) by {
            if j < old_len {
                assert(self.layered(all, i, j));
                assert(steps[i] == all[i]);
                assert(steps[j] == all[j]);
            } else if i >= old_len {
                assert(picked(head.vertex, links, found, picks, j - old_len));
                lemma_rising(head.vertex, links, found, picks, i - old_len, j - old_len);
                assert(steps[i] == found[i - old_len]);
                assert(steps[j] == found[j - old_len]);
            }
        }
    }

    /// The transitions of a search stand in layers after any number of steps.
    pub proof fn lemma_search_layers(self, source: Id, steps: nat)
        requires
            self.well_formed(),
            self.vertices.contains_key(source),
        ensures
            self.search_layers(self.search_after(source, steps).all()),
        decreases steps,
    {
        if steps > 0 {
            let before = self.search_after(source, (steps - 1) as nat);
            self.lemma_search_layers(source, (steps - 1) as nat);
            self.lemma_search_inv(source, (steps - 1) as nat);
            if before.queue.len() > 0 {
                self.lemma_layers_step(source, before);
            }
        }
    }

    /// A search never holds more transitions than the graph has vertices.
    pub proof fn lemma_search_bounded(self, source: Id, search: Search<Id>)
        requires
            self.well_formed(),
            self.search_inv(source, search),
        ensures
            search.all().len() <= self.vertices.dom().len(),
    {
        let all = search.all();
        let entered = all.map_values(|step: Transition<Id>| step.vertex);
        assert forall|i: int, j: int| 0 <= i < entered.len() && 0 <= j < entered.len() && i
            != j implies entered[i] != entered[j] by {
            if i < j {
                assert(self.ordered(source, search, i, j));
            } else {
                assert(self.ordered(source, search, j, i));
            }
        }
        entered.unique_seq_to_set();
        assert forall|vertex: Id| entered.to_set().contains(vertex) implies self.vertices.dom().contains(
            vertex,
        ) by {
            let k = choose|k: int| 0 <= k < entered.len() && entered[k] == vertex;
            assert(self.placed(source, search, k));
        }
        vstd::set_lib::lemma_len_subset(entered.to_set(), self.vertices.dom());
    }

    /// Each step visits one transition, until the queue is empty.
    pub proof fn lemma_search_progress(self, source: Id, steps: nat)
        ensures
            self.search_after(source, steps).visited.len() <= steps,
            self.search_after(source, steps).queue.len() > 0 ==> self.search_after(
                source,
                steps,
            ).visited.len() == steps,
        decreases steps,
    {
        if steps > 0 {
            self.lemma_search_progress(source, (steps - 1) as nat);
        }
    }

    /// Once the queue is empty the search stays as it is.
    pub proof fn lemma_search_rests(self, source: Id, steps: nat, later: nat)
        requires
            steps <= later,
            self.search_after(source, steps).queue.len() == 0,
        ensures
            self.search_after(source, later) == self.search_after(source, steps),
        decreases later,
    {
        if steps < later {
            self.lemma_search_rests(source, steps, (later - 1) as nat);
        }
    }

    /// What is visited stays visited, in the same order.
    pub proof fn lemma_search_grows(self, source: Id, steps: nat, later: nat)
        requires
            steps <= later,
        ensures
            self.search_after(source, steps).visited.len() <= self.search_after(
                source,
                later,
            ).visited.len(),
            self.search_after(source, steps).visited == self.search_after(
                source,
                later,
            ).visited.take(self.search_after(source, steps).visited.len() as int),
        decreases later,
    {
        let early = self.search_after(source, steps).visited;
        if steps < later {
            self.lemma_search_grows(source, steps, (later - 1) as nat);
            let before = self.search_after(source, (later - 1) as nat).visited;
            let after = self.search_after(source, later).visited;
            assert(before =~= after.take(before.len() as int));
            assert(early =~= after.take(early.len() as int));
        } else {
            assert(early =~= early.take(early.len() as int));
        }
    }

    /// After as many steps as the graph has vertices, the queue is empty.
    pub proof fn lemma_search_ends(self, source: Id)
        requires
            self.well_formed(),
            self.vertices.contains_key(source),
        ensures
            self.search_after(source, self.vertices.dom().len()).queue.len() == 0,
            self.search_inv(source, self.search_after(source, self.vertices.dom().len())),
            self.breadth_first(source) == self.search_after(
                source,
                self.vertices.dom().len(),
            ).all(),
    {
        let steps = self.vertices.dom().len();
        let last = self.search_after(source, steps);
        self.lemma_search_inv(source, steps);
        self.lemma_search_bounded(source, last);
        self.lemma_search_progress(source, steps);
        assert(last.all() =~= last.visited);
    }

    /// With an empty queue, the search has visited every vertex on a walk from
    /// the source.
    proof fn lemma_search_closed(self, source: Id, search: Search<Id>, path: Seq<Id>, upto: int)
        requires
            self.search_inv(source, search),
            search.queue.len() == 0,
            self.is_walk(path),
            path.first() == source,
            0 <= upto < path.len(),
        ensures
            search.covers(path[upto]),
        decreases upto,
    {
        if upto == 0 {
            assert(self.placed(source, search, 0));
            assert(search.all()[0].vertex == source);
        } else {
            self.lemma_search_closed(source, search, path, upto - 1);
            let before = path[upto - 1];
            let j = choose|j: int|
                0 <= j < search.all().len() && (#[trigger] search.all()[j]).vertex == before;
            assert(search.all() =~= search.visited);
            assert(self.hop(path, upto - 1));
            let i = choose|i: int|
                0 <= i < self.out_links(before).len() && (#[trigger] self.out_links(before)[i]).1
                    == path[upto];
            assert(search.covers(self.out_links(search.visited[j].vertex)[i].1));
        }
    }

    /// Completeness: the breadth-first traversal from `source` enters
    /// exactly the vertices that a walk from `source` reaches.
    pub proof fn lemma_breadth_first_reaches(self, source: Id, vertex: Id)
        requires
            self.well_formed(),
            self.vertices.contains_key(source),
        ensures
            enters(self.breadth_first(source), vertex) <==> self.reachable(source, vertex),
    {
        let last = self.search_after(source, self.vertices.dom().len());
        self.lemma_search_ends(source);
        if enters(self.breadth_first(source), vertex) {
            let k = choose|k: int|
                0 <= k < last.all().len() && (#[trigger] last.all()[k]).vertex == vertex;
            assert(self.placed(source, last, k));
        }
        if self.reachable(source, vertex) {
            let hops = choose|hops: nat| self.reachable_in(source, vertex, hops);
            let path = choose|path: Seq<Id>| #[trigger]
                self.connects(path, source, vertex) && path.len() == hops + 1;
            self.lemma_search_closed(source, last, path, path.len() - 1);
        }
    }

    /// The breadth-first traversal enters each vertex once, and the vertices
    /// in the order of their distance from the source: a vertex that is
    /// entered later is no nearer.
    pub proof fn lemma_breadth_first_order(self, source: Id, earlier: int, later: int)
        requires
            self.well_formed(),
            self.vertices.contains_key(source),
            0 <= earlier < later < self.breadth_first(source).len(),
        ensures
            self.breadth_first(source)[earlier].vertex != self.breadth_first(source)[later].vertex,
            self.distance(source, self.breadth_first(source)[earlier].vertex) <= self.distance(
                source,
                self.breadth_first(source)[later].vertex,
            ),
    {
        let last = self.search_after(source, self.vertices.dom().len());
        self.lemma_search_ends(source);
        assert(self.ordered(source, last, earlier, later));
    }

    /// Layering: the breadth-first traversal reaches each vertex over the
    /// first link by which it can, and queues what it reaches in that order.
    /// Of two transitions after the first, the earlier comes from a vertex
    /// that is entered earlier, or from the same vertex over an earlier link;
    /// and no vertex entered before the one a transition comes from is
    /// adjacent to the vertex it enters, nor does an earlier link of the one
    /// it comes from lead there.
    pub proof fn lemma_breadth_first_layers(self, source: Id, earlier: int, later: int)
        requires
            self.well_formed(),
            self.vertices.contains_key(source),
            1 <= earlier <= later < self.breadth_first(source).len(),
        ensures
            self.first_reached(self.breadth_first(source), later),
            earlier < later ==> self.layered(self.breadth_first(source), earlier, later),
    {
        self.lemma_search_ends(source);
        self.lemma_search_layers(source, self.vertices.dom().len());
    }

    /// The breadth-first traversal starts at the source. Every later
    /// transition enters a vertex of the graph over a link that leaves a
    /// vertex entered before it, and that vertex lies one step nearer to the
    /// source.
    pub proof fn lemma_breadth_first_tree(self, source: Id, at: int)
        requires
            self.well_formed(),
            self.vertices.contains_key(source),
            0 <= at < self.breadth_first(source).len(),
        ensures
            self.breadth_first(source).len() > 0,
            self.breadth_first(source)[0] == (Transition { via: None, vertex: source }),
            self.vertices.contains_key(self.breadth_first(source)[at].vertex),
            self.reachable(source, self.breadth_first(source)[at].vertex),
            at > 0 ==> match self.breadth_first(source)[at].via {
                Some((from, edge)) => {
                    &&& exists|before: int|
                        0 <= before < at && (#[trigger] self.breadth_first(source)[before]).vertex
                            == from
                    &&& self.out_links(from).contains(
                        (edge, self.breadth_first(source)[at].vertex),
                    )
                    &&& self.edges.contains_key(edge)
                    &&& self.distance(source, self.breadth_first(source)[at].vertex)
                        == self.distance(source, from) + 1
                },
                None => false,
            },
    {
        let last = self.search_after(source, self.vertices.dom().len());
        self.lemma_search_ends(source);
        assert(self.placed(source, last, 0));
        assert(self.placed(source, last, at));
        if at > 0 {
            let from = last.all()[at].via.unwrap().0;
            let edge = last.all()[at].via.unwrap().1;
            self.lemma_link_of(from, edge, last.all()[at].vertex);
        }
    }
}

} // verus!
