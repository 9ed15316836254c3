//! Walks, reachability and distance in a graph.
//!
//! The distance from one vertex to another is the least number of edges of
//! a walk between them.

use crate::math::graph::GraphView;
use vstd::prelude::*;

verus! {

impl<Id, Data, WeightData> GraphView<Id, Data, WeightData> {
    /// An edge leads from the vertex at `i` of `path` to the next one.
    pub open spec fn hop(self, path: Seq<Id>, i: int) -> bool {
        self.adjacent(path[i], path[i + 1])
    }

    /// `path` is a walk: at least one vertex, each adjacent to the next.
    pub open spec fn is_walk(self, path: Seq<Id>) -> bool {
        &&& path.len() > 0
        &&& forall|i: int| 0 <= i < path.len() - 1 ==> #[trigger] self.hop(path, i)
    }

    /// `path` is a walk from `from` to `to`.
    pub open spec fn connects(self, path: Seq<Id>, from: Id, to: Id) -> bool {
        &&& self.is_walk(path)
        &&& path.first() == from
        &&& path.last() == to
    }

    /// Some walk of exactly `hops` edges leads from `from` to `to`.
    pub open spec fn reachable_in(self, from: Id, to: Id, hops: nat) -> bool {
        exists|path: Seq<Id>| #[trigger] self.connects(path, from, to) && path.len() == hops + 1
    }

    /// Some walk leads from `from` to `to`.
    pub open spec fn reachable(self, from: Id, to: Id) -> bool {
        exists|hops: nat| self.reachable_in(from, to, hops)
    }

    /// `hops` is the least number of edges of a walk from `from` to `to`.
    pub open spec fn is_distance(self, from: Id, to: Id, hops: nat) -> bool {
        &&& self.reachable_in(from, to, hops)
        &&& forall|fewer: nat| fewer < hops ==> !self.reachable_in(from, to, fewer)
    }

    /// The least number of edges of a walk from `from` to `to`, where one
    /// exists.
    pub open spec fn distance(self, from: Id, to: Id) -> nat {
        choose|hops: nat| self.is_distance(from, to, hops)
    }

    proof fn lemma_least(self, from: Id, to: Id, hops: nat)
        requires
            self.reachable_in(from, to, hops),
        ensures
            exists|least: nat| least <= hops && self.is_distance(from, to, least),
        decreases hops,
    {
        if forall|fewer: nat| fewer < hops ==> !self.reachable_in(from, to, fewer) {
            assert(self.is_distance(from, to, hops));
        } else {
            let fewer = choose|fewer: nat| fewer < hops && self.reachable_in(from, to, fewer);
            self.lemma_least(from, to, fewer);
        }
    }

    /// Where a walk exists, the distance is the length of a shortest one.
    pub proof fn lemma_distance(self, from: Id, to: Id)
        requires
            self.reachable(from, to),
        ensures
            self.is_distance(from, to, self.distance(from, to)),
    {
        let hops = choose|hops: nat| self.reachable_in(from, to, hops);
        self.lemma_least(from, to, hops);
    }

    /// No walk is shorter than the distance.
    pub proof fn lemma_distance_least(self, from: Id, to: Id, hops: nat)
        requires
            self.reachable_in(from, to, hops),
        ensures
            self.reachable(from, to),
            self.distance(from, to) <= hops,
    {
        self.lemma_distance(from, to);
    }

    /// A walk without edges ends where it starts.
    pub proof fn lemma_no_hops(self, from: Id, to: Id)
        requires
            self.reachable_in(from, to, 0),
        ensures
            from == to,
    {
        let path = choose|path: Seq<Id>| #[trigger]
            self.connects(path, from, to) && path.len() == 1;
        assert(path.first() == path.last());
    }

    /// Every vertex is at distance 0 from itself.
    pub proof fn lemma_distance_self(self, vertex: Id)
        ensures
            self.reachable_in(vertex, vertex, 0),
            self.reachable(vertex, vertex),
            self.distance(vertex, vertex) == 0,
    {
        let path = seq![vertex];
        assert(self.connects(path, vertex, vertex));
        self.lemma_distance_least(vertex, vertex, 0);
    }

    /// A walk goes on along an edge.
    pub proof fn lemma_extend(self, from: Id, via: Id, to: Id, hops: nat)
        requires
            self.reachable_in(from, via, hops),
            self.adjacent(via, to),
        ensures
            self.reachable_in(from, to, hops + 1),
    {
        let path = choose|path: Seq<Id>| #[trigger]
            self.connects(path, from, via) && path.len() == hops + 1;
        let longer = path.push(to);
        assert forall|i: int| 0 <= i < longer.len() - 1 implies #[trigger] self.hop(longer, i) by {
            if i < path.len() - 1 {
                assert(self.hop(path, i));
            }
        }
        assert(self.connects(longer, from, to));
    }

    /// A walk with an edge arrives over an edge.
    pub proof fn lemma_shorten(self, from: Id, to: Id, hops: nat)
        requires
            self.reachable_in(from, to, hops),
            hops > 0,
        ensures
            exists|via: Id| #[trigger]
                self.adjacent(via, to) && self.reachable_in(from, via, (hops - 1) as nat),
    {
        let path = choose|path: Seq<Id>| #[trigger]
            self.connects(path, from, to) && path.len() == hops + 1;
        let shorter = path.drop_last();
        let via = shorter.last();
        assert(self.hop(path, hops - 1));
        assert forall|i: int| 0 <= i < shorter.len() - 1 implies #[trigger] self.hop(shorter, i) by {
            assert(self.hop(path, i));
        }
        assert(self.connects(shorter, from, via));
        assert(self.adjacent(via, to));
    }

    /// An edge adds at most one to the distance.
    pub proof fn lemma_distance_step(self, from: Id, via: Id, to: Id)
        requires
            self.reachable(from, via),
            self.adjacent(via, to),
        ensures
            self.reachable(from, to),
            self.distance(from, to) <= self.distance(from, via) + 1,
    {
        self.lemma_distance(from, via);
        self.lemma_extend(from, via, to, self.distance(from, via));
        self.lemma_distance_least(from, to, self.distance(from, via) + 1);
    }

    /// A vertex at a distance above 0 has a neighbour that is one step
    /// nearer and leads to it.
    pub proof fn lemma_predecessor(self, from: Id, to: Id)
        requires
            self.reachable(from, to),
            self.distance(from, to) > 0,
        ensures
            exists|via: Id| #[trigger]
                self.adjacent(via, to) && self.reachable(from, via) && self.distance(from, via) + 1
                    == self.distance(from, to),
    {
        let hops = self.distance(from, to);
        self.lemma_distance(from, to);
        self.lemma_shorten(from, to, hops);
        let via = choose|via: Id| #[trigger]
            self.adjacent(via, to) && self.reachable_in(from, via, (hops - 1) as nat);
        self.lemma_distance_least(from, via, (hops - 1) as nat);
        self.lemma_distance_step(from, via, to);
    }
}

} // verus!
