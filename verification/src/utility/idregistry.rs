//! Identifier Registry module.
//!
//! A registry hands out identifiers that are unique while they are in use
//! and takes them back for reuse.

use std::collections::HashSet;
use std::collections::VecDeque;
use std::fmt::Display;
use std::hash::Hash;
use vstd::prelude::*;
use vstd::std_specs::cmp::PartialEqSpec;
use vstd::std_specs::hash::group_hash_axioms;
use vstd::std_specs::hash::obeys_key_model;

verus! {

/// Identifier Registry Failures.
#[derive(Debug)]
pub enum IdentifierRegistryFailure {
    /// Reported when the registry runs out of unique identifiers.
    OutOfIdentifiers,
    /// Reported when the registry is used with an identifier that it never
    /// minted.
    InvalidIdentifier,
    /// Reported when the registry is asked to free an identifier that is not
    /// in use.
    IdentiferAlreadyReleased,
}

/// A copyable token that can key the standard hash collections.
pub trait Identifier: Clone + Copy + Eq + Display + Hash {
    /// Two identifiers are the same value exactly when `==` says so, and
    /// hashing them is deterministic.
    proof fn lemma_identifier()
        ensures
            obeys_key_model::<Self>(),
            Self::obeys_eq_spec(),
            forall|a: Self, b: Self| #[trigger] a.eq_spec(&b) <==> a == b,
    ;
}

impl Identifier for usize {
    proof fn lemma_identifier() {
        broadcast use group_hash_axioms;

    }
}

/// Identifier Registry Trait.
///
/// If `y` comes out of `acquire_id`, no later `acquire_id` returns `y` unless
/// `release_id(y)` succeeded in between: `held` is the set of identifiers
/// that are out, and an acquisition returns one that is not in it.
pub trait IdentifierRegistry<ID: Identifier>: Clone {
    type Identifier;

    /// The registry's internal consistency.
    spec fn wf(&self) -> bool;

    /// The identifiers this registry has ever minted.
    spec fn minted(&self) -> Set<ID>;

    /// The identifiers that were acquired and not yet released.
    spec fn held(&self) -> Set<ID>;

    /// No identifier is left and none can be minted.
    spec fn exhausted(&self) -> bool;

    /// What one call of `acquire_id` does, in full.
    spec fn acquire_spec(&self, next: &Self, result: Result<ID, IdentifierRegistryFailure>) -> bool;

    /// What one call of `release_id` does, in full.
    spec fn release_spec(&self, id: ID, next: &Self, result: Result<(), IdentifierRegistryFailure>) -> bool;

    /// Builds an empty registry.
    fn null_registry() -> (registry: Self)
        ensures
            registry.wf(),
            registry.minted() == Set::<ID>::empty(),
            registry.held() == Set::<ID>::empty(),
    ;

    /// Retrieves a currently unused identifier and marks it used, or fails
    /// with `OutOfIdentifiers`, which happens exactly when the registry is
    /// exhausted.
    fn acquire_id(&mut self) -> (result: Result<ID, IdentifierRegistryFailure>)
        requires
            old(self).wf(),
        ensures
            final(self).wf(),
            old(self).acquire_spec(final(self), result),
            old(self).minted().subset_of(final(self).minted()),
            match result {
                Ok(id) => {
                    &&& !old(self).exhausted()
                    &&& !old(self).held().contains(id)
                    &&& final(self).minted().contains(id)
                    &&& final(self).held() == old(self).held().insert(id)
                },
                Err(failure) => {
                    &&& old(self).exhausted()
                    &&& failure == IdentifierRegistryFailure::OutOfIdentifiers
                    &&& final(self).minted() == old(self).minted()
                    &&& final(self).held() == old(self).held()
                },
            },
    ;

    /// Returns the identifier to the registry for reuse. Fails with
    /// `InvalidIdentifier` if the registry never minted it, with
    /// `IdentiferAlreadyReleased` if it is minted but not held; a failure
    /// changes nothing.
    fn release_id(&mut self, id: ID) -> (result: Result<(), IdentifierRegistryFailure>)
        requires
            old(self).wf(),
        ensures
            final(self).wf(),
            old(self).release_spec(id, final(self), result),
            final(self).minted() == old(self).minted(),
            match result {
                Ok(()) => {
                    &&& old(self).held().contains(id)
                    &&& final(self).held() == old(self).held().remove(id)
                },
                Err(failure) => {
                    &&& !old(self).held().contains(id)
                    &&& final(self).held() == old(self).held()
                    &&& final(self).exhausted() == old(self).exhausted()
                    &&& failure == if old(self).minted().contains(id) {
                        IdentifierRegistryFailure::IdentiferAlreadyReleased
                    } else {
                        IdentifierRegistryFailure::InvalidIdentifier
                    }
                },
            },
    ;
}

/// The state of an `ExplicitIntegralIdentifierRegistry` as plain values.
pub struct RegistryView {
    /// The least identifier not yet minted: `0 .. watermark` are minted.
    pub watermark: nat,
    /// The free identifiers in the order in which they will be handed out.
    pub free: Seq<usize>,
}

impl RegistryView {
    /// Every free identifier is minted and listed once.
    pub open spec fn valid(self) -> bool {
        &&& self.watermark <= usize::MAX
        &&& self.free.no_duplicates()
        &&& forall|i: int| 0 <= i < self.free.len() ==> (#[trigger] self.free[i]) < self.watermark
    }

    /// The registry made with `initial_size` identifiers, none in use.
    pub open spec fn initial(initial_size: usize) -> RegistryView {
        RegistryView {
            watermark: initial_size as nat,
            free: Seq::new(initial_size as nat, |i: int| i as usize),
        }
    }

    pub open spec fn minted(self) -> Set<usize> {
        Set::new(|id: usize| id < self.watermark)
    }

    pub open spec fn held(self) -> Set<usize> {
        Set::new(|id: usize| id < self.watermark && !self.free.contains(id))
    }

    pub open spec fn exhausted(self) -> bool {
        self.free.len() == 0 && self.watermark >= usize::MAX
    }

    /// The watermark after one growth: doubled, by at least one, and no more
    /// than `usize::MAX`.
    pub open spec fn grown_watermark(self) -> nat {
        let wanted = if self.watermark == 0 {
            1
        } else {
            2 * self.watermark
        };
        if wanted <= usize::MAX {
            wanted as nat
        } else {
            usize::MAX as nat
        }
    }

    /// The registry after one growth: the identifiers from the old watermark
    /// up to the new one join the back of the free list in rising order.
    pub open spec fn grown(self) -> RegistryView {
        let count = self.grown_watermark() - self.watermark;
        RegistryView {
            watermark: self.grown_watermark(),
            free: self.free + Seq::new(count as nat, |i: int| (self.watermark + i) as usize),
        }
    }

    /// One acquisition: the front of the free list, after one growth if the
    /// list was empty; `OutOfIdentifiers` if it is empty and cannot grow.
    pub open spec fn acquire(self) -> (RegistryView, Result<usize, IdentifierRegistryFailure>) {
        if self.free.len() > 0 {
            (RegistryView { free: self.free.drop_first(), ..self }, Ok(self.free[0]))
        } else if self.watermark < usize::MAX {
            let grown = self.grown();
            (RegistryView { free: grown.free.drop_first(), ..grown }, Ok(grown.free[0]))
        } else {
            (self, Err(IdentifierRegistryFailure::OutOfIdentifiers))
        }
    }

    /// One release: the identifier goes to the front of the free list, unless
    /// it was never minted or is free already.
    pub open spec fn release(self, id: usize) -> (RegistryView, Result<(), IdentifierRegistryFailure>) {
        if id >= self.watermark {
            (self, Err(IdentifierRegistryFailure::InvalidIdentifier))
        } else if self.free.contains(id) {
            (self, Err(IdentifierRegistryFailure::IdentiferAlreadyReleased))
        } else {
            (RegistryView { free: seq![id] + self.free, ..self }, Ok(()))
        }
    }
}

/// One call on a registry: an acquisition, or the release of an identifier.
pub enum RegistryCall {
    Acquire,
    Release(usize),
}

impl RegistryView {
    /// The registry after one call.
    pub open spec fn step(self, call: RegistryCall) -> RegistryView {
        match call {
            RegistryCall::Acquire => self.acquire().0,
            RegistryCall::Release(id) => self.release(id).0,
        }
    }

    /// The registry after a sequence of calls, made in order.
    pub open spec fn after(self, calls: Seq<RegistryCall>) -> RegistryView
        decreases calls.len(),
    {
        if calls.len() == 0 {
            self
        } else {
            self.after(calls.drop_last()).step(calls.last())
        }
    }

    /// The identifier that the call at `at` acquired, if it is an acquisition
    /// that succeeded.
    pub open spec fn acquired_at(self, calls: Seq<RegistryCall>, at: int) -> Option<usize> {
        match (calls[at], self.after(calls.take(at)).acquire().1) {
            (RegistryCall::Acquire, Ok(id)) => Some(id),
            _ => None,
        }
    }

    /// The call at `at` is a release of `id` that succeeded.
    pub open spec fn released_at(self, calls: Seq<RegistryCall>, at: int, id: usize) -> bool {
        calls[at] == RegistryCall::Release(id) && self.after(calls.take(at)).release(id).1 is Ok
    }

    /// An acquisition keeps the registry valid and returns an identifier
    /// that was not held; it fails only on an exhausted registry, which it
    /// leaves as it was.
    pub proof fn lemma_acquire(self)
        requires
            self.valid(),
        ensures
            self.acquire().0.valid(),
            self.minted().subset_of(self.acquire().0.minted()),
            match self.acquire().1 {
                Ok(id) => {
                    &&& !self.exhausted()
                    &&& !self.held().contains(id)
                    &&& self.acquire().0.minted().contains(id)
                    &&& self.acquire().0.held() == self.held().insert(id)
                },
                Err(failure) => {
                    &&& self.exhausted()
                    &&& failure == IdentifierRegistryFailure::OutOfIdentifiers
                    &&& self.acquire().0 == self
                },
            },
    {
        if self.free.len() > 0 || self.watermark < usize::MAX {
            let listed = if self.free.len() > 0 {
                self.free
            } else {
                self.grown().free
            };
            let next = self.acquire().0;
            let id = listed[0];
            if self.free.len() == 0 {
                assert(listed =~= Seq::new(
                    (self.grown_watermark() - self.watermark) as nat,
                    |i: int| (self.watermark + i) as usize,
                ));
            }
            assert(listed.no_duplicates());
            lemma_drop_first(listed);
            assert(next.free =~= listed.drop_first());
            assert forall|i: int| 0 <= i < next.free.len() implies (#[trigger] next.free[i])
                < next.watermark by {
                assert(next.free[i] == listed[i + 1]);
            }
            assert(next.held() =~= self.held().insert(id)) by {
                assert forall|x: usize| next.held().contains(x) <==> self.held().insert(
                    id,
                ).contains(x) by {
                    assert(listed.contains(x) <==> x == id || next.free.contains(x));
                    if self.free.len() == 0 {
                        assert(!self.free.contains(x));
                        if self.watermark <= x < next.watermark {
                            assert(listed[x - self.watermark] == x);
                        }
                        if listed.contains(x) {
                            let i = choose|i: int| 0 <= i < listed.len() && listed[i] == x;
                            assert(x == self.watermark + i);
                        }
                    }
                }
            }
            assert(!self.held().contains(id)) by {
                if self.free.len() > 0 {
                    assert(self.free.contains(id));
                }
            }
        }
    }

    /// A release keeps the registry valid. It succeeds exactly on a held
    /// identifier, which it frees; a failure names the reason and changes
    /// nothing.
    pub proof fn lemma_release(self, id: usize)
        requires
            self.valid(),
        ensures
            self.release(id).0.valid(),
            self.release(id).0.minted() == self.minted(),
            match self.release(id).1 {
                Ok(()) => {
                    &&& self.held().contains(id)
                    &&& self.release(id).0.held() == self.held().remove(id)
                },
                Err(failure) => {
                    &&& !self.held().contains(id)
                    &&& self.release(id).0 == self
                    &&& failure == if self.minted().contains(id) {
                        IdentifierRegistryFailure::IdentiferAlreadyReleased
                    } else {
                        IdentifierRegistryFailure::InvalidIdentifier
                    }
                },
            },
    {
        if id < self.watermark && !self.free.contains(id) {
            lemma_push_front(self.free, id);
            let next = self.release(id).0;
            assert forall|i: int| 0 <= i < next.free.len() implies (#[trigger] next.free[i])
                < next.watermark by {
                if i > 0 {
                    assert(next.free[i] == self.free[i - 1]);
                }
            }
            assert(next.held() =~= self.held().remove(id));
        }
    }

    /// Any sequence of calls keeps a valid registry valid.
    pub proof fn lemma_after_valid(self, calls: Seq<RegistryCall>)
        requires
            self.valid(),
        ensures
            self.after(calls).valid(),
        decreases calls.len(),
    {
        if calls.len() > 0 {
            let before = self.after(calls.drop_last());
            self.lemma_after_valid(calls.drop_last());
            match calls.last() {
                RegistryCall::Acquire => before.lemma_acquire(),
                RegistryCall::Release(id) => before.lemma_release(id),
            }
        }
    }

    /// An identifier acquired by the call at `from` is still held before the
    /// call at `upto`, unless a release of it succeeded in between.
    proof fn lemma_stays_held(self, calls: Seq<RegistryCall>, from: int, upto: int)
        requires
            self.valid(),
            0 <= from < upto <= calls.len(),
            self.acquired_at(calls, from) is Some,
            forall|k: int|
                from < k < upto ==> !self.released_at(calls, k, self.acquired_at(calls, from)->0),
        ensures
            self.after(calls.take(upto)).valid(),
            self.after(calls.take(upto)).held().contains(self.acquired_at(calls, from)->0),
        decreases upto - from,
    {
        let id = self.acquired_at(calls, from)->0;
        let last = upto - 1;
        let before = self.after(calls.take(last));
        assert(calls.take(upto).drop_last() =~= calls.take(last));
        assert(calls.take(upto).last() == calls[last]);
        self.lemma_after_valid(calls.take(last));
        self.lemma_after_valid(calls.take(upto));
        if last == from {
            before.lemma_acquire();
        } else {
            self.lemma_stays_held(calls, from, last);
            match calls[last] {
                RegistryCall::Acquire => before.lemma_acquire(),
                RegistryCall::Release(other) => {
                    before.lemma_release(other);
                    assert(!self.released_at(calls, last, id));
                },
            }
        }
    }

    /// Uniqueness: whatever calls are made, in whatever order, two
    /// acquisitions return the same identifier only if a release of that
    /// identifier succeeded between them. No identifier is held twice.
    pub proof fn lemma_held_identifiers_are_unique(
        self,
        calls: Seq<RegistryCall>,
        first: int,
        second: int,
    )
        requires
            self.valid(),
            0 <= first < second < calls.len(),
            self.acquired_at(calls, first) is Some,
            self.acquired_at(calls, first) == self.acquired_at(calls, second),
        ensures
            exists|k: int|
                first < k < second && self.released_at(
                    calls,
                    k,
                    self.acquired_at(calls, first)->0,
                ),
    {
        let id = self.acquired_at(calls, first)->0;
        if forall|k: int| first < k < second ==> !self.released_at(calls, k, id) {
            self.lemma_stays_held(calls, first, second);
            self.after(calls.take(second)).lemma_acquire();
            assert(false);
        }
    }

    /// `count` acquisitions in a row.
    pub open spec fn acquisitions(count: nat) -> Seq<RegistryCall> {
        Seq::new(count, |i: int| RegistryCall::Acquire)
    }

    /// After `count` acquisitions, a registry made with `initial_size`
    /// identifiers has not grown and lists the rest in rising order.
    proof fn lemma_initial_drained(initial_size: usize, count: nat)
        requires
            count <= initial_size,
        ensures
            Self::initial(initial_size).after(Self::acquisitions(count)) == (RegistryView {
                watermark: initial_size as nat,
                free: Seq::new((initial_size - count) as nat, |i: int| (count + i) as usize),
            }),
        decreases count,
    {
        let start = Self::initial(initial_size);
        if count == 0 {
            assert(start.free =~= Seq::new(initial_size as nat, |i: int| (0 + i) as usize));
        } else {
            let fewer = (count - 1) as nat;
            Self::lemma_initial_drained(initial_size, fewer);
            assert(Self::acquisitions(count).drop_last() =~= Self::acquisitions(fewer));
            let before = start.after(Self::acquisitions(fewer));
            assert(before.acquire().0.free =~= Seq::new(
                (initial_size - count) as nat,
                |i: int| (count + i) as usize,
            ));
        }
    }

    /// Growth correctness: on a registry made with `initial_size`
    /// identifiers, the first `initial_size + 1` acquisitions all succeed and
    /// return `0, 1, .., initial_size`, each a new value. The registry keeps
    /// its size through the first `initial_size` of them and grows once, to
    /// `grown_watermark`, in the last.
    pub proof fn lemma_growth(initial_size: usize, at: int)
        requires
            0 < initial_size < usize::MAX,
            0 <= at <= initial_size,
        ensures
            Self::initial(initial_size).acquired_at(
                Self::acquisitions((initial_size + 1) as nat),
                at,
            ) == Some(at as usize),
            Self::initial(initial_size).after(
                Self::acquisitions((initial_size + 1) as nat).take(at),
            ).watermark == initial_size,
            Self::initial(initial_size).after(
                Self::acquisitions((initial_size + 1) as nat),
            ).watermark == Self::initial(initial_size).grown_watermark(),
            Self::initial(initial_size).grown_watermark() > initial_size,
    {
        let start = Self::initial(initial_size);
        let calls = Self::acquisitions((initial_size + 1) as nat);
        assert(calls.take(at) =~= Self::acquisitions(at as nat));
        Self::lemma_initial_drained(initial_size, at as nat);
        Self::lemma_initial_drained(initial_size, initial_size as nat);
        assert(calls.drop_last() =~= Self::acquisitions(initial_size as nat));
        let drained = start.after(Self::acquisitions(initial_size as nat));
        assert(drained.free.len() == 0);
        assert(drained.grown_watermark() == start.grown_watermark());
    }
}

proof fn lemma_drop_first(s: Seq<usize>)
    requires
        s.len() > 0,
        s.no_duplicates(),
    ensures
        s.drop_first().no_duplicates(),
        !s.drop_first().contains(s[0]),
        s.drop_first().to_set() =~= s.to_set().remove(s[0]),
        forall|x: usize| s.contains(x) <==> x == s[0] || s.drop_first().contains(x),
{
    let t = s.drop_first();
    assert forall|x: usize| s.contains(x) <==> x == s[0] || t.contains(x) by {
        if s.contains(x) {
            let i = choose|i: int| 0 <= i < s.len() && s[i] == x;
            if i > 0 {
                assert(t[i - 1] == x);
            }
        }
        if t.contains(x) {
            let i = choose|i: int| 0 <= i < t.len() && t[i] == x;
            assert(s[i + 1] == x);
        }
    }
    if t.contains(s[0]) {
        let i = choose|i: int| 0 <= i < t.len() && t[i] == s[0];
        assert(s[i + 1] == s[0]);
    }
}

proof fn lemma_push_back(s: Seq<usize>, x: usize)
    requires
        s.no_duplicates(),
        !s.contains(x),
    ensures
        s.push(x).no_duplicates(),
        s.push(x).to_set() =~= s.to_set().insert(x),
        forall|y: usize| s.push(x).contains(y) <==> y == x || s.contains(y),
{
    let t = s.push(x);
    assert forall|y: usize| t.contains(y) <==> y == x || s.contains(y) by {
        if t.contains(y) {
            let i = choose|i: int| 0 <= i < t.len() && t[i] == y;
            if i < s.len() {
                assert(s[i] == y);
            }
        }
        if s.contains(y) {
            let i = choose|i: int| 0 <= i < s.len() && s[i] == y;
            assert(t[i] == y);
        }
        assert(t[s.len() as int] == x);
    }
}

proof fn lemma_push_front(s: Seq<usize>, x: usize)
    requires
        s.no_duplicates(),
        !s.contains(x),
    ensures
        (seq![x] + s).no_duplicates(),
        (seq![x] + s).to_set() =~= s.to_set().insert(x),
        forall|y: usize| (seq![x] + s).contains(y) <==> y == x || s.contains(y),
{
    let t = seq![x] + s;
    assert forall|y: usize| t.contains(y) <==> y == x || s.contains(y) by {
        if t.contains(y) {
            let i = choose|i: int| 0 <= i < t.len() && t[i] == y;
            if i > 0 {
                assert(s[i - 1] == y);
            }
        }
        if s.contains(y) {
            let i = choose|i: int| 0 <= i < s.len() && s[i] == y;
            assert(t[i + 1] == y);
        }
        assert(t[0] == x);
    }
    assert forall|i: int, j: int| 0 <= i < t.len() && 0 <= j < t.len() && i != j implies t[i] != t[j] by {
        if i > 0 && j > 0 {
            assert(s[i - 1] != s[j - 1]);
        } else if i > 0 {
            assert(s[i - 1] == t[i]);
        } else {
            assert(s[j - 1] == t[j]);
        }
    }
}

/// Explicit, Integral Identifier Registry.
///
/// This registry maintains a list of available and in-use integer identifiers.
pub struct ExplicitIntegralIdentifierRegistry {
    all_ids: HashSet<usize>,
    free_ids: HashSet<usize>,
    free_id_alloc_chain: VecDeque<usize>,
    min_unallocated_id: usize,
}

impl Clone for ExplicitIntegralIdentifierRegistry {
    /// Rebuilds both sets from the watermark and the free list, so the copy
    /// of a consistent registry is consistent and has the same view.
    fn clone(&self) -> (copy: Self)
        ensures
            copy@ == self@,
            self.wf() ==> copy.wf(),
    {
        broadcast use group_hash_axioms;

        let mut all_ids: HashSet<usize> = HashSet::new();
        let mut id: usize = 0;
        while id < self.min_unallocated_id
            invariant
                id <= self.min_unallocated_id,
                all_ids@ =~= Set::new(|k: usize| k < id),
            decreases self.min_unallocated_id - id,
        {
            all_ids.insert(id);
            id += 1;
        }
        let mut free_ids: HashSet<usize> = HashSet::new();
        let mut free_id_alloc_chain: VecDeque<usize> = VecDeque::new();
        let mut i: usize = 0;
        while i < self.free_id_alloc_chain.len()
            invariant
                i <= self.free_id_alloc_chain@.len(),
                free_id_alloc_chain@ =~= self.free_id_alloc_chain@.take(i as int),
                free_ids@ =~= free_id_alloc_chain@.to_set(),
            decreases self.free_id_alloc_chain@.len() - i,
        {
            let free_id = self.free_id_alloc_chain[i];
            proof {
                let so_far = free_id_alloc_chain@;
                let next = so_far.push(free_id);
                assert(next =~= self.free_id_alloc_chain@.take(i + 1));
                assert(next.to_set() =~= so_far.to_set().insert(free_id)) by {
                    assert forall|x: usize| next.contains(x) <==> x == free_id || so_far.contains(x) by {
                        if next.contains(x) {
                            let k = choose|k: int| 0 <= k < next.len() && next[k] == x;
                            if k < so_far.len() {
                                assert(so_far[k] == x);
                            }
                        }
                        if so_far.contains(x) {
                            let k = choose|k: int| 0 <= k < so_far.len() && so_far[k] == x;
                            assert(next[k] == x);
                        }
                        assert(next[so_far.len() as int] == free_id);
                    }
                }
            }
            free_ids.insert(free_id);
            free_id_alloc_chain.push_back(free_id);
            i += 1;
        }
        assert(free_id_alloc_chain@ =~= self.free_id_alloc_chain@);
        ExplicitIntegralIdentifierRegistry {
            all_ids,
            free_ids,
            free_id_alloc_chain,
            min_unallocated_id: self.min_unallocated_id,
        }
    }
}

impl View for ExplicitIntegralIdentifierRegistry {
    type V = RegistryView;

    closed spec fn view(&self) -> RegistryView {
        RegistryView {
            watermark: self.min_unallocated_id as nat,
            free: self.free_id_alloc_chain@,
        }
    }
}

impl IdentifierRegistry<usize> for ExplicitIntegralIdentifierRegistry {
    type Identifier = usize;

    closed spec fn wf(&self) -> bool {
        &&& self@.valid()
        &&& self.all_ids@ =~= self@.minted()
        &&& self.free_ids@ =~= self@.free.to_set()
    }

    open spec fn minted(&self) -> Set<usize> {
        self@.minted()
    }

    open spec fn held(&self) -> Set<usize> {
        self@.held()
    }

    open spec fn exhausted(&self) -> bool {
        self@.exhausted()
    }

    open spec fn acquire_spec(&self, next: &Self, result: Result<usize, IdentifierRegistryFailure>) -> bool {
        (next@, result) == self@.acquire()
    }

    open spec fn release_spec(&self, id: usize, next: &Self, result: Result<(), IdentifierRegistryFailure>) -> bool {
        (next@, result) == self@.release(id)
    }

    fn null_registry() -> (registry: Self)
        ensures
            registry@ == (RegistryView { watermark: 0, free: Seq::empty() }),
    {
        let registry = ExplicitIntegralIdentifierRegistry {
            all_ids: HashSet::new(),
            free_ids: HashSet::new(),
            free_id_alloc_chain: VecDeque::new(),
            min_unallocated_id: 0,
        };
        assert(registry@.free =~= Seq::<usize>::empty());
        assert(registry@.minted() =~= Set::<usize>::empty());
        assert(registry@.held() =~= Set::<usize>::empty());
        assert(registry@.free.to_set() =~= Set::<usize>::empty());
        registry
    }

    fn acquire_id(&mut self) -> (result: Result<usize, IdentifierRegistryFailure>)
        ensures
            final(self)@.valid(),
    {
        broadcast use group_hash_axioms;

        if self.free_id_alloc_chain.len() == 0 {
            // The registry must grow before it can hand out anything.
            let old_min_unallocated_id = self.min_unallocated_id;
            if old_min_unallocated_id == usize::MAX {
                return Err(IdentifierRegistryFailure::OutOfIdentifiers);
            }
            let wanted: usize = if old_min_unallocated_id == 0 {
                1
            } else {
                old_min_unallocated_id
            };
            let new_min_unallocated_id: usize = if wanted <= usize::MAX - old_min_unallocated_id {
                old_min_unallocated_id + wanted
            } else {
                usize::MAX
            };
            self.min_unallocated_id = new_min_unallocated_id;
            assert(self.free_id_alloc_chain@ =~= Seq::<usize>::empty());

            let mut new_id: usize = old_min_unallocated_id;
            while new_id < new_min_unallocated_id
                invariant
                    old_min_unallocated_id <= new_id <= new_min_unallocated_id,
                    self.min_unallocated_id == new_min_unallocated_id,
                    self.all_ids@ =~= Set::new(|id: usize| id < new_id),
                    self.free_ids@ =~= self.free_id_alloc_chain@.to_set(),
                    self.free_id_alloc_chain@ =~= Seq::new(
                        (new_id - old_min_unallocated_id) as nat,
                        |i: int| (old_min_unallocated_id + i) as usize,
                    ),
                decreases new_min_unallocated_id - new_id,
            {
                proof {
                    let chain = self.free_id_alloc_chain@;
                    if chain.contains(new_id) {
                        let i = choose|i: int| 0 <= i < chain.len() && chain[i] == new_id;
                        assert(false);
                    }
                    assert(chain.no_duplicates());
                    lemma_push_back(chain, new_id);
                }
                self.all_ids.insert(new_id);
                self.free_ids.insert(new_id);
                self.free_id_alloc_chain.push_back(new_id);
                new_id += 1;
            }
            proof {
                assert(self@ == old(self)@.grown());
            }
        }
        proof {
            lemma_drop_first(self.free_id_alloc_chain@);
        }
        let new_id = self.free_id_alloc_chain.pop_front().unwrap();
        self.free_ids.remove(&new_id);
        proof {
            assert(self.free_id_alloc_chain@ =~= old(self)@.acquire().0.free);
            old(self)@.lemma_acquire();
        }
        Ok(new_id)
    }

    fn release_id(&mut self, id: usize) -> (result: Result<(), IdentifierRegistryFailure>)
        ensures
            final(self)@.valid(),
    {
        broadcast use group_hash_axioms;

        if !self.all_ids.contains(&id) {
            return Err(IdentifierRegistryFailure::InvalidIdentifier);
        }
        if self.free_ids.contains(&id) {
            return Err(IdentifierRegistryFailure::IdentiferAlreadyReleased);
        }
        proof {
            lemma_push_front(self.free_id_alloc_chain@, id);
        }
        self.free_id_alloc_chain.push_front(id);
        self.free_ids.insert(id);
        proof {
            old(self)@.lemma_release(id);
        }
        Ok(())
    }
}

impl ExplicitIntegralIdentifierRegistry {
    /// The view of a consistent registry is valid.
    pub proof fn lemma_wf(&self)
        requires
            self.wf(),
        ensures
            self@.valid(),
    {
    }

    /// Build a registry with a non-zero initial size: the identifiers
    /// `0 .. initial_size` are minted and free, and will be handed out in
    /// rising order.
    pub fn new(initial_size: usize) -> (registry: Self)
        requires
            initial_size > 0,
        ensures
            registry.wf(),
            registry@ == RegistryView::initial(initial_size),
    {
        broadcast use group_hash_axioms;

        if initial_size == 0 {
            // Only a caller that was not verified gets here.
            let size: Option<usize> = None;
            size.expect("Explicit Integral Identifier Registry expects a positive initial size.");
        }
        let mut all_ids: HashSet<usize> = HashSet::new();
        let mut free_ids: HashSet<usize> = HashSet::new();
        let mut free_id_alloc_chain: VecDeque<usize> = VecDeque::new();
        assert(free_id_alloc_chain@ =~= Seq::new(0, |i: int| i as usize));
        let mut i: usize = 0;
        while i < initial_size
            invariant
                i <= initial_size,
                all_ids@ =~= Set::new(|id: usize| id < i),
                free_ids@ =~= free_id_alloc_chain@.to_set(),
                free_id_alloc_chain@ =~= Seq::new(i as nat, |k: int| k as usize),
            decreases initial_size - i,
        {
            proof {
                let chain = free_id_alloc_chain@;
                if chain.contains(i) {
                    let k = choose|k: int| 0 <= k < chain.len() && chain[k] == i;
                    assert(false);
                }
                assert(chain.no_duplicates());
                lemma_push_back(chain, i);
            }
            all_ids.insert(i);
            free_ids.insert(i);
            free_id_alloc_chain.push_back(i);
            i += 1;
        }
        ExplicitIntegralIdentifierRegistry {
            all_ids,
            free_ids,
            free_id_alloc_chain,
            min_unallocated_id: initial_size,
        }
    }
}

} // verus!
