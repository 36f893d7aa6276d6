use vstd::prelude::*;

use crate::frontier::{
    apply, count, delta_batch, fits, frontier_delta, frontier_le, headroom, is_frontier, less_equal,
    ChangeBatch, Frontier, MutableAntichain,
    Timestamp,
};
use crate::order::{ascending_order, is_ascending_order, occurs};
use crate::shard::{CollectionMetadata, PersistLocation, ShardId};

verus! {

/// The identifier of a collection.
pub type GlobalId = u64;

/// The description a source was created with; opaque to the controller.
#[derive(Clone, Copy, Debug, PartialEq, Eq, Structural)]
pub struct SourceDesc {
    pub connector: u64,
}

/// How the controller's own read hold follows the write frontier.
#[derive(Clone, Copy, Debug, PartialEq, Eq, Structural)]
pub enum ReadPolicy {
    /// Hold reads at a fixed frontier.
    ValidFrom(Frontier),
    /// Hold reads this far behind the write frontier.
    LagBy(Timestamp),
}

/// The read frontier that `p` proposes for a collection written up to `write`.
pub open spec fn policy_frontier(p: ReadPolicy, write: Frontier) -> Frontier {
    match p {
        ReadPolicy::ValidFrom(f) => f,
        ReadPolicy::LagBy(d) => match write {
            None => None,
            Some(t) => Some(if t >= d { (t - d) as u64 } else { 0u64 }),
        },
    }
}

/// The implied capability after a proposal: it moves only forward.
pub open spec fn ratchet(implied: Frontier, proposal: Frontier) -> Frontier {
    if frontier_le(implied, proposal) {
        proposal
    } else {
        implied
    }
}

impl ReadPolicy {
    pub fn frontier(&self, write: &Frontier) -> (r: Frontier)
        ensures
            r == policy_frontier(*self, *write),
    {
        match self {
            ReadPolicy::ValidFrom(f) => *f,
            ReadPolicy::LagBy(d) => match write {
                None => None,
                Some(t) => Some(t.saturating_sub(*d)),
            },
        }
    }
}

/// Errors surfaced to callers of the controller.
#[derive(Clone, Debug, PartialEq, Eq)]
pub enum StorageError {
    /// The source identifier was re-created, or installed with a different description.
    SourceIdReused(GlobalId),
    /// The source identifier is not present.
    IdentifierMissing(GlobalId),
    /// An update of an appended batch was at or beyond the batch's upper.
    UpdateBeyondUpper(GlobalId),
    /// The expected upper of an append differed from the collection's upper.
    InvalidUpper(GlobalId),
    /// An error from the underlying client.
    ClientError(String),
    /// An operation failed to read or write durable state.
    IOError(String),
}

/// One update of an appended batch.
#[derive(Clone, Debug, PartialEq, Eq)]
pub struct Update {
    pub row: Vec<u8>,
    pub timestamp: Timestamp,
    pub diff: i64,
}

/// State maintained about an individual collection.
pub struct CollectionState {
    /// Description with which the source was created, and its initial `since`.
    pub description: (SourceDesc, Frontier),
    /// Accumulation of read capabilities for the collection.
    pub read_capabilities: MutableAntichain,
    /// The controller's own read capability, derived from the read policy.
    pub implied_capability: Frontier,
    /// The policy that downgrades `implied_capability`.
    pub read_policy: ReadPolicy,
    /// Reported progress of the writers.
    pub write_frontier: MutableAntichain,
    /// The shard of the remap collection that reclocks this collection.
    pub timestamp_shard_id: ShardId,
    /// The shard holding the contents of this collection.
    pub persist_shard: ShardId,
}

impl CollectionState {
    pub open spec fn wf(&self) -> bool {
        self.read_capabilities.wf() && self.write_frontier.wf()
    }

    /// The read frontier: where compaction may proceed to.
    pub open spec fn since(&self) -> Frontier {
        self.read_capabilities.frontier_spec()
    }

    /// The write frontier: where writers have advanced to.
    pub open spec fn upper(&self) -> Frontier {
        self.write_frontier.frontier_spec()
    }

    /// Creates a collection state, with a read policy valid from `since`.
    pub fn new(
        description: SourceDesc,
        since: Frontier,
        persist_shard: ShardId,
        timestamp_shard_id: ShardId,
    ) -> (r: Self)
        ensures
            r.wf(),
            r.description == (description, since),
            r.read_capabilities@ == (match since {
                Some(t) => Map::<Timestamp, int>::empty().insert(t, 1int),
                None => Map::<Timestamp, int>::empty(),
            }),
            r.since() == since,
            r.implied_capability == since,
            r.read_policy == ReadPolicy::ValidFrom(since),
            r.write_frontier@ == Map::<Timestamp, int>::empty().insert(0, 1int),
            r.upper() == Some(0u64),
            r.persist_shard == persist_shard,
            r.timestamp_shard_id == timestamp_shard_id,
    {
        let mut read_capabilities = MutableAntichain::new();
        let mut changes: ChangeBatch = Vec::new();
        match since {
            Some(t) => changes.push((t, 1i64)),
            None => {},
        }
        proof {
            let c = changes@;
            if c.len() == 1 {
                assert(c.drop_first() =~= Seq::<(Timestamp, i64)>::empty());
                assert(fits(crate::frontier::apply_one(read_capabilities@, c[0]), c.drop_first()));
                assert(fits(read_capabilities@, c));
                assert(apply(crate::frontier::apply_one(read_capabilities@, c[0]), c.drop_first())
                    == crate::frontier::apply_one(read_capabilities@, c[0]));
                assert(apply(read_capabilities@, c) =~= Map::<Timestamp, int>::empty().insert(
                    c[0].0,
                    1int,
                ));
            }
        }
        let _ = read_capabilities.update_iter(&changes);
        proof {
            match since {
                Some(t) => {
                    assert(is_frontier(read_capabilities@, since));
                },
                None => {
                    assert(is_frontier(read_capabilities@, since));
                },
            }
            crate::frontier::lemma_frontier_unique(
                read_capabilities@,
                since,
                read_capabilities.frontier_spec(),
            );
        }
        CollectionState {
            description: (description, since),
            read_capabilities,
            implied_capability: since,
            read_policy: ReadPolicy::ValidFrom(since),
            write_frontier: MutableAntichain::new_bottom(0),
            timestamp_shard_id,
            persist_shard,
        }
    }
}

} // verus!

verus! {

/// The registry as a map from id, over a list whose ids are distinct.
pub open spec fn registry_view(s: Seq<(GlobalId, CollectionState)>) -> Map<GlobalId, CollectionState> {
    Map::new(
        |id: GlobalId| exists|i: int| 0 <= i < s.len() && s[i].0 == id,
        |id: GlobalId| s[choose|i: int| 0 <= i < s.len() && s[i].0 == id].1,
    )
}

/// The ids of a list are distinct.
pub open spec fn ids_distinct<V>(s: Seq<(GlobalId, V)>) -> bool {
    forall|i: int, j: int| 0 <= i < j < s.len() ==> s[i].0 != s[j].0
}

/// The entry at a position of a list with distinct ids is what the registry maps its id to.
pub proof fn lemma_registry_at(s: Seq<(GlobalId, CollectionState)>, i: int)
    requires
        ids_distinct(s),
        0 <= i < s.len(),
    ensures
        registry_view(s).contains_key(s[i].0),
        registry_view(s)[s[i].0] == s[i].1,
{
    let id = s[i].0;
    assert(exists|k: int| 0 <= k < s.len() && s[k].0 == id);
    let k = choose|k: int| 0 <= k < s.len() && s[k].0 == id;
    assert(k == i);
}

/// Replacing the state at a position updates the registry at that id alone.
pub proof fn lemma_registry_update(s: Seq<(GlobalId, CollectionState)>, i: int, c: CollectionState)
    requires
        ids_distinct(s),
        0 <= i < s.len(),
    ensures
        ids_distinct(s.update(i, (s[i].0, c))),
        registry_view(s.update(i, (s[i].0, c))) == registry_view(s).insert(s[i].0, c),
{
    let t = s.update(i, (s[i].0, c));
    assert(ids_distinct(t));
    let a = registry_view(t);
    let b = registry_view(s).insert(s[i].0, c);
    assert forall|id: GlobalId| a.contains_key(id) <==> b.contains_key(id) by {
        if a.contains_key(id) {
            let k = choose|k: int| 0 <= k < t.len() && t[k].0 == id;
            assert(s[k].0 == id);
        }
        if registry_view(s).contains_key(id) {
            let k = choose|k: int| 0 <= k < s.len() && s[k].0 == id;
            assert(t[k].0 == id);
        }
    }
    assert forall|id: GlobalId| a.contains_key(id) implies a[id] == b[id] by {
        let k = choose|k: int| 0 <= k < t.len() && t[k].0 == id;
        lemma_registry_at(t, k);
        if id != s[i].0 {
            lemma_registry_at(s, k);
        }
    }
    assert(a =~= b);
}

/// Two collection states agree on everything but their read capabilities.
pub open spec fn same_but_reads(a: CollectionState, b: CollectionState) -> bool {
    &&& a.description == b.description
    &&& a.implied_capability == b.implied_capability
    &&& a.read_policy == b.read_policy
    &&& a.write_frontier == b.write_frontier
    &&& a.timestamp_shard_id == b.timestamp_shard_id
    &&& a.persist_shard == b.persist_shard
}

/// The ids of a batch of per-collection updates.
pub open spec fn batch_ids<V>(u: Seq<(GlobalId, V)>) -> Seq<u64> {
    u.map_values(|e: (GlobalId, V)| e.0)
}

/// The id occurs in the batch.
pub open spec fn in_batch<V>(u: Seq<(GlobalId, V)>, id: GlobalId) -> bool {
    exists|j: int| 0 <= j < u.len() && u[j].0 == id
}

/// The list of `(id, frontier)` compaction directives for the given ids, in descending id
/// order, holds exactly those whose read frontier moved, each with its new read frontier.
pub open spec fn compactions_of(
    before: Map<GlobalId, CollectionState>,
    after: Map<GlobalId, CollectionState>,
    touched: Set<GlobalId>,
    r: Seq<(GlobalId, Frontier)>,
) -> bool {
    &&& forall|a: int, b: int| 0 <= a < b < r.len() ==> r[a].0 > r[b].0
    &&& forall|k: int|
        0 <= k < r.len() ==> touched.contains(#[trigger] r[k].0) && r[k].1 == after[r[k].0].since()
            && before[r[k].0].since() != after[r[k].0].since()
    &&& forall|id: GlobalId|
        touched.contains(id) && before[id].since() != after[id].since() ==> exists|k: int|
            0 <= k < r.len() && r[k].0 == id
}

/// A storage controller: the registry of collections and their frontiers.
pub struct Controller {
    collections: Vec<(GlobalId, CollectionState)>,
    /// The durable location all collections are written to.
    persist_location: PersistLocation,
}

impl Controller {
    /// The durable location all collections are written to.
    pub closed spec fn location(&self) -> PersistLocation {
        self.persist_location
    }

    pub closed spec fn view(&self) -> Map<GlobalId, CollectionState> {
        registry_view(self.collections@)
    }

    pub closed spec fn wf(&self) -> bool {
        &&& ids_distinct(self.collections@)
        &&& forall|i: int| 0 <= i < self.collections@.len() ==> (#[trigger] self.collections@[i]).1.wf()
    }

    /// A controller with no collections.
    pub fn new(persist_location: PersistLocation) -> (r: Controller)
        ensures
            r.wf(),
            r@ == Map::<GlobalId, CollectionState>::empty(),
            r.location() == persist_location,
    {
        let r = Controller { collections: Vec::new(), persist_location };
        assert(r@ =~= Map::<GlobalId, CollectionState>::empty());
        r
    }

    /// Every registered collection is well formed.
    pub proof fn lemma_wf_states(&self)
        requires
            self.wf(),
        ensures
            forall|id: GlobalId| #[trigger] self@.contains_key(id) ==> self@[id].wf(),
    {
        assert forall|id: GlobalId| #[trigger] self@.contains_key(id) implies self@[id].wf() by {
            let k = choose|k: int| 0 <= k < self.collections@.len() && self.collections@[k].0 == id;
            lemma_registry_at(self.collections@, k);
        }
    }

    fn position(&self, id: GlobalId) -> (r: Option<usize>)
        requires
            self.wf(),
        ensures
            match r {
                Some(i) => i < self.collections@.len() && self.collections@[i as int].0 == id
                    && self@.contains_key(id) && self@[id] == self.collections@[i as int].1,
                None => !self@.contains_key(id),
            },
    {
        let mut i: usize = 0;
        while i < self.collections.len()
            invariant
                self.wf(),
                i <= self.collections@.len(),
                forall|k: int| 0 <= k < i ==> self.collections@[k].0 != id,
            decreases self.collections@.len() - i,
        {
            if self.collections[i].0 == id {
                proof {
                    lemma_registry_at(self.collections@, i as int);
                }
                return Some(i);
            }
            i = i + 1;
        }
        None
    }

    /// The state of a collection, should it exist.
    pub fn collection(&self, id: GlobalId) -> (r: Result<&CollectionState, StorageError>)
        requires
            self.wf(),
        ensures
            match r {
                Ok(c) => self@.contains_key(id) && *c == self@[id],
                Err(e) => !self@.contains_key(id) && e == StorageError::IdentifierMissing(id),
            },
    {
        match self.position(id) {
            Some(i) => Ok(&self.collections[i].1),
            None => Err(StorageError::IdentifierMissing(id)),
        }
    }

    /// The metadata needed to read a collection.
    pub fn collection_metadata(&self, id: GlobalId) -> (r: Result<CollectionMetadata, StorageError>)
        requires
            self.wf(),
        ensures
            match r {
                Ok(m) => self@.contains_key(id) && m == (CollectionMetadata {
                    persist_location: self.location(),
                    timestamp_shard_id: self@[id].timestamp_shard_id,
                    persist_shard: self@[id].persist_shard,
                }),
                Err(e) => !self@.contains_key(id) && e == StorageError::IdentifierMissing(id),
            },
    {
        let collection = match self.collection(id) {
            Ok(c) => c,
            Err(e) => {
                return Err(e);
            },
        };
        Ok(
            CollectionMetadata {
                persist_location: self.persist_location.duplicate(),
                timestamp_shard_id: collection.timestamp_shard_id,
                persist_shard: collection.persist_shard,
            },
        )
    }

    /// Checks that a collection exists for every id; the error names the first that does not.
    pub fn validate_ids(&self, ids: &Vec<GlobalId>) -> (r: Result<(), StorageError>)
        requires
            self.wf(),
        ensures
            match r {
                Ok(()) => forall|k: int| 0 <= k < ids@.len() ==> self@.contains_key(#[trigger] ids@[k]),
                Err(e) => exists|k: int|
                    0 <= k < ids@.len() && !self@.contains_key(ids@[k]) && e
                        == StorageError::IdentifierMissing(ids@[k]) && forall|m: int|
                        0 <= m < k ==> self@.contains_key(#[trigger] ids@[m]),
            },
    {
        let mut i: usize = 0;
        while i < ids.len()
            invariant
                self.wf(),
                i <= ids@.len(),
                forall|k: int| 0 <= k < i ==> self@.contains_key(#[trigger] ids@[k]),
            decreases ids@.len() - i,
        {
            match self.collection(ids[i]) {
                Ok(_) => {},
                Err(e) => {
                    return Err(e);
                },
            }
            i = i + 1;
        }
        Ok(())
    }
}

} // verus!

verus! {

/// Position `j` of a batch lies in `order[k..]`, that is, it has been processed.
pub open spec fn processed(order: Seq<usize>, k: int, j: int) -> bool {
    exists|m: int| k <= m < order.len() && order[m] == j
}

/// The set of ids of a batch.
pub open spec fn id_set<V>(u: Seq<(GlobalId, V)>) -> Set<GlobalId> {
    Set::new(|id: GlobalId| in_batch(u, id))
}

impl Controller {
    /// Folds a change batch into the read capabilities of the collection at position `i`.
    fn apply_reads_at(&mut self, i: usize, batch: &ChangeBatch) -> (changed: bool)
        requires
            old(self).wf(),
            i < old(self).collections@.len(),
            fits(old(self).collections@[i as int].1.read_capabilities@, batch@),
        ensures
            final(self).wf(),
            final(self).location() == old(self).location(),
            final(self).collections@.len() == old(self).collections@.len(),
            final(self).collections@[i as int].0 == old(self).collections@[i as int].0,
            final(self)@ == old(self)@.insert(
                old(self).collections@[i as int].0,
                final(self).collections@[i as int].1,
            ),
            same_but_reads(final(self).collections@[i as int].1, old(self).collections@[i as int].1),
            final(self).collections@[i as int].1.read_capabilities@ == apply(
                old(self).collections@[i as int].1.read_capabilities@,
                batch@,
            ),
            changed == (final(self).collections@[i as int].1.since() != old(
                self,
            ).collections@[i as int].1.since()),
    {
        let ghost s0 = self.collections@;
        let delta = self.collections[i].1.read_capabilities.update_iter(batch);
        proof {
            assert(self.collections@ == s0.update(i as int, (s0[i as int].0, self.collections@[i as int].1)));
            lemma_registry_update(s0, i as int, self.collections@[i as int].1);
            assert forall|k: int| 0 <= k < self.collections@.len() implies (#[trigger] self.collections@[k]).1.wf() by {
                if k != i {
                    assert(self.collections@[k] == s0[k]);
                }
            }
        }
        delta.len() > 0
    }

    /// Applies `updates` to the read capabilities, processing ids in descending order, and
    /// returns the compaction directives `(id, new read frontier)` for every collection whose
    /// read frontier moved, in that order.
    pub fn update_read_capabilities(&mut self, updates: &Vec<(GlobalId, ChangeBatch)>) -> (r: Vec<
        (GlobalId, Frontier),
    >)
        requires
            old(self).wf(),
            ids_distinct(updates@),
            forall|j: int|
                0 <= j < updates@.len() ==> old(self)@.contains_key(#[trigger] updates@[j].0) && fits(
                    old(self)@[updates@[j].0].read_capabilities@,
                    updates@[j].1@,
                ),
        ensures
            final(self).wf(),
            final(self).location() == old(self).location(),
            final(self)@.dom() == old(self)@.dom(),
            forall|id: GlobalId|
                old(self)@.contains_key(id) && !in_batch(updates@, id) ==> final(self)@[id] == old(
                    self,
                )@[id],
            forall|j: int|
                0 <= j < updates@.len() ==> same_but_reads(
                    final(self)@[#[trigger] updates@[j].0],
                    old(self)@[updates@[j].0],
                ) && final(self)@[updates@[j].0].read_capabilities@ == apply(
                    old(self)@[updates@[j].0].read_capabilities@,
                    updates@[j].1@,
                ),
            compactions_of(old(self)@, final(self)@, id_set(updates@), r@),
    {
        let ghost old_view = self@;
        let ghost u = updates@;
        let mut ids: Vec<u64> = Vec::new();
        let mut x: usize = 0;
        while x < updates.len()
            invariant
                x <= u.len(),
                u == updates@,
                ids@.len() == x,
                forall|y: int| 0 <= y < x ==> ids@[y] == u[y].0,
            decreases u.len() - x,
        {
            ids.push(updates[x].0);
            x = x + 1;
        }
        let order = ascending_order(&ids);
        let n = order.len();
        let mut r: Vec<(GlobalId, Frontier)> = Vec::new();
        let mut k: usize = n;
        while k > 0
            invariant
                k <= n,
                n == u.len(),
                u == updates@,
                ids@.len() == n,
                forall|y: int| 0 <= y < n ==> ids@[y] == u[y].0,
                is_ascending_order(ids@, order@),
                ids_distinct(u),
                self.wf(),
                self.location() == old(self).location(),
                old_view == old(self)@,
                self@.dom() == old_view.dom(),
                forall|j: int|
                    0 <= j < n ==> old_view.contains_key(#[trigger] u[j].0) && fits(
                        old_view[u[j].0].read_capabilities@,
                        u[j].1@,
                    ),
                forall|id: GlobalId|
                    old_view.contains_key(id) && !in_batch(u, id) ==> self@[id] == old_view[id],
                forall|j: int|
                    0 <= j < n && #[trigger] processed(order@, k as int, j) ==> same_but_reads(
                        self@[u[j].0],
                        old_view[u[j].0],
                    ) && self@[u[j].0].read_capabilities@ == apply(
                        old_view[u[j].0].read_capabilities@,
                        u[j].1@,
                    ),
                forall|j: int|
                    0 <= j < n && !#[trigger] processed(order@, k as int, j) ==> self@[u[j].0]
                        == old_view[u[j].0],
                forall|a: int, b: int| 0 <= a < b < r@.len() ==> r@[a].0 > r@[b].0,
                forall|m: int|
                    0 <= m < r@.len() ==> in_batch(u, #[trigger] r@[m].0) && r@[m].1
                        == self@[r@[m].0].since() && old_view[r@[m].0].since() != self@[r@[m].0].since(),
                forall|m: int, q: int|
                    #![trigger r@[m], order@[q]]
                    0 <= m < r@.len() && 0 <= q < k ==> u[order@[q] as int].0 < r@[m].0,
                forall|j: int|
                    0 <= j < n && #[trigger] processed(order@, k as int, j) && old_view[u[j].0].since()
                        != self@[u[j].0].since() ==> exists|m: int| 0 <= m < r@.len() && r@[m].0 == u[j].0,
            decreases k,
        {
            k = k - 1;
            let j = order[k];
            let id = updates[j].0;
            let ghost before = self@;
            let ghost r0 = r@;
            proof {
                assert(!processed(order@, k as int + 1, j as int)) by {
                    if processed(order@, k as int + 1, j as int) {
                        let m = choose|m: int| k + 1 <= m < order@.len() && order@[m] == j;
                        assert(ids@[order@[m] as int] == ids@[order@[k as int] as int]);
                    }
                }
                assert(self@[id] == old_view[id]);
            }
            match self.position(id) {
                Some(p) => {
                    let changed = self.apply_reads_at(p, &updates[j].1);
                    if changed {
                        let f = self.collections[p].1.read_capabilities.frontier();
                        r.push((id, f));
                    }
                    proof {
                        let cur = self@;
                        assert forall|jj: int| 0 <= jj < n implies (#[trigger] processed(order@, k as int, jj)
                            <==> (processed(order@, k as int + 1, jj) || jj == j)) by {
                            if processed(order@, k as int, jj) {
                                let m = choose|m: int| k <= m < order@.len() && order@[m] == jj;
                                if m != k {
                                    assert(processed(order@, k as int + 1, jj));
                                }
                            }
                            if processed(order@, k as int + 1, jj) {
                                let m = choose|m: int| k + 1 <= m < order@.len() && order@[m] == jj;
                                assert(processed(order@, k as int, jj));
                            }
                            if jj == j {
                                assert(order@[k as int] == jj);
                            }
                        }
                        assert forall|jj: int| 0 <= jj < n && jj != j implies u[jj].0 != id by {}
                        assert(in_batch(u, id));
                        assert forall|q: int| 0 <= q < k implies u[order@[q] as int].0 < id by {
                            assert(ids@[order@[q] as int] < ids@[order@[k as int] as int]);
                        }
                        assert forall|jj: int|
                            0 <= jj < n && #[trigger] processed(order@, k as int, jj) && old_view[u[jj].0].since()
                                != self@[u[jj].0].since() implies exists|m: int|
                            0 <= m < r@.len() && r@[m].0 == u[jj].0 by {
                            if jj == j {
                                assert(r@[r@.len() - 1].0 == id);
                            } else {
                                assert(processed(order@, k as int + 1, jj));
                                assert(self@[u[jj].0] == before[u[jj].0]);
                                let m = choose|m: int| 0 <= m < r0.len() && r0[m].0 == u[jj].0;
                                assert(r@[m] == r0[m]);
                            }
                        }
                    }
                },
                None => {
                    proof {
                        assert(false);
                    }
                },
            }
        }
        proof {
            assert forall|j: int| 0 <= j < n implies #[trigger] processed(order@, 0, j) by {
                assert(occurs(order@, j));
            }
            assert forall|j: int| 0 <= j < n implies same_but_reads(
                self@[#[trigger] u[j].0],
                old_view[u[j].0],
            ) && self@[u[j].0].read_capabilities@ == apply(
                old_view[u[j].0].read_capabilities@,
                u[j].1@,
            ) by {
                assert(processed(order@, 0, j));
            }
            assert forall|id: GlobalId|
                id_set(u).contains(id) && old_view[id].since() != self@[id].since() implies exists|m: int|
                0 <= m < r@.len() && r@[m].0 == id by {
                let j = choose|j: int| 0 <= j < u.len() && u[j].0 == id;
                assert(processed(order@, 0, j));
            }
            assert forall|m: int| 0 <= m < r@.len() implies id_set(u).contains(#[trigger] r@[m].0) by {}
        }
        r
    }
}

} // verus!

verus! {

/// The implied capability of `id` after the policies `ps` are assigned in order, each
/// ratcheting it forward against the write frontier `write`.
pub open spec fn implied_after(
    write: Frontier,
    id: GlobalId,
    ps: Seq<(GlobalId, ReadPolicy)>,
    init: Frontier,
) -> Frontier
    decreases ps.len(),
{
    if ps.len() == 0 {
        init
    } else {
        let prev = implied_after(write, id, ps.drop_last(), init);
        if ps.last().0 == id {
            ratchet(prev, policy_frontier(ps.last().1, write))
        } else {
            prev
        }
    }
}

/// The read policy of `id` after the policies `ps` are assigned in order: the last one for `id`.
pub open spec fn policy_after(id: GlobalId, ps: Seq<(GlobalId, ReadPolicy)>, init: ReadPolicy) -> ReadPolicy
    decreases ps.len(),
{
    if ps.len() == 0 {
        init
    } else if ps.last().0 == id {
        ps.last().1
    } else {
        policy_after(id, ps.drop_last(), init)
    }
}

/// Every collection has room for one more hold or release at each time.
pub open spec fn reads_have_headroom(m: Map<GlobalId, CollectionState>) -> bool {
    forall|id: GlobalId| #[trigger] m.contains_key(id) ==> headroom(m[id].read_capabilities@)
}

impl Controller {
    /// Sets the implied capability and read policy of the collection at position `p`.
    fn set_policy_at(&mut self, p: usize, implied: Frontier, policy: ReadPolicy)
        requires
            old(self).wf(),
            p < old(self).collections@.len(),
        ensures
            final(self).wf(),
            final(self).location() == old(self).location(),
            final(self).collections@.len() == old(self).collections@.len(),
            final(self).collections@[p as int].0 == old(self).collections@[p as int].0,
            final(self)@ == old(self)@.insert(
                old(self).collections@[p as int].0,
                final(self).collections@[p as int].1,
            ),
            final(self).collections@[p as int].1 == (CollectionState {
                implied_capability: implied,
                read_policy: policy,
                ..old(self).collections@[p as int].1
            }),
    {
        let ghost s0 = self.collections@;
        self.collections[p].1.implied_capability = implied;
        self.collections[p].1.read_policy = policy;
        proof {
            assert(self.collections@ == s0.update(p as int, (s0[p as int].0, self.collections@[p as int].1)));
            lemma_registry_update(s0, p as int, self.collections@[p as int].1);
            assert forall|k: int| 0 <= k < self.collections@.len() implies (#[trigger] self.collections@[k]).1.wf() by {
                if k != p {
                    assert(self.collections@[k] == s0[k]);
                }
            }
        }
    }

    /// Folds a change batch into the write frontier of the collection at position `p`.
    fn apply_writes_at(&mut self, p: usize, batch: &ChangeBatch)
        requires
            old(self).wf(),
            p < old(self).collections@.len(),
            fits(old(self).collections@[p as int].1.write_frontier@, batch@),
        ensures
            final(self).wf(),
            final(self).location() == old(self).location(),
            final(self).collections@.len() == old(self).collections@.len(),
            final(self).collections@[p as int].0 == old(self).collections@[p as int].0,
            final(self)@ == old(self)@.insert(
                old(self).collections@[p as int].0,
                final(self).collections@[p as int].1,
            ),
            final(self).collections@[p as int].1.write_frontier@ == apply(
                old(self).collections@[p as int].1.write_frontier@,
                batch@,
            ),
            ({
                let a = final(self).collections@[p as int].1;
                let b = old(self).collections@[p as int].1;
                a.description == b.description && a.read_capabilities == b.read_capabilities
                    && a.implied_capability == b.implied_capability && a.read_policy == b.read_policy
                    && a.timestamp_shard_id == b.timestamp_shard_id && a.persist_shard
                    == b.persist_shard
            }),
    {
        let ghost s0 = self.collections@;
        let _ = self.collections[p].1.write_frontier.update_iter(batch);
        proof {
            assert(self.collections@ == s0.update(p as int, (s0[p as int].0, self.collections@[p as int].1)));
            lemma_registry_update(s0, p as int, self.collections@[p as int].1);
            assert forall|k: int| 0 <= k < self.collections@.len() implies (#[trigger] self.collections@[k]).1.wf() by {
                if k != p {
                    assert(self.collections@[k] == s0[k]);
                }
            }
        }
    }

    /// Moves the hold of each listed collection from the recorded earlier implied capability
    /// to its current one, and propagates the changes.
    fn commit_implied(&mut self, pending: &Vec<(GlobalId, Frontier)>) -> (r: Vec<(GlobalId, Frontier)>)
        requires
            old(self).wf(),
            ids_distinct(pending@),
            forall|j: int|
                0 <= j < pending@.len() ==> old(self)@.contains_key(#[trigger] pending@[j].0)
                    && headroom(old(self)@[pending@[j].0].read_capabilities@),
        ensures
            final(self).wf(),
            final(self).location() == old(self).location(),
            final(self)@.dom() == old(self)@.dom(),
            forall|id: GlobalId|
                old(self)@.contains_key(id) && !in_batch(pending@, id) ==> final(self)@[id] == old(
                    self,
                )@[id],
            forall|j: int|
                0 <= j < pending@.len() ==> same_but_reads(
                    final(self)@[#[trigger] pending@[j].0],
                    old(self)@[pending@[j].0],
                ) && final(self)@[pending@[j].0].read_capabilities@ == apply(
                    old(self)@[pending@[j].0].read_capabilities@,
                    frontier_delta(pending@[j].1, old(self)@[pending@[j].0].implied_capability),
                ),
            compactions_of(old(self)@, final(self)@, id_set(pending@), r@),
    {
        let ghost old_view = self@;
        let ghost pd = pending@;
        let mut updates: Vec<(GlobalId, ChangeBatch)> = Vec::new();
        let mut x: usize = 0;
        while x < pending.len()
            invariant
                x <= pd.len(),
                pd == pending@,
                self.wf(),
                self@ == old_view,
                ids_distinct(pd),
                ids_distinct(updates@),
                forall|j: int|
                    0 <= j < pd.len() ==> old_view.contains_key(#[trigger] pd[j].0) && headroom(
                        old_view[pd[j].0].read_capabilities@,
                    ),
                forall|y: int|
                    0 <= y < updates@.len() ==> exists|j: int|
                        0 <= j < x && pd[j].0 == (#[trigger] updates@[y]).0 && updates@[y].1@
                            == frontier_delta(pd[j].1, old_view[pd[j].0].implied_capability),
                forall|j: int|
                    0 <= j < x && pd[j].1 != old_view[(#[trigger] pd[j]).0].implied_capability
                        ==> in_batch(updates@, pd[j].0),
            decreases pd.len() - x,
        {
            let id = pending[x].0;
            match self.position(id) {
                Some(p) => {
                    let cur = self.collections[p].1.implied_capability;
                    if pending[x].1 != cur {
                        let batch = delta_batch(&pending[x].1, &cur);
                        let ghost u0 = updates@;
                        updates.push((id, batch));
                        proof {
                            assert forall|a: int, b: int|
                                0 <= a < b < updates@.len() implies updates@[a].0 != updates@[b].0 by {
                                if b == updates@.len() - 1 {
                                    assert(updates@[a] == u0[a]);
                                    let j = choose|j: int|
                                        0 <= j < x && pd[j].0 == (#[trigger] u0[a]).0 && u0[a].1@
                                            == frontier_delta(pd[j].1, old_view[pd[j].0].implied_capability);
                                }
                            }
                            assert forall|y: int| 0 <= y < updates@.len() implies exists|j: int|
                                0 <= j < x + 1 && pd[j].0 == (#[trigger] updates@[y]).0 && updates@[y].1@
                                    == frontier_delta(pd[j].1, old_view[pd[j].0].implied_capability) by {
                                if y == updates@.len() - 1 {
                                    assert(pd[x as int].0 == updates@[y].0);
                                } else {
                                    assert(updates@[y] == u0[y]);
                                }
                            }
                            assert forall|j: int|
                                0 <= j < x + 1 && pd[j].1 != old_view[(#[trigger] pd[j]).0].implied_capability
                                    implies in_batch(updates@, pd[j].0) by {
                                if j == x {
                                    assert(updates@[updates@.len() - 1].0 == pd[j].0);
                                } else {
                                    let y = choose|y: int| 0 <= y < u0.len() && u0[y].0 == pd[j].0;
                                    assert(updates@[y] == u0[y]);
                                }
                            }
                        }
                    }
                },
                None => {},
            }
            x = x + 1;
        }
        proof {
            assert forall|j: int|
                0 <= j < updates@.len() implies old_view.contains_key(#[trigger] updates@[j].0) && fits(
                old_view[updates@[j].0].read_capabilities@,
                updates@[j].1@,
            ) by {
                let jj = choose|jj: int|
                    0 <= jj < x && pd[jj].0 == (#[trigger] updates@[j]).0 && updates@[j].1@
                        == frontier_delta(pd[jj].1, old_view[pd[jj].0].implied_capability);
                crate::frontier::lemma_delta_fits(
                    old_view[pd[jj].0].read_capabilities@,
                    pd[jj].1,
                    old_view[pd[jj].0].implied_capability,
                );
            }
        }
        let r = self.update_read_capabilities(&updates);
        proof {
            let u = updates@;
            assert forall|id: GlobalId|
                old_view.contains_key(id) && !in_batch(pd, id) implies self@[id] == old_view[id] by {
                if in_batch(u, id) {
                    let y = choose|y: int| 0 <= y < u.len() && u[y].0 == id;
                    let jj = choose|jj: int|
                        0 <= jj < x && pd[jj].0 == (#[trigger] u[y]).0 && u[y].1@
                            == frontier_delta(pd[jj].1, old_view[pd[jj].0].implied_capability);
                }
            }
            assert forall|j: int| 0 <= j < pd.len() implies same_but_reads(
                self@[#[trigger] pd[j].0],
                old_view[pd[j].0],
            ) && self@[pd[j].0].read_capabilities@ == apply(
                old_view[pd[j].0].read_capabilities@,
                frontier_delta(pd[j].1, old_view[pd[j].0].implied_capability),
            ) by {
                let id = pd[j].0;
                if in_batch(u, id) {
                    let y = choose|y: int| 0 <= y < u.len() && u[y].0 == id;
                    let jj = choose|jj: int|
                        0 <= jj < x && pd[jj].0 == (#[trigger] u[y]).0 && u[y].1@
                            == frontier_delta(pd[jj].1, old_view[pd[jj].0].implied_capability);
                    assert(jj == j);
                    assert(same_but_reads(self@[u[y].0], old_view[u[y].0]));
                } else {
                    assert(pd[j].1 == old_view[pd[j].0].implied_capability);
                    crate::frontier::lemma_apply_empty(
                        old_view[id].read_capabilities@,
                        frontier_delta(pd[j].1, old_view[pd[j].0].implied_capability),
                    );
                }
            }
            assert forall|k: int| 0 <= k < r@.len() implies id_set(pd).contains(#[trigger] r@[k].0) by {
                assert(id_set(u).contains(r@[k].0));
                let y = choose|y: int| 0 <= y < u.len() && u[y].0 == r@[k].0;
                let jj = choose|jj: int|
                    0 <= jj < x && pd[jj].0 == (#[trigger] u[y]).0 && u[y].1@
                        == frontier_delta(pd[jj].1, old_view[pd[jj].0].implied_capability);
            }
            assert forall|id: GlobalId|
                id_set(pd).contains(id) && old_view[id].since() != self@[id].since() implies exists|k: int|
                0 <= k < r@.len() && r@[k].0 == id by {
                if !in_batch(u, id) {
                    let j = choose|j: int| 0 <= j < pd.len() && pd[j].0 == id;
                    assert(pd[j].1 == old_view[(pd[j]).0].implied_capability);
                    assert(self@[id] == old_view[id]);
                } else {
                    assert(id_set(u).contains(id));
                }
            }
        }
        r
    }
}

} // verus!

verus! {

/// Assigning the empty `ValidFrom` policy drives the implied capability of every listed id
/// to the empty antichain and leaves the others alone.
pub proof fn lemma_drop_fold(write: Frontier, id: GlobalId, ps: Seq<(GlobalId, ReadPolicy)>, init: Frontier, p: ReadPolicy)
    requires
        forall|j: int| 0 <= j < ps.len() ==> (#[trigger] ps[j]).1 == ReadPolicy::ValidFrom(None),
    ensures
        implied_after(write, id, ps, init) == (if in_batch(ps, id) { None } else { init }),
        policy_after(id, ps, p) == (if in_batch(ps, id) { ReadPolicy::ValidFrom(None) } else { p }),
    decreases ps.len(),
{
    if ps.len() > 0 {
        let q = ps.drop_last();
        assert forall|j: int| 0 <= j < q.len() implies (#[trigger] q[j]).1 == ReadPolicy::ValidFrom(None) by {
            assert(q[j] == ps[j]);
        }
        lemma_drop_fold(write, id, q, init, p);
        assert(ps.last() == ps[ps.len() - 1]);
        if in_batch(ps, id) && ps.last().0 != id {
            let j = choose|j: int| 0 <= j < ps.len() && ps[j].0 == id;
            assert(q[j] == ps[j]);
        }
        if in_batch(q, id) {
            let j = choose|j: int| 0 <= j < q.len() && q[j].0 == id;
            assert(q[j] == ps[j]);
        }
    }
}

/// The id occurs in the list.
fn contains_id(v: &Vec<(GlobalId, Frontier)>, id: GlobalId) -> (r: bool)
    ensures
        r == in_batch(v@, id),
{
    let mut i: usize = 0;
    while i < v.len()
        invariant
            i <= v@.len(),
            forall|k: int| 0 <= k < i ==> v@[k].0 != id,
        decreases v@.len() - i,
    {
        if v[i].0 == id {
            return true;
        }
        i = i + 1;
    }
    false
}

impl Controller {
    /// Assigns read policies in order; repeated ids end with their last policy. Each
    /// assignment ratchets the implied capability forward, never back, and the holds are
    /// moved accordingly. Ids that are not present are skipped. Returns the compaction
    /// directives of the collections whose read frontier moved, in descending id order.
    pub fn set_read_policy(&mut self, policies: &Vec<(GlobalId, ReadPolicy)>) -> (r: Vec<(GlobalId, Frontier)>)
        requires
            old(self).wf(),
            reads_have_headroom(old(self)@),
        ensures
            final(self).wf(),
            final(self).location() == old(self).location(),
            final(self)@.dom() == old(self)@.dom(),
            forall|id: GlobalId|
                old(self)@.contains_key(id) && !in_batch(policies@, id) ==> final(self)@[id] == old(
                    self,
                )@[id],
            forall|id: GlobalId| #[trigger]
                old(self)@.contains_key(id) ==> {
                    let o = old(self)@[id];
                    let f = final(self)@[id];
                    &&& f.implied_capability == implied_after(
                        o.upper(),
                        id,
                        policies@,
                        o.implied_capability,
                    )
                    &&& f.read_policy == policy_after(id, policies@, o.read_policy)
                    &&& f.description == o.description
                    &&& f.write_frontier == o.write_frontier
                    &&& f.timestamp_shard_id == o.timestamp_shard_id
                    &&& f.persist_shard == o.persist_shard
                    &&& f.read_capabilities@ == apply(
                        o.read_capabilities@,
                        frontier_delta(o.implied_capability, f.implied_capability),
                    )
                },
            compactions_of(old(self)@, final(self)@, old(self)@.dom(), r@),
            forall|id: GlobalId|
                #[trigger] old(self)@.contains_key(id) ==> frontier_le(
                    old(self)@[id].implied_capability,
                    final(self)@[id].implied_capability,
                ),
            forall|k: int|
                0 <= k < r@.len() && held(old(self)@[(#[trigger] r@[k]).0]) ==> frontier_le(
                    old(self)@[r@[k].0].since(),
                    r@[k].1,
                ),
    {
        let ghost old_view = self@;
        let ghost ps = policies@;
        let mut pending: Vec<(GlobalId, Frontier)> = Vec::new();
        let mut i: usize = 0;
        assert(ps.take(0).len() == 0);
        while i < policies.len()
            invariant
                i <= ps.len(),
                ps == policies@,
                self.wf(),
                self.location() == old(self).location(),
                old_view == old(self)@,
                self@.dom() == old_view.dom(),
                reads_have_headroom(old_view),
                forall|id: GlobalId|
                    old_view.contains_key(id) && !in_batch(ps, id) ==> self@[id] == old_view[id],
                forall|id: GlobalId| #[trigger]
                    old_view.contains_key(id) ==> {
                        let o = old_view[id];
                        let c = self@[id];
                        &&& c.implied_capability == implied_after(
                            o.upper(),
                            id,
                            ps.take(i as int),
                            o.implied_capability,
                        )
                        &&& c.read_policy == policy_after(id, ps.take(i as int), o.read_policy)
                        &&& c.description == o.description
                        &&& c.write_frontier == o.write_frontier
                        &&& c.read_capabilities == o.read_capabilities
                        &&& c.timestamp_shard_id == o.timestamp_shard_id
                        &&& c.persist_shard == o.persist_shard
                    },
                ids_distinct(pending@),
                forall|y: int|
                    0 <= y < pending@.len() ==> old_view.contains_key(#[trigger] pending@[y].0)
                        && pending@[y].1 == old_view[pending@[y].0].implied_capability && in_batch(
                        ps,
                        pending@[y].0,
                    ),
                forall|id: GlobalId|
                    old_view.contains_key(id) && !in_batch(pending@, id)
                        ==> self@[id].implied_capability == old_view[id].implied_capability,
            decreases ps.len() - i,
        {
            let (id, policy) = policies[i];
            let ghost mid = self@;
            proof {
                assert(ps.take(i as int + 1).drop_last() =~= ps.take(i as int));
                assert(ps.take(i as int + 1).last() == ps[i as int]);
                assert(in_batch(ps, id));
            }
            match self.position(id) {
                Some(p) => {
                    let write = self.collections[p].1.write_frontier.frontier();
                    let proposal = policy.frontier(&write);
                    let cur = self.collections[p].1.implied_capability;
                    let new_implied = if less_equal(&cur, &proposal) {
                        proposal
                    } else {
                        cur
                    };
                    if !contains_id(&pending, id) {
                        let ghost p0 = pending@;
                        pending.push((id, cur));
                        proof {
                            assert forall|y: int| 0 <= y < pending@.len() implies old_view.contains_key(
                                #[trigger] pending@[y].0,
                            ) && pending@[y].1 == old_view[pending@[y].0].implied_capability && in_batch(
                                ps,
                                pending@[y].0,
                            ) by {
                                if y < p0.len() {
                                    assert(pending@[y] == p0[y]);
                                }
                            }
                            assert forall|a: int, b: int|
                                0 <= a < b < pending@.len() implies pending@[a].0 != pending@[b].0 by {
                                if b == p0.len() {
                                    assert(pending@[a] == p0[a]);
                                }
                            }
                            assert forall|id2: GlobalId|
                                old_view.contains_key(id2) && !in_batch(pending@, id2) implies !in_batch(
                                p0,
                                id2,
                            ) by {
                                if in_batch(p0, id2) {
                                    let y = choose|y: int| 0 <= y < p0.len() && p0[y].0 == id2;
                                    assert(pending@[y] == p0[y]);
                                }
                            }
                        }
                    }
                    self.set_policy_at(p, new_implied, policy);
                    proof {
                        assert forall|id2: GlobalId|
                            old_view.contains_key(id2) && !in_batch(pending@, id2) implies self@[id2].implied_capability
                            == old_view[id2].implied_capability by {
                            if id2 == id {
                                assert(pending@[pending@.len() - 1].0 == id || in_batch(pending@, id));
                            }
                        }
                    }
                },
                None => {},
            }
            i = i + 1;
        }
        proof {
            assert(ps.take(ps.len() as int) =~= ps);
        }
        let ghost mid = self@;
        let r = self.commit_implied(&pending);
        proof {
            assert forall|id: GlobalId| #[trigger]
                old_view.contains_key(id) implies {
                    let o = old_view[id];
                    let f = self@[id];
                    &&& f.implied_capability == implied_after(o.upper(), id, ps, o.implied_capability)
                    &&& f.read_policy == policy_after(id, ps, o.read_policy)
                    &&& f.description == o.description
                    &&& f.write_frontier == o.write_frontier
                    &&& f.timestamp_shard_id == o.timestamp_shard_id
                    &&& f.persist_shard == o.persist_shard
                    &&& f.read_capabilities@ == apply(
                        o.read_capabilities@,
                        frontier_delta(o.implied_capability, f.implied_capability),
                    )
                } by {
                if in_batch(pending@, id) {
                    let y = choose|y: int| 0 <= y < pending@.len() && pending@[y].0 == id;
                    assert(same_but_reads(self@[pending@[y].0], mid[pending@[y].0]));
                } else {
                    crate::frontier::lemma_apply_empty(
                        old_view[id].read_capabilities@,
                        frontier_delta(old_view[id].implied_capability, self@[id].implied_capability),
                    );
                }
            }
            assert forall|id: GlobalId|
                old_view.contains_key(id) && !in_batch(ps, id) implies self@[id] == old_view[id] by {
                if in_batch(pending@, id) {
                    let y = choose|y: int| 0 <= y < pending@.len() && pending@[y].0 == id;
                    assert(in_batch(ps, pending@[y].0));
                }
            }
            assert forall|k: int| 0 <= k < r@.len() implies old_view.dom().contains(#[trigger] r@[k].0) by {
                assert(id_set(pending@).contains(r@[k].0));
                let y = choose|y: int| 0 <= y < pending@.len() && pending@[y].0 == r@[k].0;
            }
            assert forall|k: int| 0 <= k < r@.len() implies old_view[(#[trigger] r@[k]).0].since()
                != self@[r@[k].0].since() by {
                assert(id_set(pending@).contains(r@[k].0));
                assert(mid[r@[k].0].read_capabilities == old_view[r@[k].0].read_capabilities);
            }
            assert forall|id: GlobalId|
                old_view.dom().contains(id) && old_view[id].since() != self@[id].since() implies exists|k: int|
                0 <= k < r@.len() && r@[k].0 == id by {
                assert(mid[id].read_capabilities == old_view[id].read_capabilities);
                if !in_batch(pending@, id) {
                    assert(self@[id] == mid[id]);
                } else {
                    assert(id_set(pending@).contains(id));
                }
            }
            assert forall|id: GlobalId| #[trigger] old_view.contains_key(id) implies frontier_le(
                old_view[id].implied_capability,
                self@[id].implied_capability,
            ) by {
                crate::laws::lemma_policies_advance(old_view[id].upper(), id, ps, old_view[id].implied_capability);
            }
            assert forall|k: int|
                0 <= k < r@.len() && held(old_view[(#[trigger] r@[k]).0]) implies frontier_le(
                old_view[r@[k].0].since(),
                r@[k].1,
            ) by {
                let id = r@[k].0;
                crate::laws::lemma_policies_advance(old_view[id].upper(), id, ps, old_view[id].implied_capability);
                lemma_compaction_step(old_view, self@, id);
            }
        }
        r
    }
}

} // verus!

verus! {

/// Every collection has room for one more change at each time of its write frontier.
pub open spec fn writes_have_headroom(m: Map<GlobalId, CollectionState>) -> bool {
    forall|id: GlobalId| #[trigger] m.contains_key(id) ==> headroom(m[id].write_frontier@)
}

/// Some update of the batch lies at or beyond `new_upper`.
pub open spec fn beyond_upper(updates: Seq<Update>, new_upper: Timestamp) -> bool {
    exists|k: int| 0 <= k < updates.len() && updates[k].timestamp >= new_upper
}

impl Controller {
    /// Drops the controller's read hold on each collection: its policy becomes `ValidFrom` the
    /// empty antichain, which allows compaction all the way forward. Fails, changing nothing,
    /// when an id is not present.
    pub fn drop_sources(&mut self, identifiers: &Vec<GlobalId>) -> (r: Result<
        Vec<(GlobalId, Frontier)>,
        StorageError,
    >)
        requires
            old(self).wf(),
            reads_have_headroom(old(self)@),
        ensures
            final(self).wf(),
            final(self).location() == old(self).location(),
            match r {
                Err(e) => final(self)@ == old(self)@ && exists|k: int|
                    0 <= k < identifiers@.len() && !old(self)@.contains_key(identifiers@[k]) && e
                        == StorageError::IdentifierMissing(identifiers@[k]) && forall|m: int|
                        0 <= m < k ==> old(self)@.contains_key(#[trigger] identifiers@[m]),
                Ok(cmds) => {
                    &&& forall|k: int|
                        0 <= k < identifiers@.len() ==> old(self)@.contains_key(#[trigger] identifiers@[k])
                    &&& final(self)@.dom() == old(self)@.dom()
                    &&& forall|id: GlobalId| #[trigger]
                        old(self)@.contains_key(id) ==> {
                            let o = old(self)@[id];
                            let f = final(self)@[id];
                            if identifiers@.contains(id) {
                                &&& f.implied_capability == None::<Timestamp>
                                &&& f.read_policy == ReadPolicy::ValidFrom(None)
                                &&& f.description == o.description
                                &&& f.write_frontier == o.write_frontier
                                &&& f.timestamp_shard_id == o.timestamp_shard_id
                                &&& f.persist_shard == o.persist_shard
                                &&& f.read_capabilities@ == apply(
                                    o.read_capabilities@,
                                    frontier_delta(o.implied_capability, None),
                                )
                            } else {
                                f == o
                            }
                        }
                    &&& compactions_of(old(self)@, final(self)@, old(self)@.dom(), cmds@)
                },
            },
    {
        match self.validate_ids(identifiers) {
            Ok(()) => {},
            Err(e) => {
                return Err(e);
            },
        }
        let mut policies: Vec<(GlobalId, ReadPolicy)> = Vec::new();
        let mut i: usize = 0;
        while i < identifiers.len()
            invariant
                i <= identifiers@.len(),
                policies@.len() == i,
                forall|k: int| 0 <= k < i ==> policies@[k] == (identifiers@[k], ReadPolicy::ValidFrom(None)),
            decreases identifiers@.len() - i,
        {
            policies.push((identifiers[i], ReadPolicy::ValidFrom(None)));
            i = i + 1;
        }
        let ghost old_view = self@;
        let r = self.set_read_policy(&policies);
        proof {
            let ps = policies@;
            assert forall|j: int| 0 <= j < ps.len() implies (#[trigger] ps[j]).1 == ReadPolicy::ValidFrom(None) by {}
            assert forall|id: GlobalId| in_batch(ps, id) <==> identifiers@.contains(id) by {
                if in_batch(ps, id) {
                    let j = choose|j: int| 0 <= j < ps.len() && ps[j].0 == id;
                    assert(identifiers@[j] == id);
                }
                if identifiers@.contains(id) {
                    let j = choose|j: int| 0 <= j < identifiers@.len() && identifiers@[j] == id;
                    assert(ps[j].0 == id);
                }
            }
            assert forall|id: GlobalId| #[trigger] old_view.contains_key(id) implies {
                let o = old_view[id];
                let f = self@[id];
                if identifiers@.contains(id) {
                    &&& f.implied_capability == None::<Timestamp>
                    &&& f.read_policy == ReadPolicy::ValidFrom(None)
                    &&& f.description == o.description
                    &&& f.write_frontier == o.write_frontier
                    &&& f.timestamp_shard_id == o.timestamp_shard_id
                    &&& f.persist_shard == o.persist_shard
                    &&& f.read_capabilities@ == apply(
                        o.read_capabilities@,
                        frontier_delta(o.implied_capability, None),
                    )
                } else {
                    f == o
                }
            } by {
                lemma_drop_fold(old_view[id].upper(), id, ps, old_view[id].implied_capability, old_view[id].read_policy);
            }
        }
        Ok(r)
    }

    /// Folds write frontier changes into the listed collections, one batch per collection.
    fn update_distinct_write_frontiers(&mut self, updates: &Vec<(GlobalId, ChangeBatch)>) -> (r: Vec<
        (GlobalId, Frontier),
    >)
        requires
            old(self).wf(),
            ids_distinct(updates@),
            reads_have_headroom(old(self)@),
            forall|j: int|
                0 <= j < updates@.len() ==> old(self)@.contains_key(#[trigger] updates@[j].0) && fits(
                    old(self)@[updates@[j].0].write_frontier@,
                    updates@[j].1@,
                ),
        ensures
            final(self).wf(),
            final(self).location() == old(self).location(),
            final(self)@.dom() == old(self)@.dom(),
            forall|id: GlobalId|
                old(self)@.contains_key(id) && !in_batch(updates@, id) ==> final(self)@[id] == old(
                    self,
                )@[id],
            forall|j: int|
                #![trigger updates@[j]]
                0 <= j < updates@.len() ==> {
                    let o = old(self)@[updates@[j].0];
                    let f = final(self)@[updates@[j].0];
                    &&& f.write_frontier@ == apply(o.write_frontier@, updates@[j].1@)
                    &&& f.implied_capability == ratchet(
                        o.implied_capability,
                        policy_frontier(o.read_policy, f.upper()),
                    )
                    &&& f.read_capabilities@ == apply(
                        o.read_capabilities@,
                        frontier_delta(o.implied_capability, f.implied_capability),
                    )
                    &&& f.description == o.description
                    &&& f.read_policy == o.read_policy
                    &&& f.timestamp_shard_id == o.timestamp_shard_id
                    &&& f.persist_shard == o.persist_shard
                },
            compactions_of(old(self)@, final(self)@, id_set(updates@), r@),
    {
        let ghost old_view = self@;
        let ghost u = updates@;
        let mut pending: Vec<(GlobalId, Frontier)> = Vec::new();
        let mut x: usize = 0;
        while x < updates.len()
            invariant
                x <= u.len(),
                u == updates@,
                ids_distinct(u),
                self.wf(),
                self.location() == old(self).location(),
                old_view == old(self)@,
                self@.dom() == old_view.dom(),
                reads_have_headroom(old_view),
                forall|j: int|
                    0 <= j < u.len() ==> old_view.contains_key(#[trigger] u[j].0) && fits(
                        old_view[u[j].0].write_frontier@,
                        u[j].1@,
                    ),
                forall|id: GlobalId|
                    old_view.contains_key(id) && !in_batch(u, id) ==> self@[id] == old_view[id],
                forall|j: int| x <= j < u.len() ==> self@[#[trigger] u[j].0] == old_view[u[j].0],
                forall|j: int|
                    #![trigger u[j]]
                    0 <= j < x ==> {
                        let o = old_view[u[j].0];
                        let f = self@[u[j].0];
                        &&& f.write_frontier@ == apply(o.write_frontier@, u[j].1@)
                        &&& f.implied_capability == ratchet(
                            o.implied_capability,
                            policy_frontier(o.read_policy, f.upper()),
                        )
                        &&& f.read_capabilities == o.read_capabilities
                        &&& f.description == o.description
                        &&& f.read_policy == o.read_policy
                        &&& f.timestamp_shard_id == o.timestamp_shard_id
                        &&& f.persist_shard == o.persist_shard
                    },
                pending@.len() == x,
                forall|y: int|
                    0 <= y < x ==> (#[trigger] pending@[y]).0 == u[y].0 && pending@[y].1
                        == old_view[u[y].0].implied_capability,
            decreases u.len() - x,
        {
            let id = updates[x].0;
            proof {
                assert(self@[u[x as int].0] == old_view[u[x as int].0]);
            }
            match self.position(id) {
                Some(p) => {
                    let cur = self.collections[p].1.implied_capability;
                    self.apply_writes_at(p, &updates[x].1);
                    let write = self.collections[p].1.write_frontier.frontier();
                    let policy = self.collections[p].1.read_policy;
                    let proposal = policy.frontier(&write);
                    let new_implied = if less_equal(&cur, &proposal) {
                        proposal
                    } else {
                        cur
                    };
                    pending.push((id, cur));
                    self.set_policy_at(p, new_implied, policy);
                    proof {
                        assert forall|j: int| 0 <= j < u.len() && j != x implies u[j].0 != id by {}
                    }
                },
                None => {
                    proof {
                        assert(false);
                    }
                },
            }
            x = x + 1;
        }
        proof {
            assert forall|a: int, b: int| 0 <= a < b < pending@.len() implies pending@[a].0 != pending@[b].0 by {
                assert(pending@[a].0 == u[a].0);
                assert(pending@[b].0 == u[b].0);
            }
            assert forall|j: int|
                0 <= j < pending@.len() implies self@.contains_key(#[trigger] pending@[j].0) && headroom(
                self@[pending@[j].0].read_capabilities@,
            ) by {
                assert(pending@[j].0 == u[j].0);
            }
            assert forall|id: GlobalId| in_batch(pending@, id) <==> in_batch(u, id) by {
                if in_batch(pending@, id) {
                    let j = choose|j: int| 0 <= j < pending@.len() && pending@[j].0 == id;
                    assert(pending@[j].0 == u[j].0);
                }
                if in_batch(u, id) {
                    let j = choose|j: int| 0 <= j < u.len() && u[j].0 == id;
                    assert(pending@[j].0 == u[j].0);
                }
            }
            assert(id_set(pending@) =~= id_set(u));
        }
        let ghost mid = self@;
        let r = self.commit_implied(&pending);
        proof {
            assert forall|j: int|
                #![trigger u[j]]
                0 <= j < u.len() implies {
                    let o = old_view[u[j].0];
                    let f = self@[u[j].0];
                    &&& f.write_frontier@ == apply(o.write_frontier@, u[j].1@)
                    &&& f.implied_capability == ratchet(
                        o.implied_capability,
                        policy_frontier(o.read_policy, f.upper()),
                    )
                    &&& f.read_capabilities@ == apply(
                        o.read_capabilities@,
                        frontier_delta(o.implied_capability, f.implied_capability),
                    )
                    &&& f.description == o.description
                    &&& f.read_policy == o.read_policy
                    &&& f.timestamp_shard_id == o.timestamp_shard_id
                    &&& f.persist_shard == o.persist_shard
                } by {
                assert(pending@[j].0 == u[j].0);
                assert(same_but_reads(self@[pending@[j].0], mid[pending@[j].0]));
            }
            assert forall|id: GlobalId| id_set(u).contains(id) implies mid[id].since() == old_view[id].since() by {
                let j = choose|j: int| 0 <= j < u.len() && u[j].0 == id;
                assert(mid[u[j].0].read_capabilities == old_view[u[j].0].read_capabilities);
            }
        }
        r
    }

    /// Checks one append before its durable write: every update must lie before `new_upper`,
    /// the collection must exist, and `new_upper` must lie beyond its current upper. Returns
    /// the current upper, which the durable write expects.
    pub fn check_append(&self, id: GlobalId, updates: &Vec<Update>, new_upper: Timestamp) -> (r: Result<
        Frontier,
        StorageError,
    >)
        requires
            self.wf(),
        ensures
            beyond_upper(updates@, new_upper) ==> r == Err::<Frontier, StorageError>(
                StorageError::UpdateBeyondUpper(id),
            ),
            !beyond_upper(updates@, new_upper) && !self@.contains_key(id) ==> r == Err::<
                Frontier,
                StorageError,
            >(StorageError::IdentifierMissing(id)),
            !beyond_upper(updates@, new_upper) && self@.contains_key(id) && frontier_le(
                Some(new_upper),
                self@[id].upper(),
            ) ==> r == Err::<Frontier, StorageError>(StorageError::InvalidUpper(id)),
            !beyond_upper(updates@, new_upper) && self@.contains_key(id) && !frontier_le(
                Some(new_upper),
                self@[id].upper(),
            ) ==> r == Ok::<Frontier, StorageError>(self@[id].upper()),
    {
        let mut k: usize = 0;
        while k < updates.len()
            invariant
                k <= updates@.len(),
                forall|m: int| 0 <= m < k ==> updates@[m].timestamp < new_upper,
            decreases updates@.len() - k,
        {
            if updates[k].timestamp >= new_upper {
                return Err(StorageError::UpdateBeyondUpper(id));
            }
            k = k + 1;
        }
        let upper = match self.collection(id) {
            Ok(c) => c.write_frontier.frontier(),
            Err(e) => {
                return Err(e);
            },
        };
        if less_equal(&Some(new_upper), &upper) {
            return Err(StorageError::InvalidUpper(id));
        }
        Ok(upper)
    }

    /// Completes one append after its durable write was attempted against `upper`: when the
    /// write was refused the append fails with `InvalidUpper` and nothing changes; otherwise
    /// the write frontier moves from `upper` to `new_upper` and compaction follows.
    pub fn complete_append(&mut self, id: GlobalId, upper: Frontier, new_upper: Timestamp, appended: bool) -> (r:
        Result<Vec<(GlobalId, Frontier)>, StorageError>)
        requires
            old(self).wf(),
            old(self)@.contains_key(id),
            reads_have_headroom(old(self)@),
            writes_have_headroom(old(self)@),
        ensures
            final(self).wf(),
            final(self).location() == old(self).location(),
            !appended ==> r == Err::<Vec<(GlobalId, Frontier)>, StorageError>(
                StorageError::InvalidUpper(id),
            ) && final(self)@ == old(self)@,
            appended ==> r is Ok && final(self)@.dom() == old(self)@.dom() && (forall|other: GlobalId|
                old(self)@.contains_key(other) && other != id ==> final(self)@[other] == old(
                    self,
                )@[other]) && ({
                let o = old(self)@[id];
                let f = final(self)@[id];
                &&& f.write_frontier@ == apply(
                    o.write_frontier@,
                    frontier_delta(upper, Some(new_upper)),
                )
                &&& f.implied_capability == ratchet(
                    o.implied_capability,
                    policy_frontier(o.read_policy, f.upper()),
                )
                &&& f.read_capabilities@ == apply(
                    o.read_capabilities@,
                    frontier_delta(o.implied_capability, f.implied_capability),
                )
                &&& f.description == o.description
                &&& f.read_policy == o.read_policy
                &&& f.timestamp_shard_id == o.timestamp_shard_id
                &&& f.persist_shard == o.persist_shard
            }) && (r matches Ok(cmds) && compactions_of(
                old(self)@,
                final(self)@,
                Set::empty().insert(id),
                cmds@,
            )),
    {
        if !appended {
            return Err(StorageError::InvalidUpper(id));
        }
        let batch = delta_batch(&upper, &Some(new_upper));
        let updates = vec![(id, batch)];
        proof {
            crate::frontier::lemma_delta_fits(self@[id].write_frontier@, upper, Some(new_upper));
            assert(updates@[0].0 == id);
            assert forall|x: GlobalId| in_batch(updates@, x) <==> x == id by {
                if x == id {
                    assert(updates@[0].0 == x);
                }
            }
            assert(id_set(updates@) =~= Set::empty().insert(id));
        }
        let ghost old_view = self@;
        let r = self.update_distinct_write_frontiers(&updates);
        proof {
            let e = updates@[0];
            assert(e.0 == id);
            assert(e.1@ == frontier_delta(upper, Some(new_upper)));
            assert forall|other: GlobalId|
                old_view.contains_key(other) && other != id implies self@[other] == old_view[other] by {
                assert(!in_batch(updates@, other));
            }
        }
        Ok(r)
    }
}

} // verus!

verus! {

/// A command to storage workers that installs one source.
#[derive(Clone, Debug, PartialEq, Eq)]
pub struct CreateSourceCommand {
    pub id: GlobalId,
    pub desc: SourceDesc,
    pub since: Frontier,
    pub storage_metadata: CollectionMetadata,
}

/// The binding at position `i` shares its id with another binding.
pub open spec fn dup_at<V>(b: Seq<(GlobalId, V)>, i: int) -> bool {
    exists|j: int| 0 <= j < b.len() && j != i && b[j].0 == b[i].0
}

/// `x` is the least id bound twice in `b`.
pub open spec fn is_min_dup<V>(b: Seq<(GlobalId, V)>, x: GlobalId) -> bool {
    &&& exists|i: int| 0 <= i < b.len() && dup_at(b, i) && b[i].0 == x
    &&& forall|i: int| 0 <= i < b.len() && #[trigger] dup_at(b, i) ==> x <= b[i].0
}

/// A dropped collection: its policy holds reads at the empty antichain. Its slot stays.
pub open spec fn dropped(c: CollectionState) -> bool {
    c.read_policy == ReadPolicy::ValidFrom(None)
}

/// The binding at position `i` names a registered collection that was dropped or that has
/// another description.
pub open spec fn conflict_at(
    m: Map<GlobalId, CollectionState>,
    b: Seq<(GlobalId, (SourceDesc, Frontier))>,
    i: int,
) -> bool {
    m.contains_key(b[i].0) && (m[b[i].0].description != b[i].1 || dropped(m[b[i].0]))
}

/// `x` is the least id of `b` that conflicts with the registry.
pub open spec fn is_min_conflict(
    m: Map<GlobalId, CollectionState>,
    b: Seq<(GlobalId, (SourceDesc, Frontier))>,
    x: GlobalId,
) -> bool {
    &&& exists|i: int| 0 <= i < b.len() && conflict_at(m, b, i) && b[i].0 == x
    &&& forall|i: int| 0 <= i < b.len() && #[trigger] conflict_at(m, b, i) ==> x <= b[i].0
}

/// The id is bound at one of the first `k` positions of `order`.
pub open spec fn installed(
    b: Seq<(GlobalId, (SourceDesc, Frontier))>,
    order: Seq<usize>,
    k: int,
    id: GlobalId,
) -> bool {
    exists|q: int| 0 <= q < k && b[order[q] as int].0 == id
}

/// `c` is a freshly created collection with description `desc` and initial `since`.
pub open spec fn fresh(c: CollectionState, desc: (SourceDesc, Frontier)) -> bool {
    &&& c.wf()
    &&& c.description == desc
    &&& c.since() == desc.1
    &&& c.implied_capability == desc.1
    &&& c.read_policy == ReadPolicy::ValidFrom(desc.1)
    &&& c.upper() == Some(0u64)
    &&& c.read_capabilities@ == (match desc.1 {
        Some(t) => Map::<Timestamp, int>::empty().insert(t, 1int),
        None => Map::<Timestamp, int>::empty(),
    })
    &&& c.write_frontier@ == Map::<Timestamp, int>::empty().insert(0, 1int)
}

/// Appending an entry with a new id extends the registry by that id.
pub proof fn lemma_registry_push(s: Seq<(GlobalId, CollectionState)>, id: GlobalId, c: CollectionState)
    requires
        ids_distinct(s),
        !registry_view(s).contains_key(id),
    ensures
        ids_distinct(s.push((id, c))),
        registry_view(s.push((id, c))) == registry_view(s).insert(id, c),
{
    let t = s.push((id, c));
    assert forall|i: int| 0 <= i < s.len() implies s[i].0 != id by {
        lemma_registry_at(s, i);
    }
    assert(ids_distinct(t));
    let a = registry_view(t);
    let b = registry_view(s).insert(id, c);
    assert forall|x: GlobalId| a.contains_key(x) <==> b.contains_key(x) by {
        if a.contains_key(x) && x != id {
            let k = choose|k: int| 0 <= k < t.len() && t[k].0 == x;
            assert(s[k].0 == x);
        }
        if x == id {
            assert(t[s.len() as int].0 == id);
        }
        if registry_view(s).contains_key(x) {
            let k = choose|k: int| 0 <= k < s.len() && s[k].0 == x;
            assert(t[k].0 == x);
        }
    }
    assert forall|x: GlobalId| a.contains_key(x) implies a[x] == b[x] by {
        let k = choose|k: int| 0 <= k < t.len() && t[k].0 == x;
        lemma_registry_at(t, k);
        if x != id {
            lemma_registry_at(s, k);
        }
    }
    assert(a =~= b);
}

impl Controller {
    /// Installs `c` under `id`, replacing any earlier state of that id.
    fn install(&mut self, id: GlobalId, c: CollectionState)
        requires
            old(self).wf(),
            c.wf(),
        ensures
            final(self).wf(),
            final(self).location() == old(self).location(),
            final(self)@ == old(self)@.insert(id, c),
    {
        let ghost s0 = self.collections@;
        let ghost c0 = c;
        match self.position(id) {
            Some(p) => {
                self.collections[p] = (id, c);
                proof {
                    lemma_registry_update(s0, p as int, c0);
                    assert(self.collections@ == s0.update(p as int, (s0[p as int].0, c0)));
                    assert forall|k: int| 0 <= k < self.collections@.len() implies (#[trigger] self.collections@[k]).1.wf() by {
                        if k != p {
                            assert(self.collections@[k] == s0[k]);
                        }
                    }
                }
            },
            None => {
                self.collections.push((id, c));
                proof {
                    lemma_registry_push(s0, id, c0);
                    assert forall|k: int| 0 <= k < self.collections@.len() implies (#[trigger] self.collections@[k]).1.wf() by {
                        if k < s0.len() {
                            assert(self.collections@[k] == s0[k]);
                        }
                    }
                }
            },
        }
    }

    /// Creates the sources described by `bindings`: each is an id, a description and an
    /// initial `since`. Fails with `SourceIdReused`, changing nothing, when an id is bound
    /// twice in the batch (naming the least such id), or else when a registered id was
    /// dropped or is bound to another description (naming the least such id). Binding a live
    /// id to its own description changes nothing. Each new collection holds reads at its
    /// `since`, its write frontier starts at the minimum time, and it gets two freshly minted
    /// shards. Returns one creation command per new collection, in ascending id order.
    #[verifier::rlimit(40)]
    #[verifier::spinoff_prover]
    pub fn create_sources(&mut self, bindings: &Vec<(GlobalId, (SourceDesc, Frontier))>) -> (r: Result<
        Vec<CreateSourceCommand>,
        StorageError,
    >)
        requires
            old(self).wf(),
        ensures
            final(self).wf(),
            final(self).location() == old(self).location(),
            !ids_distinct(bindings@) ==> exists|x: GlobalId|
                is_min_dup(bindings@, x) && r == Err::<Vec<CreateSourceCommand>, StorageError>(
                    StorageError::SourceIdReused(x),
                ),
            ids_distinct(bindings@) && (exists|i: int|
                0 <= i < bindings@.len() && conflict_at(old(self)@, bindings@, i)) ==> exists|x: GlobalId|
                is_min_conflict(old(self)@, bindings@, x) && r == Err::<
                    Vec<CreateSourceCommand>,
                    StorageError,
                >(StorageError::SourceIdReused(x)),
            r is Err ==> final(self)@ == old(self)@,
            r is Ok <==> ids_distinct(bindings@) && forall|i: int|
                0 <= i < bindings@.len() ==> !conflict_at(old(self)@, bindings@, i),
            r matches Ok(cmds) ==> {
                &&& forall|id: GlobalId|
                    final(self)@.contains_key(id) <==> old(self)@.contains_key(id) || in_batch(
                        bindings@,
                        id,
                    )
                &&& forall|id: GlobalId|
                    old(self)@.contains_key(id) ==> final(self)@[id] == old(self)@[id]
                &&& forall|j: int|
                    0 <= j < bindings@.len() && !old(self)@.contains_key(#[trigger] bindings@[j].0)
                        ==> fresh(final(self)@[bindings@[j].0], bindings@[j].1)
                &&& forall|a: int, b: int| 0 <= a < b < cmds@.len() ==> cmds@[a].id < cmds@[b].id
                &&& forall|k: int|
                    0 <= k < cmds@.len() ==> exists|j: int|
                        0 <= j < bindings@.len() && bindings@[j].0 == (#[trigger] cmds@[k]).id
                            && !old(self)@.contains_key(bindings@[j].0)
                            && cmds@[k].desc == bindings@[j].1.0 && cmds@[k].since == bindings@[j].1.1
                            && cmds@[k].storage_metadata == (CollectionMetadata {
                            persist_location: final(self).location(),
                            timestamp_shard_id: final(self)@[cmds@[k].id].timestamp_shard_id,
                            persist_shard: final(self)@[cmds@[k].id].persist_shard,
                        })
                &&& forall|j: int|
                    0 <= j < bindings@.len() && !old(self)@.contains_key(#[trigger] bindings@[j].0)
                        ==> exists|k: int| 0 <= k < cmds@.len() && cmds@[k].id == bindings@[j].0
            },
    {
        let ghost b = bindings@;
        let n = bindings.len();
        // The least id bound twice.
        let mut dup: Option<GlobalId> = None;
        let mut i: usize = 0;
        while i < n
            invariant
                n == b.len(),
                b == bindings@,
                i <= n,
                match dup {
                    None => forall|k: int| 0 <= k < i ==> !#[trigger] dup_at(b, k),
                    Some(x) => (exists|k: int| 0 <= k < i && dup_at(b, k) && b[k].0 == x) && forall|k: int|
                        0 <= k < i && #[trigger] dup_at(b, k) ==> x <= b[k].0,
                },
            decreases n - i,
        {
            let mut j: usize = 0;
            let mut found = false;
            while j < n
                invariant
                    n == b.len(),
                    b == bindings@,
                    i < n,
                    j <= n,
                    found == exists|k: int| 0 <= k < j && k != i && b[k].0 == b[i as int].0,
                decreases n - j,
            {
                if j != i && bindings[j].0 == bindings[i].0 {
                    found = true;
                }
                j = j + 1;
            }
            proof {
                assert(found == dup_at(b, i as int));
            }
            if found {
                let id = bindings[i].0;
                match dup {
                    None => {
                        dup = Some(id);
                    },
                    Some(x) => {
                        if id < x {
                            dup = Some(id);
                        }
                    },
                }
            }
            i = i + 1;
        }
        proof {
            if !ids_distinct(b) {
                let (a, c) = choose|a: int, c: int| 0 <= a < c < b.len() && b[a].0 == b[c].0;
                assert(dup_at(b, a));
            }
        }
        match dup {
            Some(x) => {
                proof {
                    let k = choose|k: int| 0 <= k < n && dup_at(b, k) && b[k].0 == x;
                    let j = choose|j: int| 0 <= j < b.len() && j != k && b[j].0 == b[k].0;
                    if k < j {
                        assert(!ids_distinct(b));
                    } else {
                        assert(!ids_distinct(b));
                    }
                    assert(is_min_dup(b, x));
                }
                return Err(StorageError::SourceIdReused(x));
            },
            None => {},
        }
        proof {
            assert forall|a: int, c: int| 0 <= a < c < b.len() implies b[a].0 != b[c].0 by {
                if b[a].0 == b[c].0 {
                    assert(dup_at(b, a));
                }
            }
        }
        // The least id bound to another description than its registered one.
        let mut conflict: Option<GlobalId> = None;
        let mut i: usize = 0;
        while i < n
            invariant
                self.wf(),
                n == b.len(),
                b == bindings@,
                i <= n,
                match conflict {
                    None => forall|k: int| 0 <= k < i ==> !#[trigger] conflict_at(self@, b, k),
                    Some(x) => (exists|k: int| 0 <= k < i && conflict_at(self@, b, k) && b[k].0 == x)
                        && forall|k: int| 0 <= k < i && #[trigger] conflict_at(self@, b, k) ==> x <= b[k].0,
                },
            decreases n - i,
        {
            let id = bindings[i].0;
            let differs: bool = match self.collection(id) {
                Ok(c) => c.description.0 != bindings[i].1.0 || c.description.1 != bindings[i].1.1
                    || match c.read_policy {
                    ReadPolicy::ValidFrom(None) => true,
                    _ => false,
                },
                Err(_) => false,
            };
            proof {
                assert(differs == conflict_at(self@, b, i as int));
            }
            match self.collection(id) {
                Ok(c) => {
                    if differs {
                        match conflict {
                            None => {
                                conflict = Some(id);
                            },
                            Some(x) => {
                                if id < x {
                                    conflict = Some(id);
                                }
                            },
                        }
                    }
                },
                Err(_) => {},
            }
            i = i + 1;
        }
        match conflict {
            Some(x) => {
                proof {
                    assert(is_min_conflict(self@, b, x));
                }
                return Err(StorageError::SourceIdReused(x));
            },
            None => {},
        }
        let mut ids: Vec<u64> = Vec::new();
        let mut x: usize = 0;
        while x < n
            invariant
                n == b.len(),
                b == bindings@,
                x <= n,
                ids@.len() == x,
                forall|y: int| 0 <= y < x ==> ids@[y] == b[y].0,
            decreases n - x,
        {
            ids.push(bindings[x].0);
            x = x + 1;
        }
        let order = ascending_order(&ids);
        let ghost old_view = self@;
        let mut cmds: Vec<CreateSourceCommand> = Vec::new();
        let mut k: usize = 0;
        while k < n
            invariant
                n == b.len(),
                b == bindings@,
                ids_distinct(b),
                k <= n,
                ids@.len() == n,
                forall|y: int| 0 <= y < n ==> ids@[y] == b[y].0,
                is_ascending_order(ids@, order@),
                self.wf(),
                self.location() == old(self).location(),
                old_view == old(self)@,
                forall|id: GlobalId|
                    #[trigger] self@.contains_key(id) <==> old_view.contains_key(id) || installed(
                        b,
                        order@,
                        k as int,
                        id,
                    ),
                forall|id: GlobalId| old_view.contains_key(id) ==> self@[id] == old_view[id],
                forall|q: int|
                    0 <= q < k && !old_view.contains_key(b[#[trigger] order@[q] as int].0) ==> fresh(
                        self@[b[order@[q] as int].0],
                        b[order@[q] as int].1,
                    ),
                forall|a: int, c: int| 0 <= a < c < cmds@.len() ==> cmds@[a].id < cmds@[c].id,
                forall|m: int|
                    #![trigger cmds@[m]]
                    0 <= m < cmds@.len() ==> exists|q: int|
                        0 <= q < k && b[order@[q] as int].0 == cmds@[m].id && !old_view.contains_key(
                            cmds@[m].id,
                        ) && cmds@[m].desc == b[order@[q] as int].1.0 && cmds@[m].since == b[order@[q] as int].1.1
                            && cmds@[m].storage_metadata == (CollectionMetadata {
                            persist_location: self.location(),
                            timestamp_shard_id: self@[cmds@[m].id].timestamp_shard_id,
                            persist_shard: self@[cmds@[m].id].persist_shard,
                        }),
                forall|q: int|
                    0 <= q < k && !old_view.contains_key(b[#[trigger] order@[q] as int].0) ==> exists|m: int|
                        0 <= m < cmds@.len() && cmds@[m].id == b[order@[q] as int].0,
            decreases n - k,
        {
            let j = order[k];
            let id = bindings[j].0;
            let desc = bindings[j].1.0;
            let since = bindings[j].1.1;
            proof {
                assert forall|q: int| 0 <= q < k implies b[order@[q] as int].0 < id by {
                    assert(ids@[order@[q] as int] < ids@[order@[k as int] as int]);
                }
                assert(!installed(b, order@, k as int, id));
                assert(b[j as int].1 == (desc, since));
            }
            let ghost before = self@;
            let ghost c0 = cmds@;
            let registered = match self.position(id) {
                Some(_) => true,
                None => false,
            };
            if !registered {
                let persist_shard = ShardId::new();
                let timestamp_shard_id = ShardId::new();
                let state = CollectionState::new(desc, since, persist_shard, timestamp_shard_id);
                self.install(id, state);
                let storage_metadata = CollectionMetadata {
                    persist_location: self.persist_location.duplicate(),
                    timestamp_shard_id,
                    persist_shard,
                };
                cmds.push(CreateSourceCommand { id, desc, since, storage_metadata });
                proof {
                    assert(!old_view.contains_key(id));
                    assert forall|m: int|
                        #![trigger cmds@[m]]
                        0 <= m < cmds@.len() implies exists|q: int|
                            0 <= q < k + 1 && b[order@[q] as int].0 == cmds@[m].id && !old_view.contains_key(
                                cmds@[m].id,
                            ) && cmds@[m].desc == b[order@[q] as int].1.0 && cmds@[m].since
                                == b[order@[q] as int].1.1 && cmds@[m].storage_metadata == (
                            CollectionMetadata {
                                persist_location: self.location(),
                                timestamp_shard_id: self@[cmds@[m].id].timestamp_shard_id,
                                persist_shard: self@[cmds@[m].id].persist_shard,
                            }) by {
                        if m < c0.len() {
                            assert(cmds@[m] == c0[m]);
                            let q = choose|q: int|
                                0 <= q < k && b[order@[q] as int].0 == c0[m].id && !old_view.contains_key(
                                    c0[m].id,
                                ) && c0[m].desc == b[order@[q] as int].1.0 && c0[m].since
                                    == b[order@[q] as int].1.1 && c0[m].storage_metadata == (
                                CollectionMetadata {
                                    persist_location: self.location(),
                                    timestamp_shard_id: before[c0[m].id].timestamp_shard_id,
                                    persist_shard: before[c0[m].id].persist_shard,
                                });
                            assert(c0[m].id != id);
                        } else {
                            assert(b[order@[k as int] as int].0 == id);
                        }
                    }
                    assert forall|a: int, c: int| 0 <= a < c < cmds@.len() implies cmds@[a].id < cmds@[c].id by {
                        if c == c0.len() {
                            assert(cmds@[a] == c0[a]);
                            let q = choose|q: int|
                                0 <= q < k && b[order@[q] as int].0 == c0[a].id && !old_view.contains_key(
                                    c0[a].id,
                                ) && c0[a].desc == b[order@[q] as int].1.0 && c0[a].since
                                    == b[order@[q] as int].1.1 && c0[a].storage_metadata == (
                                CollectionMetadata {
                                    persist_location: self.location(),
                                    timestamp_shard_id: before[c0[a].id].timestamp_shard_id,
                                    persist_shard: before[c0[a].id].persist_shard,
                                });
                        } else {
                            assert(cmds@[a] == c0[a]);
                            assert(cmds@[c] == c0[c]);
                        }
                    }
                    assert forall|q: int|
                        0 <= q < k + 1 && !old_view.contains_key(b[#[trigger] order@[q] as int].0) implies exists|m: int|
                        0 <= m < cmds@.len() && cmds@[m].id == b[order@[q] as int].0 by {
                        if q == k {
                            assert(cmds@[cmds@.len() - 1].id == id);
                        } else {
                            let m = choose|m: int| 0 <= m < c0.len() && c0[m].id == b[order@[q] as int].0;
                            assert(cmds@[m] == c0[m]);
                        }
                    }
                    assert forall|q: int|
                        0 <= q < k + 1 && !old_view.contains_key(b[#[trigger] order@[q] as int].0) implies fresh(
                        self@[b[order@[q] as int].0],
                        b[order@[q] as int].1,
                    ) by {
                        if q < k {
                            assert(b[order@[q] as int].0 != id);
                        }
                    }
                }
            } else {
                proof {
                    assert(old_view.contains_key(id));
                }
            }
            proof {
                assert forall|id2: GlobalId|
                    #[trigger] self@.contains_key(id2) <==> old_view.contains_key(id2) || installed(
                        b,
                        order@,
                        k + 1,
                        id2,
                    ) by {
                    if id2 == id {
                        assert(b[order@[k as int] as int].0 == id);
                    } else {
                        assert(before.contains_key(id2) == self@.contains_key(id2));
                        if installed(b, order@, k + 1, id2) {
                            let q = choose|q: int| 0 <= q < k + 1 && b[order@[q] as int].0 == id2;
                            assert(q < k);
                            assert(installed(b, order@, k as int, id2));
                        }
                        if installed(b, order@, k as int, id2) {
                            let q = choose|q: int| 0 <= q < k && b[order@[q] as int].0 == id2;
                            assert(installed(b, order@, k + 1, id2));
                        }
                    }
                }
            }
            k = k + 1;
        }
        proof {
            assert forall|jj: int|
                0 <= jj < n && !old_view.contains_key(#[trigger] b[jj].0) implies fresh(self@[b[jj].0], b[jj].1)
                && exists|m: int| 0 <= m < cmds@.len() && cmds@[m].id == b[jj].0 by {
                assert(occurs(order@, jj));
                let q = choose|q: int| 0 <= q < order@.len() && order@[q] == jj;
                assert(!old_view.contains_key(b[order@[q] as int].0));
            }
            assert forall|id: GlobalId|
                self@.contains_key(id) <==> old_view.contains_key(id) || in_batch(b, id) by {
                if in_batch(b, id) {
                    let jj = choose|jj: int| 0 <= jj < n && b[jj].0 == id;
                    assert(occurs(order@, jj));
                    let q = choose|q: int| 0 <= q < order@.len() && order@[q] == jj;
                    assert(b[order@[q] as int].0 == id);
                    assert(installed(b, order@, n as int, id));
                }
                if installed(b, order@, n as int, id) {
                    let q = choose|q: int| 0 <= q < n && b[order@[q] as int].0 == id;
                    assert(b[order@[q] as int].0 == id);
                }
                assert(self@.contains_key(id) <==> old_view.contains_key(id) || installed(
                    b,
                    order@,
                    n as int,
                    id,
                ));
            }
            assert forall|m: int| 0 <= m < cmds@.len() implies exists|j: int|
                0 <= j < b.len() && b[j].0 == (#[trigger] cmds@[m]).id && !old_view.contains_key(b[j].0)
                    && cmds@[m].desc == b[j].1.0 && cmds@[m].since == b[j].1.1
                    && cmds@[m].storage_metadata == (CollectionMetadata {
                    persist_location: self.location(),
                    timestamp_shard_id: self@[cmds@[m].id].timestamp_shard_id,
                    persist_shard: self@[cmds@[m].id].persist_shard,
                }) by {
                let q = choose|q: int|
                    0 <= q < n && b[order@[q] as int].0 == cmds@[m].id && !old_view.contains_key(cmds@[m].id)
                        && cmds@[m].desc == b[order@[q] as int].1.0 && cmds@[m].since == b[order@[q] as int].1.1
                        && cmds@[m].storage_metadata == (CollectionMetadata {
                        persist_location: self.location(),
                        timestamp_shard_id: self@[cmds@[m].id].timestamp_shard_id,
                        persist_shard: self@[cmds@[m].id].persist_shard,
                    });
                let j = order@[q] as int;
                assert(b[j].0 == cmds@[m].id);
            }
        }
        Ok(cmds)
    }
}

} // verus!

verus! {

impl Controller {
    /// Requests linearized timestamps for the given sources. Nothing is issued yet: the call
    /// succeeds and changes nothing.
    pub fn linearize_sources(&mut self, peek_id: u128, source_ids: &Vec<GlobalId>) -> (r: Result<
        (),
        StorageError,
    >)
        ensures
            r is Ok,
            final(self)@ == old(self)@,
            final(self).location() == old(self).location(),
    {
        Ok(())
    }
}

} // verus!

verus! {

impl Controller {
    /// Records the timestamp shard durably assigned to a collection, which replaces the one
    /// minted at creation.
    pub fn record_timestamp_shard(&mut self, id: GlobalId, shard: ShardId) -> (r: Result<(), StorageError>)
        requires
            old(self).wf(),
        ensures
            final(self).wf(),
            final(self).location() == old(self).location(),
            match r {
                Ok(()) => old(self)@.contains_key(id) && final(self)@ == old(self)@.insert(
                    id,
                    CollectionState { timestamp_shard_id: shard, ..old(self)@[id] },
                ),
                Err(e) => !old(self)@.contains_key(id) && e == StorageError::IdentifierMissing(id)
                    && final(self)@ == old(self)@,
            },
    {
        match self.position(id) {
            Some(p) => {
                let ghost s0 = self.collections@;
                self.collections[p].1.timestamp_shard_id = shard;
                proof {
                    assert(self.collections@ == s0.update(p as int, (s0[p as int].0, self.collections@[p as int].1)));
                    lemma_registry_update(s0, p as int, self.collections@[p as int].1);
                    assert forall|k: int| 0 <= k < self.collections@.len() implies (#[trigger] self.collections@[k]).1.wf() by {
                        if k != p {
                            assert(self.collections@[k] == s0[k]);
                        }
                    }
                }
                Ok(())
            },
            None => Err(StorageError::IdentifierMissing(id)),
        }
    }
}

} // verus!

verus! {

/// All changes that a batch of per-collection updates makes to the collection `id`, in order.
pub open spec fn batches_for(u: Seq<(GlobalId, ChangeBatch)>, id: GlobalId) -> Seq<(Timestamp, i64)>
    decreases u.len(),
{
    if u.len() == 0 {
        Seq::empty()
    } else {
        batches_for(u.drop_last(), id) + (if u.last().0 == id {
            u.last().1@
        } else {
            Seq::empty()
        })
    }
}

impl Controller {
    /// Folds write frontier changes into the listed collections; an id may be listed more
    /// than once, and its changes then apply in list order. Each listed collection then
    /// ratchets its implied capability once against its read policy, and the holds move
    /// accordingly. Returns the compaction directives of the collections whose read frontier
    /// moved, in descending id order.
    pub fn update_write_frontiers(&mut self, updates: &Vec<(GlobalId, ChangeBatch)>) -> (r: Vec<
        (GlobalId, Frontier),
    >)
        requires
            old(self).wf(),
            reads_have_headroom(old(self)@),
            forall|j: int|
                0 <= j < updates@.len() ==> old(self)@.contains_key(#[trigger] updates@[j].0) && fits(
                    old(self)@[updates@[j].0].write_frontier@,
                    batches_for(updates@, updates@[j].0),
                ),
        ensures
            final(self).wf(),
            final(self).location() == old(self).location(),
            final(self)@.dom() == old(self)@.dom(),
            forall|id: GlobalId|
                old(self)@.contains_key(id) && !in_batch(updates@, id) ==> final(self)@[id] == old(
                    self,
                )@[id],
            forall|j: int|
                #![trigger updates@[j]]
                0 <= j < updates@.len() ==> {
                    let o = old(self)@[updates@[j].0];
                    let f = final(self)@[updates@[j].0];
                    &&& f.write_frontier@ == apply(o.write_frontier@, batches_for(updates@, updates@[j].0))
                    &&& f.implied_capability == ratchet(
                        o.implied_capability,
                        policy_frontier(o.read_policy, f.upper()),
                    )
                    &&& frontier_le(o.implied_capability, f.implied_capability)
                    &&& f.read_capabilities@ == apply(
                        o.read_capabilities@,
                        frontier_delta(o.implied_capability, f.implied_capability),
                    )
                    &&& f.description == o.description
                    &&& f.read_policy == o.read_policy
                    &&& f.timestamp_shard_id == o.timestamp_shard_id
                    &&& f.persist_shard == o.persist_shard
                },
            compactions_of(old(self)@, final(self)@, id_set(updates@), r@),
            forall|k: int|
                0 <= k < r@.len() && held(old(self)@[(#[trigger] r@[k]).0]) ==> frontier_le(
                    old(self)@[r@[k].0].since(),
                    r@[k].1,
                ),
    {
        let ghost u = updates@;
        let n = updates.len();
        let mut merged: Vec<(GlobalId, ChangeBatch)> = Vec::new();
        let mut x: usize = 0;
        assert(u.take(0).len() == 0);
        while x < n
            invariant
                n == u.len(),
                u == updates@,
                x <= n,
                ids_distinct(merged@),
                forall|id: GlobalId| in_batch(merged@, id) <==> in_batch(u.take(x as int), id),
                forall|k: int|
                    0 <= k < merged@.len() ==> (#[trigger] merged@[k]).1@ == batches_for(
                        u.take(x as int),
                        merged@[k].0,
                    ),
            decreases n - x,
        {
            let id = updates[x].0;
            let ghost m0 = merged@;
            let ghost t0 = u.take(x as int);
            let ghost t1 = u.take(x as int + 1);
            proof {
                assert(t1.drop_last() =~= t0);
                assert(t1.last() == u[x as int]);
                assert forall|id2: GlobalId| batches_for(t1, id2) == batches_for(t0, id2) + (if u[x as int].0
                    == id2 {
                    u[x as int].1@
                } else {
                    Seq::<(Timestamp, i64)>::empty()
                }) by {}
            }
            let mut p: usize = 0;
            while p < merged.len() && merged[p].0 != id
                invariant
                    p <= merged@.len(),
                    forall|k: int| 0 <= k < p ==> merged@[k].0 != id,
                decreases merged@.len() - p,
            {
                p = p + 1;
            }
            if p == merged.len() {
                merged.push((id, Vec::new()));
                proof {
                    assert(!in_batch(m0, id));
                    assert(!in_batch(t0, id));
                    assert(batches_for(t0, id) =~= Seq::<(Timestamp, i64)>::empty()) by {
                        lemma_batches_absent(t0, id);
                    }
                    assert forall|a: int, c: int| 0 <= a < c < merged@.len() implies merged@[a].0 != merged@[c].0 by {
                        if c == m0.len() {
                            assert(merged@[a] == m0[a]);
                        }
                    }
                }
            }
            let ghost m1 = merged@;
            proof {
                assert(merged@[p as int].0 == id);
                assert forall|k: int| 0 <= k < m1.len() implies (#[trigger] m1[k]).1@ == batches_for(
                    t0,
                    m1[k].0,
                ) by {
                    if k < m0.len() {
                        assert(m1[k] == m0[k]);
                    }
                }
            }
            let mut y: usize = 0;
            while y < updates[x].1.len()
                invariant
                    n == u.len(),
                    u == updates@,
                    x < n,
                    p < merged@.len(),
                    merged@.len() == m1.len(),
                    y <= u[x as int].1@.len(),
                    forall|k: int| 0 <= k < m1.len() ==> (#[trigger] merged@[k]).0 == m1[k].0,
                    forall|k: int| 0 <= k < m1.len() && k != p ==> #[trigger] merged@[k] == m1[k],
                    merged@[p as int].1@ == m1[p as int].1@ + u[x as int].1@.take(y as int),
                decreases u[x as int].1@.len() - y,
            {
                let e = updates[x].1[y];
                merged[p].1.push(e);
                proof {
                    assert(u[x as int].1@.take(y as int + 1) =~= u[x as int].1@.take(y as int).push(e));
                    assert(merged@[p as int].1@ =~= m1[p as int].1@ + u[x as int].1@.take(y as int + 1));
                }
                y = y + 1;
            }
            proof {
                assert(u[x as int].1@.take(y as int) =~= u[x as int].1@);
                assert(ids_distinct(merged@)) by {
                    assert forall|a: int, c: int| 0 <= a < c < merged@.len() implies merged@[a].0 != merged@[c].0 by {
                        assert(merged@[a].0 == m1[a].0);
                        assert(merged@[c].0 == m1[c].0);
                    }
                }
                assert forall|id2: GlobalId| in_batch(merged@, id2) <==> in_batch(t1, id2) by {
                    if in_batch(merged@, id2) {
                        let k = choose|k: int| 0 <= k < merged@.len() && merged@[k].0 == id2;
                        assert(m1[k].0 == id2);
                        if k < m0.len() {
                            assert(m0[k] == m1[k]);
                            assert(m0[k].0 == id2);
                            assert(in_batch(m0, id2));
                            assert(in_batch(t0, id2));
                            let i = choose|i: int| 0 <= i < t0.len() && t0[i].0 == id2;
                            assert(t1[i] == t0[i]);
                        } else {
                            assert(t1[x as int].0 == id2);
                        }
                    }
                    if in_batch(t1, id2) {
                        let i = choose|i: int| 0 <= i < t1.len() && t1[i].0 == id2;
                        if i < x {
                            assert(t0[i] == t1[i]);
                            assert(in_batch(m0, id2));
                            let k = choose|k: int| 0 <= k < m0.len() && m0[k].0 == id2;
                            assert(m1[k] == m0[k]);
                            assert(merged@[k].0 == id2);
                        } else {
                            assert(merged@[p as int].0 == id2);
                        }
                    }
                }
                assert forall|k: int| 0 <= k < merged@.len() implies (#[trigger] merged@[k]).1@ == batches_for(
                    t1,
                    merged@[k].0,
                ) by {
                    if k != p {
                        assert(merged@[k] == m1[k]);
                        assert(m1[k].0 != id);
                        assert(batches_for(t0, m1[k].0) + Seq::<(Timestamp, i64)>::empty() =~= batches_for(
                            t0,
                            m1[k].0,
                        ));
                    }
                }
            }
            x = x + 1;
        }
        proof {
            assert(u.take(n as int) =~= u);
            assert forall|k: int|
                0 <= k < merged@.len() implies self@.contains_key(#[trigger] merged@[k].0) && fits(
                self@[merged@[k].0].write_frontier@,
                merged@[k].1@,
            ) by {
                assert(in_batch(merged@, merged@[k].0));
                let j = choose|j: int| 0 <= j < u.len() && u[j].0 == merged@[k].0;
                assert(u[j].0 == merged@[k].0);
            }
            assert forall|id: GlobalId| in_batch(merged@, id) <==> in_batch(u, id) by {}
            assert(id_set(merged@) =~= id_set(u));
        }
        let ghost old_view = self@;
        let r = self.update_distinct_write_frontiers(&merged);
        proof {
            assert forall|j: int|
                #![trigger u[j]]
                0 <= j < u.len() implies {
                    let o = old_view[u[j].0];
                    let f = self@[u[j].0];
                    &&& f.write_frontier@ == apply(o.write_frontier@, batches_for(u, u[j].0))
                    &&& f.implied_capability == ratchet(
                        o.implied_capability,
                        policy_frontier(o.read_policy, f.upper()),
                    )
                    &&& frontier_le(o.implied_capability, f.implied_capability)
                    &&& f.read_capabilities@ == apply(
                        o.read_capabilities@,
                        frontier_delta(o.implied_capability, f.implied_capability),
                    )
                    &&& f.description == o.description
                    &&& f.read_policy == o.read_policy
                    &&& f.timestamp_shard_id == o.timestamp_shard_id
                    &&& f.persist_shard == o.persist_shard
                } by {
                assert(in_batch(u, u[j].0));
                assert(in_batch(merged@, u[j].0));
                let k = choose|k: int| 0 <= k < merged@.len() && merged@[k].0 == u[j].0;
                assert(merged@[k].0 == u[j].0);
                crate::laws::lemma_ratchet_advances(
                    old_view[u[j].0].implied_capability,
                    policy_frontier(old_view[u[j].0].read_policy, self@[u[j].0].upper()),
                );
            }
            assert forall|id: GlobalId|
                old_view.contains_key(id) && !in_batch(u, id) implies self@[id] == old_view[id] by {
                assert(!in_batch(merged@, id));
            }
            assert forall|k: int|
                0 <= k < r@.len() && held(old_view[(#[trigger] r@[k]).0]) implies frontier_le(
                old_view[r@[k].0].since(),
                r@[k].1,
            ) by {
                let id = r@[k].0;
                assert(id_set(u).contains(id));
                let j = choose|j: int| 0 <= j < u.len() && u[j].0 == id;
                assert(u[j].0 == id);
                lemma_compaction_step(old_view, self@, id);
            }
        }
        r
    }
}

/// An id absent from a batch receives no changes.
pub proof fn lemma_batches_absent(u: Seq<(GlobalId, ChangeBatch)>, id: GlobalId)
    requires
        !in_batch(u, id),
    ensures
        batches_for(u, id) =~= Seq::<(Timestamp, i64)>::empty(),
    decreases u.len(),
{
    if u.len() > 0 {
        let q = u.drop_last();
        assert(!in_batch(q, id)) by {
            if in_batch(q, id) {
                let i = choose|i: int| 0 <= i < q.len() && q[i].0 == id;
                assert(u[i] == q[i]);
            }
        }
        lemma_batches_absent(q, id);
        assert(u.last() == u[u.len() - 1]);
    }
}

} // verus!

verus! {

/// The collection's implied capability is held in its read capabilities.
pub open spec fn held(c: CollectionState) -> bool {
    match c.implied_capability {
        Some(t) => count(c.read_capabilities@, t) > 0,
        None => true,
    }
}

/// When a held implied capability advances and its hold moves with it, the read frontier
/// does not move back.
pub proof fn lemma_compaction_step(before: Map<GlobalId, CollectionState>, after: Map<GlobalId, CollectionState>, id: GlobalId)
    requires
        before.contains_key(id),
        after.contains_key(id),
        before[id].wf(),
        after[id].wf(),
        held(before[id]),
        frontier_le(before[id].implied_capability, after[id].implied_capability),
        after[id].read_capabilities@ == apply(
            before[id].read_capabilities@,
            frontier_delta(before[id].implied_capability, after[id].implied_capability),
        ),
    ensures
        frontier_le(before[id].since(), after[id].since()),
{
    before[id].read_capabilities.lemma_wf_frontier();
    after[id].read_capabilities.lemma_wf_frontier();
    crate::laws::lemma_compaction_advances(
        before[id].read_capabilities@,
        before[id].implied_capability,
        after[id].implied_capability,
        before[id].since(),
        after[id].since(),
    );
}

} // verus!

verus! {

impl Controller {
    /// Whether every collection has room in its read capabilities, and (when `writes` is
    /// set) in its write frontier, for one more `+1` or `-1` at each time.
    pub fn has_headroom(&self, writes: bool) -> (r: bool)
        requires
            self.wf(),
        ensures
            r == (reads_have_headroom(self@) && (writes ==> writes_have_headroom(self@))),
    {
        let mut i: usize = 0;
        while i < self.collections.len()
            invariant
                self.wf(),
                i <= self.collections@.len(),
                forall|k: int|
                    0 <= k < i ==> headroom(self.collections@[k].1.read_capabilities@) && (writes
                        ==> headroom(self.collections@[k].1.write_frontier@)),
            decreases self.collections@.len() - i,
        {
            proof {
                assert(self.collections@[i as int].1.wf());
                lemma_registry_at(self.collections@, i as int);
            }
            if !self.collections[i].1.read_capabilities.has_headroom() || (writes
                && !self.collections[i].1.write_frontier.has_headroom()) {
                return false;
            }
            i = i + 1;
        }
        proof {
            assert forall|id: GlobalId| #[trigger] self@.contains_key(id) implies headroom(
                self@[id].read_capabilities@,
            ) && (writes ==> headroom(self@[id].write_frontier@)) by {
                let k = choose|k: int| 0 <= k < self.collections@.len() && self.collections@[k].0 == id;
                lemma_registry_at(self.collections@, k);
            }
        }
        true
    }
}

} // verus!
