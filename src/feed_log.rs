use vstd::prelude::*;

use crate::id_map::{
    keys_unique, lemma_map_of_contains, lemma_map_of_len, lemma_map_of_unique, map_of, IdMap,
};
use crate::model::{update_id, FeedUpdate, FeedUpdateSpawn};
use crate::EntityId;

verus! {

/// The live feeds after applying one event to `m`.
pub open spec fn apply_feed(m: Map<EntityId, FeedUpdateSpawn>, u: FeedUpdate) -> Map<
    EntityId,
    FeedUpdateSpawn,
> {
    match u {
        FeedUpdate::Spawn(s) => m.insert(s.id, s),
        FeedUpdate::Despawn(id) => m.remove(id),
    }
}

/// The live feeds after applying the events of `u` in order to `m`.
pub open spec fn replay_from(m: Map<EntityId, FeedUpdateSpawn>, u: Seq<FeedUpdate>) -> Map<
    EntityId,
    FeedUpdateSpawn,
>
    decreases u.len(),
{
    if u.len() == 0 {
        m
    } else {
        apply_feed(replay_from(m, u.drop_last()), u.last())
    }
}

/// The live feeds that a whole event history leaves.
pub open spec fn live_feeds(e: Seq<FeedUpdate>) -> Map<EntityId, FeedUpdateSpawn> {
    replay_from(Map::empty(), e)
}

/// One step of compaction: a despawn cancels a spawn of the same id already
/// in the partial result, and is kept otherwise.
pub open spec fn compact_step(m: Map<EntityId, FeedUpdate>, u: FeedUpdate) -> Map<
    EntityId,
    FeedUpdate,
> {
    match u {
        FeedUpdate::Spawn(s) => m.insert(s.id, u),
        FeedUpdate::Despawn(id) => if m.contains_key(id) && m[id] is Spawn {
            m.remove(id)
        } else {
            m.insert(id, u)
        },
    }
}

/// The compacted events of `w`, by the id they are about.
pub open spec fn compacted(w: Seq<FeedUpdate>) -> Map<EntityId, FeedUpdate>
    decreases w.len(),
{
    if w.len() == 0 {
        Map::empty()
    } else {
        compact_step(compacted(w.drop_last()), w.last())
    }
}

/// The events from cursor `from` on; a cursor past the end gives none.
pub open spec fn window(e: Seq<FeedUpdate>, from: int) -> Seq<FeedUpdate> {
    e.subrange(
        if from < e.len() {
            from
        } else {
            e.len() as int
        },
        e.len() as int,
    )
}

/// Each event paired with the id it is about.
pub open spec fn keyed(s: Seq<FeedUpdate>) -> Seq<(EntityId, FeedUpdate)> {
    s.map_values(|u: FeedUpdate| (update_id(u), u))
}

/// The server's append-only record of feed spawns and despawns, with the
/// set of feeds alive now.
pub struct FeedUpdates {
    updates: Vec<FeedUpdate>,
    snapshot: IdMap<FeedUpdateSpawn>,
    total_feeds: usize,
}

impl FeedUpdates {
    /// The events recorded so far, oldest first.
    pub closed spec fn events(&self) -> Seq<FeedUpdate> {
        self.updates@
    }

    /// The feeds alive now.
    pub closed spec fn live(&self) -> Map<EntityId, FeedUpdateSpawn> {
        self.snapshot@
    }

    /// What `snapshot` hands out: one spawn per live feed.
    pub closed spec fn snapshot_seq(&self) -> Seq<FeedUpdate> {
        self.snapshot.entries().map_values(|p: (EntityId, FeedUpdateSpawn)| FeedUpdate::Spawn(p.1))
    }

    pub closed spec fn total(&self) -> nat {
        self.total_feeds as nat
    }

    /// The live set is what replaying the history gives, and the counter
    /// counts it.
    pub closed spec fn wf(&self) -> bool {
        &&& self.snapshot.wf()
        &&& self.snapshot@ == live_feeds(self.updates@)
        &&& self.total_feeds == self.snapshot@.len()
    }

    pub proof fn lemma_wf(&self)
        requires
            self.wf(),
        ensures
            self.live() == live_feeds(self.events()),
            self.total() == self.live().len(),
            self.live().dom().finite(),
            forall|k: EntityId| #[trigger]
                self.live().contains_key(k) ==> self.live()[k].id == k,
    {
        lemma_map_of_len(self.snapshot.entries());
        lemma_live_keys(self.updates@);
    }

    pub fn new() -> (r: Self)
        ensures
            r.wf(),
            r.events() == Seq::<FeedUpdate>::empty(),
            r.live() == Map::<EntityId, FeedUpdateSpawn>::empty(),
            r.total() == 0,
    {
        let r = FeedUpdates { updates: Vec::new(), snapshot: IdMap::new(), total_feeds: 0 };
        proof {
            lemma_map_of_len(r.snapshot.entries());
        }
        r
    }

    /// Number of feeds alive now.
    pub fn total_feeds(&self) -> (r: usize)
        ensures
            r == self.total(),
    {
        self.total_feeds
    }

    /// Number of events recorded: the cursor a client holds once it has seen
    /// them all.
    pub fn len(&self) -> (r: usize)
        ensures
            r == self.events().len(),
    {
        self.updates.len()
    }

    /// Records the spawn of a feed whose id is not alive.
    pub fn spawn(&mut self, update: FeedUpdateSpawn)
        requires
            old(self).wf(),
            !old(self).live().contains_key(update.id),
        ensures
            final(self).wf(),
            final(self).events() == old(self).events().push(FeedUpdate::Spawn(update)),
            final(self).live() == old(self).live().insert(update.id, update),
            final(self).total() == old(self).total() + 1,
    {
        proof {
            lemma_map_of_len(self.snapshot.entries());
        }
        let ghost before = self.updates@;
        self.updates.push(FeedUpdate::Spawn(update));
        self.snapshot.insert(update.id, update);
        proof {
            assert(self.updates@.drop_last() =~= before);
            lemma_map_of_len(self.snapshot.entries());
        }
        self.total_feeds = self.snapshot.len();
    }

    /// Records the despawn of a live feed.
    pub fn despawn(&mut self, id: EntityId)
        requires
            old(self).wf(),
            old(self).live().contains_key(id),
        ensures
            final(self).wf(),
            final(self).events() == old(self).events().push(FeedUpdate::Despawn(id)),
            final(self).live() == old(self).live().remove(id),
            final(self).total() == old(self).total() - 1,
    {
        proof {
            lemma_map_of_len(self.snapshot.entries());
        }
        let ghost before = self.updates@;
        self.updates.push(FeedUpdate::Despawn(id));
        self.snapshot.remove(id);
        proof {
            assert(self.updates@.drop_last() =~= before);
            lemma_map_of_len(self.snapshot.entries());
        }
        self.total_feeds = self.snapshot.len();
    }

    /// Every live feed as a spawn event: the answer to a request from cursor 0.
    pub fn snapshot(&self) -> (r: Vec<FeedUpdate>)
        requires
            self.wf(),
        ensures
            r@ == self.snapshot_seq(),
            live_feeds(r@) == self.live(),
            r@.len() == self.total(),
            keys_unique(keyed(r@)),
            forall|i: int|
                0 <= i < r@.len() ==> {
                    let u = #[trigger] r@[i];
                    &&& u is Spawn
                    &&& self.live().contains_key(u->Spawn_0.id)
                    &&& self.live()[u->Spawn_0.id] == u->Spawn_0
                },
    {
        proof {
            lemma_snapshot_replay(*self);
            lemma_map_of_len(self.snapshot.entries());
            lemma_live_keys(self.updates@);
            let e = self.snapshot.entries();
            let t = self.snapshot_seq();
            assert forall|i: int| 0 <= i < t.len() implies {
                let u = #[trigger] t[i];
                &&& u is Spawn
                &&& u->Spawn_0.id == e[i].0
                &&& self.live().contains_key(u->Spawn_0.id)
                &&& self.live()[u->Spawn_0.id] == u->Spawn_0
            } by {
                lemma_map_of_unique(e, i);
            }
            assert forall|a: int, b: int| 0 <= a < b < keyed(t).len() implies keyed(t)[a].0
                != keyed(t)[b].0 by {
                assert(keyed(t)[a].0 == t[a]->Spawn_0.id);
                assert(keyed(t)[b].0 == t[b]->Spawn_0.id);
            }
        }
        let mut out: Vec<FeedUpdate> = Vec::new();
        let n = self.snapshot.len();
        let mut j: usize = 0;
        while j < n
            invariant
                n == self.snapshot.entries().len(),
                j <= n,
                out@ =~= self.snapshot_seq().take(j as int),
            decreases n - j,
        {
            let entry = self.snapshot.entry(j);
            out.push(FeedUpdate::Spawn(entry.1));
            j = j + 1;
        }
        out
    }

    /// The compacted events from cursor `from` on: what a client that has
    /// applied the first `from` events must apply to reach the live set.
    pub fn updates(&self, from: usize) -> (r: Vec<FeedUpdate>)
        ensures
            keys_unique(keyed(r@)),
            map_of(keyed(r@)) == compacted(window(self.events(), from as int)),
    {
        let len = self.updates.len();
        let start = if from < len {
            from
        } else {
            len
        };
        let mut partial: IdMap<FeedUpdate> = IdMap::new();
        let mut i: usize = start;
        while i < len
            invariant
                start <= i <= len,
                len == self.events().len(),
                partial.wf(),
                partial@ == compacted(self.events().subrange(start as int, i as int)),
            decreases len - i,
        {
            let u = self.updates[i];
            match u {
                FeedUpdate::Spawn(s) => {
                    partial.insert(s.id, u);
                },
                FeedUpdate::Despawn(id) => {
                    let cancels = match partial.get(id) {
                        Some(FeedUpdate::Spawn(_)) => true,
                        _ => false,
                    };
                    if cancels {
                        partial.remove(id);
                    } else {
                        partial.insert(id, u);
                    }
                },
            }
            proof {
                let w = self.events().subrange(start as int, i + 1);
                assert(w.drop_last() =~= self.events().subrange(start as int, i as int));
            }
            i = i + 1;
        }
        proof {
            assert(self.events().subrange(start as int, len as int) =~= window(
                self.events(),
                from as int,
            ));
            lemma_compacted_keys(window(self.events(), from as int));
        }
        let mut out: Vec<FeedUpdate> = Vec::new();
        let n = partial.len();
        let mut j: usize = 0;
        while j < n
            invariant
                n == partial.entries().len(),
                j <= n,
                partial.wf(),
                forall|k: EntityId| #[trigger]
                    partial@.contains_key(k) ==> update_id(partial@[k]) == k,
                keyed(out@) =~= partial.entries().take(j as int),
            decreases n - j,
        {
            let entry = partial.entry(j);
            proof {
                lemma_map_of_unique(partial.entries(), j as int);
                assert(partial@.contains_key(entry.0));
                assert(partial@[entry.0] == entry.1);
                assert(update_id(entry.1) == entry.0);
            }
            let ghost prev = out@;
            out.push(entry.1);
            proof {
                assert(keyed(out@) =~= keyed(prev).push((update_id(entry.1), entry.1)));
                assert(partial.entries().take(j + 1) =~= partial.entries().take(j as int).push(
                    partial.entries()[j as int],
                ));
            }
            j = j + 1;
        }
        proof {
            assert(partial.entries().take(n as int) =~= partial.entries());
        }
        out
    }
}

/// Every live feed is stored under its own id.
pub proof fn lemma_live_keys(e: Seq<FeedUpdate>)
    ensures
        forall|k: EntityId| #[trigger]
            live_feeds(e).contains_key(k) ==> live_feeds(e)[k].id == k,
    decreases e.len(),
{
    if e.len() > 0 {
        lemma_live_keys(e.drop_last());
    }
}

/// Every compacted event is stored under the id it is about.
pub proof fn lemma_compacted_keys(w: Seq<FeedUpdate>)
    ensures
        forall|k: EntityId| #[trigger]
            compacted(w).contains_key(k) ==> update_id(compacted(w)[k]) == k,
    decreases w.len(),
{
    if w.len() > 0 {
        let p = w.drop_last();
        lemma_compacted_keys(p);
        assert forall|k: EntityId| #[trigger]
            compacted(w).contains_key(k) implies update_id(compacted(w)[k]) == k by {
            if k != update_id(w.last()) {
                assert(compacted(w)[k] == compacted(p)[k]);
            }
        }
    }
}

/// A client that has seen no feed and applies the snapshot in order ends up
/// with exactly the server's live feeds.
pub proof fn lemma_snapshot_replay(log: FeedUpdates)
    requires
        log.wf(),
    ensures
        replay_from(Map::empty(), log.snapshot_seq()) == log.live(),
{
    let s = log.snapshot.entries();
    lemma_live_keys(log.updates@);
    assert forall|j: int| 0 <= j < s.len() implies #[trigger] s[j].1.id == s[j].0 by {
        lemma_map_of_unique(s, j);
    }
    lemma_spawns_replay(s, s.len() as int);
    assert(s.take(s.len() as int) =~= s);
    assert(log.snapshot_seq().take(s.len() as int) =~= log.snapshot_seq());
}

proof fn lemma_spawns_replay(s: Seq<(EntityId, FeedUpdateSpawn)>, j: int)
    requires
        0 <= j <= s.len(),
        forall|i: int| 0 <= i < s.len() ==> #[trigger] s[i].1.id == s[i].0,
    ensures
        replay_from(
            Map::empty(),
            s.map_values(|p: (EntityId, FeedUpdateSpawn)| FeedUpdate::Spawn(p.1)).take(j),
        ) == map_of(s.take(j)),
    decreases j,
{
    let t = s.map_values(|p: (EntityId, FeedUpdateSpawn)| FeedUpdate::Spawn(p.1));
    if j > 0 {
        lemma_spawns_replay(s, j - 1);
        assert(t.take(j).drop_last() =~= t.take(j - 1));
        assert(s.take(j).drop_last() =~= s.take(j - 1));
        assert(s[j - 1].1.id == s[j - 1].0);
    } else {
        assert(t.take(0) =~= Seq::<FeedUpdate>::empty());
        assert(s.take(0) =~= Seq::<(EntityId, FeedUpdateSpawn)>::empty());
    }
}

/// Events about other ids leave an id's compacted event as it was.
proof fn lemma_compacted_other(w: Seq<FeedUpdate>, n: int, id: EntityId)
    requires
        0 <= n <= w.len(),
        forall|j: int| n <= j < w.len() ==> update_id(#[trigger] w[j]) != id,
    ensures
        compacted(w).contains_key(id) == compacted(w.take(n)).contains_key(id),
        compacted(w).contains_key(id) ==> compacted(w)[id] == compacted(w.take(n))[id],
    decreases w.len() - n,
{
    if n < w.len() {
        let p = w.drop_last();
        lemma_compacted_other(p, n, id);
        assert(p.take(n) =~= w.take(n));
    } else {
        assert(w.take(n) =~= w);
    }
}

/// A feed spawned and then despawned after the cursor, with no other event
/// about it there, leaves no event about it in the compacted view, so
/// whatever the view hands out holds neither.
pub proof fn lemma_compaction_cancels(e: Seq<FeedUpdate>, from: int, a: int, b: int, id: EntityId)
    requires
        0 <= from <= a < b < e.len(),
        e[a] is Spawn,
        update_id(e[a]) == id,
        e[b] == FeedUpdate::Despawn(id),
        forall|j: int| from <= j < e.len() && j != a && j != b ==> update_id(#[trigger] e[j]) != id,
    ensures
        !compacted(window(e, from)).contains_key(id),
        forall|r: Seq<FeedUpdate>|
            #![trigger map_of(keyed(r))]
            map_of(keyed(r)) == compacted(window(e, from)) ==> forall|i: int|
                0 <= i < r.len() ==> update_id(#[trigger] r[i]) != id,
{
    let w = window(e, from);
    let a2 = a - from;
    let b2 = b - from;
    assert forall|j: int| 0 <= j < w.len() && j != a2 && j != b2 implies update_id(
        #[trigger] w[j],
    ) != id by {
        assert(w[j] == e[j + from]);
    }
    // nothing about `id` before the spawn
    let w0 = w.take(a2);
    assert forall|j: int| 0 <= j < w0.len() implies update_id(#[trigger] w0[j]) != id by {
        assert(w0[j] == w[j]);
    }
    lemma_compacted_other(w0, 0, id);
    assert(w0.take(0) =~= Seq::<FeedUpdate>::empty());
    // the spawn puts it in
    let w1 = w.take(a2 + 1);
    assert(w1.drop_last() =~= w0);
    assert(w1.last() == e[a]);
    // nothing about it until the despawn
    let w2 = w.take(b2);
    assert forall|j: int| a2 + 1 <= j < w2.len() implies update_id(#[trigger] w2[j]) != id by {
        assert(w2[j] == w[j]);
    }
    lemma_compacted_other(w2, a2 + 1, id);
    assert(w2.take(a2 + 1) =~= w1);
    // the despawn cancels it
    let w3 = w.take(b2 + 1);
    assert(w3.drop_last() =~= w2);
    assert(w3.last() == e[b]);
    // nothing about it afterwards
    assert forall|j: int| b2 + 1 <= j < w.len() implies update_id(#[trigger] w[j]) != id by {}
    lemma_compacted_other(w, b2 + 1, id);
    assert forall|r: Seq<FeedUpdate>|
        #![trigger map_of(keyed(r))]
        map_of(keyed(r)) == compacted(w) implies forall|i: int|
        0 <= i < r.len() ==> update_id(#[trigger] r[i]) != id by {
        assert forall|i: int| 0 <= i < r.len() implies update_id(#[trigger] r[i]) != id by {
            lemma_map_of_contains(keyed(r), id);
            if update_id(r[i]) == id {
                assert(keyed(r)[i].0 == id);
            }
        }
    }
}

} // verus!
