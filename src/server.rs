use vstd::prelude::*;

use crate::feed_log::{compacted, keyed, window, FeedUpdates};
use crate::growth::{grown_times, lemma_speed_cap_range, speed_cap, speed_matches_size};
use crate::id_map::{
    has_key, keys_unique, lemma_has_key_take, lemma_map_of_contains, lemma_map_of_len,
    lemma_map_of_unique, map_of, IdMap,
};
use crate::model::{
    Agar, AgarUpdate, ClientMessage, FeedColor, FeedUpdate, FeedUpdateSpawn, GameStateMessage,
    NetworkBroadcast, NetworkHandle, Point, Vec2, AGAR_GROWTH, AGAR_INIT_SIZE, FEED_TARGET,
    WORLD_HEIGHT, WORLD_WIDTH,
};
use crate::motion::{input_to_velocity, move_agar, moved_agar, steer};
use crate::random::random_position;
use crate::EntityId;

verus! {

/// An agar as the server simulates it, with the connection that steers it.
#[derive(Clone, Copy, Debug, PartialEq, Eq, Structural)]
pub struct ServerAgar {
    pub handle: NetworkHandle,
    pub agar: Agar,
    pub translation: Point,
}

/// The agar that a login creates.
pub open spec fn fresh_agar(handle: NetworkHandle, pos: Point) -> ServerAgar {
    ServerAgar {
        handle,
        agar: Agar {
            size: AGAR_INIT_SIZE,
            velocity: Vec2 { x: 0, y: 0 },
            max_velocity: speed_cap(AGAR_INIT_SIZE) as u64,
        },
        translation: pos,
    }
}

/// An agar after one tick of movement.
pub open spec fn moved(a: ServerAgar, dt_ms: u32) -> ServerAgar {
    ServerAgar {
        translation: moved_agar(
            a.translation,
            steer(a.agar.velocity, a.agar.max_velocity),
            dt_ms,
        ),
        ..a
    }
}

/// Every agar of `m` after one tick of movement.
pub open spec fn moved_all(m: Map<EntityId, ServerAgar>, dt_ms: u32) -> Map<EntityId, ServerAgar> {
    Map::new(|k: EntityId| m.contains_key(k), |k: EntityId| moved(m[k], dt_ms))
}

/// The agars after connection `handle` sends input `vel`.
pub open spec fn steered(m: Map<EntityId, ServerAgar>, handle: NetworkHandle, vel: Vec2) -> Map<
    EntityId,
    ServerAgar,
> {
    Map::new(
        |k: EntityId| m.contains_key(k),
        |k: EntityId|
            if m[k].handle == handle {
                ServerAgar { agar: Agar { velocity: vel, ..m[k].agar }, ..m[k] }
            } else {
                m[k]
            },
    )
}

/// What the broadcast says of an agar.
pub open spec fn update_of(a: ServerAgar) -> AgarUpdate {
    AgarUpdate { agar: a.agar, translation: a.translation }
}

/// A feed lies strictly closer to an agar's centre than the agar's size.
pub open spec fn touches(p: Point, size: u64, q: Point) -> bool {
    (p.x - q.x) * (p.x - q.x) + (p.y - q.y) * (p.y - q.y) < size * size
}

/// `eaten` names, for each agar of `agars0`, the feeds it consumed on the way
/// from the world `agars0`/`feeds0` to `agars1`/`feeds1`: each agar grew once
/// per feed it ate, each eaten feed was live, is gone and lies within its
/// eater, and every removed feed was eaten by exactly one agar.
pub open spec fn consumed_as(
    agars0: Map<EntityId, ServerAgar>,
    feeds0: Map<EntityId, FeedUpdateSpawn>,
    agars1: Map<EntityId, ServerAgar>,
    feeds1: Map<EntityId, FeedUpdateSpawn>,
    eaten: Map<EntityId, Set<EntityId>>,
) -> bool {
    &&& forall|k: EntityId| #[trigger] eaten.contains_key(k) <==> agars0.contains_key(k)
    &&& forall|k: EntityId| #[trigger]
        eaten.contains_key(k) ==> eaten[k].finite() && agars1[k].agar == grown_times(
            agars0[k].agar,
            AGAR_GROWTH,
            eaten[k].len(),
        )
    &&& forall|k: EntityId, f: EntityId|
        eaten.contains_key(k) && #[trigger] eaten[k].contains(f) ==> feeds0.contains_key(f)
            && !feeds1.contains_key(f) && touches(
            agars1[k].translation,
            agars1[k].agar.size,
            feeds0[f].translation,
        )
    &&& forall|f: EntityId| #[trigger]
        feeds0.contains_key(f) && !feeds1.contains_key(f) ==> exists|k: EntityId|
            eaten.contains_key(k) && #[trigger] eaten[k].contains(f)
    &&& forall|f: EntityId, k1: EntityId, k2: EntityId|
        eaten.contains_key(k1) && eaten.contains_key(k2) && #[trigger] eaten[k1].contains(f)
            && #[trigger] eaten[k2].contains(f) ==> k1 == k2
}

/// The answer to a feed request from `cursor`: the snapshot for cursor 0,
/// the compacted events from the cursor on otherwise.
pub open spec fn answers_request(log: FeedUpdates, cursor: u64, r: Seq<FeedUpdate>) -> bool {
    if cursor == 0 {
        r == log.snapshot_seq()
    } else {
        keys_unique(keyed(r)) && map_of(keyed(r)) == compacted(window(log.events(), cursor as int))
    }
}

/// The authoritative world: agars, feeds, the feed log, the broadcast frame
/// and the next id to hand out.
pub struct ServerState {
    agars: IdMap<ServerAgar>,
    feeds: IdMap<FeedUpdateSpawn>,
    log: FeedUpdates,
    broadcast: NetworkBroadcast,
    next_id: u32,
}

impl ServerState {
    pub closed spec fn agars_view(&self) -> Map<EntityId, ServerAgar> {
        self.agars@
    }

    pub closed spec fn feeds_view(&self) -> Map<EntityId, FeedUpdateSpawn> {
        self.feeds@
    }

    pub closed spec fn log_view(&self) -> FeedUpdates {
        self.log
    }

    pub closed spec fn frame_view(&self) -> u32 {
        self.broadcast.frame
    }

    pub closed spec fn next_id_view(&self) -> u32 {
        self.next_id
    }

    /// The world's feeds are the log's live set; every id in use is below
    /// the next one, each agar's speed limit is the one its size gives, and a
    /// connection steers at most one agar.
    pub closed spec fn wf(&self) -> bool {
        &&& self.agars.wf()
        &&& self.feeds.wf()
        &&& self.log.wf()
        &&& self.feeds@ == self.log.live()
        &&& forall|k: EntityId| #[trigger]
            self.agars@.contains_key(k) ==> k < self.next_id && speed_matches_size(
                self.agars@[k].agar,
            )
        &&& forall|k: EntityId| #[trigger] self.feeds@.contains_key(k) ==> k < self.next_id
        &&& forall|a: EntityId, b: EntityId|
            self.agars@.contains_key(a) && self.agars@.contains_key(b) && #[trigger] self.agars@[a].handle
                == #[trigger] self.agars@[b].handle ==> a == b
    }

    /// What every state of a well-formed server shows from outside.
    pub proof fn lemma_wf(&self)
        requires
            self.wf(),
        ensures
            self.log_view().wf(),
            self.feeds_view() == self.log_view().live(),
            forall|k: EntityId| #[trigger]
                self.agars_view().contains_key(k) ==> k < self.next_id_view()
                    && speed_matches_size(self.agars_view()[k].agar),
            forall|k: EntityId| #[trigger]
                self.feeds_view().contains_key(k) ==> k < self.next_id_view()
                    && self.feeds_view()[k].id == k,
    {
        self.log.lemma_wf();
    }

    pub fn new() -> (r: Self)
        ensures
            r.wf(),
            r.agars_view() == Map::<EntityId, ServerAgar>::empty(),
            r.feeds_view() == Map::<EntityId, FeedUpdateSpawn>::empty(),
            r.log_view().events() == Seq::<FeedUpdate>::empty(),
            r.frame_view() == 0,
            r.next_id_view() == 0,
    {
        ServerState {
            agars: IdMap::new(),
            feeds: IdMap::new(),
            log: FeedUpdates::new(),
            broadcast: NetworkBroadcast { frame: 0 },
            next_id: 0,
        }
    }

    /// The frame the next broadcast will carry.
    pub fn frame(&self) -> (r: u32)
        ensures
            r == self.frame_view(),
    {
        self.broadcast.frame
    }

    pub fn log(&self) -> (r: &FeedUpdates)
        ensures
            *r == self.log_view(),
    {
        &self.log
    }

    pub fn agar(&self, id: EntityId) -> (r: Option<ServerAgar>)
        ensures
            r == (if self.agars_view().contains_key(id) {
                Some(self.agars_view()[id])
            } else {
                None
            }),
    {
        match self.agars.get(id) {
            Some(a) => Some(*a),
            None => None,
        }
    }

    pub fn feed(&self, id: EntityId) -> (r: Option<FeedUpdateSpawn>)
        ensures
            r == (if self.feeds_view().contains_key(id) {
                Some(self.feeds_view()[id])
            } else {
                None
            }),
    {
        match self.feeds.get(id) {
            Some(f) => Some(*f),
            None => None,
        }
    }

    pub fn agar_count(&self) -> (r: usize)
        requires
            self.wf(),
        ensures
            r == self.agars_view().len(),
    {
        self.agars.len()
    }

    pub fn feed_count(&self) -> (r: usize)
        requires
            self.wf(),
        ensures
            r == self.feeds_view().len(),
    {
        self.feeds.len()
    }

    /// Puts a feed of the given colour at `pos` under the next id, and records
    /// its spawn; `None` once the ids are used up.
    pub fn spawn_feed_at(&mut self, color: FeedColor, pos: Point) -> (r: Option<EntityId>)
        requires
            old(self).wf(),
        ensures
            final(self).wf(),
            r is None <==> old(self).next_id_view() == u32::MAX,
            r is None ==> *final(self) == *old(self),
            r matches Some(id) ==> {
                &&& id == old(self).next_id_view()
                &&& final(self).next_id_view() == id + 1
                &&& final(self).feeds_view() == old(self).feeds_view().insert(
                    id,
                    FeedUpdateSpawn { id, color, translation: pos },
                )
                &&& final(self).log_view().events() == old(self).log_view().events().push(
                    FeedUpdate::Spawn(FeedUpdateSpawn { id, color, translation: pos }),
                )
                &&& final(self).log_view().total() == old(self).log_view().total() + 1
                &&& final(self).agars_view() == old(self).agars_view()
                &&& final(self).frame_view() == old(self).frame_view()
            },
    {
        if self.next_id == u32::MAX {
            return None;
        }
        let id = self.next_id;
        let spawn = FeedUpdateSpawn { id, color, translation: pos };
        self.log.spawn(spawn);
        self.feeds.insert(id, spawn);
        self.next_id = id + 1;
        Some(id)
    }

    /// Tops the live feeds up to the target count at random places, spawning
    /// none when the count is already there.
    pub fn feed_spawn_system(&mut self)
        requires
            old(self).wf(),
        ensures
            final(self).wf(),
            old(self).log_view().total() >= FEED_TARGET ==> *final(self) == *old(self),
            final(self).log_view().total() >= FEED_TARGET || final(self).next_id_view()
                == u32::MAX,
            old(self).log_view().total() < FEED_TARGET ==> final(self).log_view().total()
                <= FEED_TARGET,
            old(self).log_view().total() < FEED_TARGET && old(self).next_id_view() as int + (
            FEED_TARGET - old(self).log_view().total()) <= u32::MAX ==> final(self).log_view().total()
                == FEED_TARGET,
            final(self).agars_view() == old(self).agars_view(),
            final(self).frame_view() == old(self).frame_view(),
            forall|k: EntityId| #[trigger]
                old(self).feeds_view().contains_key(k) ==> final(self).feeds_view().contains_key(
                    k,
                ) && final(self).feeds_view()[k] == old(self).feeds_view()[k],
            forall|k: EntityId| #[trigger]
                final(self).feeds_view().contains_key(k) && !old(self).feeds_view().contains_key(
                    k,
                ) ==> {
                    let f = final(self).feeds_view()[k];
                    &&& k >= old(self).next_id_view()
                    &&& f.color == FeedColor::Blue
                    &&& 0 <= f.translation.x < WORLD_WIDTH
                    &&& 0 <= f.translation.y < WORLD_HEIGHT
                },
            old(self).log_view().events().is_prefix_of(final(self).log_view().events()),
            final(self).log_view().events().len() - old(self).log_view().events().len()
                == final(self).log_view().total() - old(self).log_view().total(),
            forall|i: int|
                old(self).log_view().events().len() <= i < final(self).log_view().events().len()
                    ==> {
                    let e = #[trigger] final(self).log_view().events()[i];
                    &&& e is Spawn
                    &&& !old(self).feeds_view().contains_key(e->Spawn_0.id)
                    &&& final(self).feeds_view().contains_key(e->Spawn_0.id)
                    &&& final(self).feeds_view()[e->Spawn_0.id] == e->Spawn_0
                },
    {
        loop
            invariant
                self.wf(),
                old(self).log.total() >= FEED_TARGET ==> *self == *old(self),
                old(self).log.total() < FEED_TARGET ==> self.log.total() <= FEED_TARGET,
                self.next_id as int - old(self).next_id as int == self.log.total() as int
                    - old(self).log.total() as int,
                self.agars@ == old(self).agars@,
                self.broadcast == old(self).broadcast,
                forall|k: EntityId| #[trigger]
                    old(self).feeds@.contains_key(k) ==> self.feeds@.contains_key(k)
                        && self.feeds@[k] == old(self).feeds@[k],
                forall|k: EntityId| #[trigger]
                    self.feeds@.contains_key(k) && !old(self).feeds@.contains_key(k) ==> {
                        let f = self.feeds@[k];
                        &&& k >= old(self).next_id
                        &&& f.color == FeedColor::Blue
                        &&& 0 <= f.translation.x < WORLD_WIDTH
                        &&& 0 <= f.translation.y < WORLD_HEIGHT
                    },
                old(self).log.events().is_prefix_of(self.log.events()),
                self.log.events().len() - old(self).log.events().len() == self.log.total()
                    - old(self).log.total(),
                forall|i: int|
                    old(self).log.events().len() <= i < self.log.events().len() ==> {
                        let e = #[trigger] self.log.events()[i];
                        &&& e is Spawn
                        &&& !old(self).feeds@.contains_key(e->Spawn_0.id)
                        &&& self.feeds@.contains_key(e->Spawn_0.id)
                        &&& self.feeds@[e->Spawn_0.id] == e->Spawn_0
                    },
            ensures
                self.log.total() >= FEED_TARGET || self.next_id == u32::MAX,
            decreases u32::MAX - self.next_id,
        {
            if self.log.total_feeds() >= FEED_TARGET {
                break ;
            }
            let pos = random_position();
            let ghost before = *self;
            match self.spawn_feed_at(FeedColor::Blue, pos) {
                Some(id) => {
                    proof {
                        let n0 = old(self).log.events().len();
                        assert forall|i: int|
                            n0 <= i < self.log.events().len() implies {
                            let e = #[trigger] self.log.events()[i];
                            &&& e is Spawn
                            &&& !old(self).feeds@.contains_key(e->Spawn_0.id)
                            &&& self.feeds@.contains_key(e->Spawn_0.id)
                            &&& self.feeds@[e->Spawn_0.id] == e->Spawn_0
                        } by {
                            if i < before.log.events().len() {
                                let e = before.log.events()[i];
                                assert(self.log.events()[i] == e);
                                assert(before.feeds@.contains_key(e->Spawn_0.id));
                                assert(e->Spawn_0.id != id);
                            } else {
                                before.log.lemma_wf();
                                assert(!before.feeds@.contains_key(id));
                            }
                        }
                        assert forall|j: int| 0 <= j < n0 implies old(self).log.events()[j]
                            == self.log.events()[j] by {
                            assert(old(self).log.events()[j] == before.log.events()[j]);
                        }
                        assert(old(self).log.events() =~= self.log.events().subrange(0, n0 as int));
                    }
                },
                None => {
                    break ;
                },
            }
        }
    }

    /// The agar that connection `handle` steers, if any.
    pub fn agar_of(&self, handle: NetworkHandle) -> (r: Option<EntityId>)
        requires
            self.wf(),
        ensures
            r matches Some(k) ==> self.agars_view().contains_key(k)
                && self.agars_view()[k].handle == handle,
            r is None ==> forall|k: EntityId| #[trigger]
                self.agars_view().contains_key(k) ==> self.agars_view()[k].handle != handle,
    {
        let n = self.agars.len();
        let mut j: usize = 0;
        while j < n
            invariant
                n == self.agars.entries().len(),
                j <= n,
                self.agars.wf(),
                forall|i: int| 0 <= i < j ==> self.agars.entries()[i].1.handle != handle,
            decreases n - j,
        {
            let entry = self.agars.entry(j);
            if entry.1.handle == handle {
                proof {
                    lemma_map_of_unique(self.agars.entries(), j as int);
                }
                return Some(entry.0);
            }
            j = j + 1;
        }
        proof {
            assert forall|k: EntityId| #[trigger]
                self.agars@.contains_key(k) implies self.agars@[k].handle != handle by {
                lemma_map_of_contains(self.agars.entries(), k);
                let i = choose|i: int|
                    0 <= i < self.agars.entries().len() && self.agars.entries()[i].0 == k;
                lemma_map_of_unique(self.agars.entries(), i);
            }
        }
        None
    }

    /// Maps connection `handle` to an agar at `pos`: the one it already
    /// steers, or a new one under the next id; `None` once the ids are used up.
    pub fn login_at(&mut self, handle: NetworkHandle, pos: Point) -> (r: Option<EntityId>)
        requires
            old(self).wf(),
        ensures
            final(self).wf(),
            final(self).feeds_view() == old(self).feeds_view(),
            final(self).log_view() == old(self).log_view(),
            final(self).frame_view() == old(self).frame_view(),
            r matches Some(id) ==> final(self).agars_view().contains_key(id)
                && final(self).agars_view()[id].handle == handle,
            (exists|k: EntityId| #[trigger]
                old(self).agars_view().contains_key(k) && old(self).agars_view()[k].handle
                    == handle) ==> *final(self) == *old(self) && r is Some,
            (forall|k: EntityId| #[trigger]
                old(self).agars_view().contains_key(k) ==> old(self).agars_view()[k].handle
                    != handle) ==> {
                &&& r is None <==> old(self).next_id_view() == u32::MAX
                &&& r is None ==> *final(self) == *old(self)
                &&& r matches Some(id) ==> {
                    &&& id == old(self).next_id_view()
                    &&& final(self).next_id_view() == id + 1
                    &&& final(self).agars_view() == old(self).agars_view().insert(
                        id,
                        fresh_agar(handle, pos),
                    )
                }
            },
    {
        match self.agar_of(handle) {
            Some(id) => {
                return Some(id);
            },
            None => {},
        }
        proof {
            assert forall|k: EntityId| #[trigger]
                self.agars@.contains_key(k) implies self.agars@[k].handle != handle by {
                assert(self.agars_view().contains_key(k));
            }
        }
        if self.next_id == u32::MAX {
            return None;
        }
        let id = self.next_id;
        let agar = Agar::new();
        proof {
            lemma_speed_cap_range(AGAR_INIT_SIZE);
        }
        let ghost before = self.agars@;
        self.agars.insert(id, ServerAgar { handle, agar, translation: pos });
        self.next_id = id + 1;
        proof {
            assert(self.agars@[id] == fresh_agar(handle, pos));
            assert(!before.contains_key(id));
            assert forall|a: EntityId, b: EntityId|
                self.agars@.contains_key(a) && self.agars@.contains_key(b)
                    && #[trigger] self.agars@[a].handle == #[trigger] self.agars@[b].handle implies a
                == b by {
                if a != id && b != id {
                    assert(before.contains_key(a) && before.contains_key(b));
                    assert(before[a].handle == before[b].handle);
                } else if a == id && b != id {
                    assert(before.contains_key(b));
                    assert(before[b].handle != handle);
                } else if a != id && b == id {
                    assert(before.contains_key(a));
                    assert(before[a].handle != handle);
                }
            }
        }
        Some(id)
    }

    /// Removes the agar that a lost connection steered, so that no entity is
    /// left orphaned; an unknown handle changes nothing.
    pub fn handle_disconnect(&mut self, handle: NetworkHandle) -> (r: Option<EntityId>)
        requires
            old(self).wf(),
        ensures
            final(self).wf(),
            final(self).feeds_view() == old(self).feeds_view(),
            final(self).log_view() == old(self).log_view(),
            final(self).frame_view() == old(self).frame_view(),
            final(self).next_id_view() == old(self).next_id_view(),
            r matches Some(k) ==> old(self).agars_view().contains_key(k)
                && old(self).agars_view()[k].handle == handle
                && final(self).agars_view() == old(self).agars_view().remove(k),
            r is None ==> final(self).agars_view() == old(self).agars_view() && forall|k: EntityId|
                #[trigger] old(self).agars_view().contains_key(k)
                    ==> old(self).agars_view()[k].handle != handle,
    {
        match self.agar_of(handle) {
            Some(k) => {
                self.agars.remove(k);
                Some(k)
            },
            None => None,
        }
    }

    /// Stores `vel` as the raw input of the agar that `handle` steers; an
    /// unknown handle changes nothing.
    pub fn handle_input(&mut self, handle: NetworkHandle, vel: Vec2)
        requires
            old(self).wf(),
        ensures
            final(self).wf(),
            final(self).agars_view() == steered(old(self).agars_view(), handle, vel),
            final(self).feeds_view() == old(self).feeds_view(),
            final(self).log_view() == old(self).log_view(),
            final(self).frame_view() == old(self).frame_view(),
            final(self).next_id_view() == old(self).next_id_view(),
    {
        match self.agar_of(handle) {
            Some(id) => {
                let a = *self.agars.get(id).unwrap();
                let b = ServerAgar { agar: Agar { velocity: vel, ..a.agar }, ..a };
                self.agars.insert(id, b);
                proof {
                    let before = old(self).agars@;
                    assert forall|k: EntityId| #[trigger]
                        self.agars@.contains_key(k) implies self.agars@[k] == steered(
                        before,
                        handle,
                        vel,
                    )[k] by {
                        if k != id {
                            assert(before[k].handle != before[id].handle);
                        }
                    }
                    assert(self.agars@ =~= steered(before, handle, vel));
                    assert forall|x: EntityId, y: EntityId|
                        self.agars@.contains_key(x) && self.agars@.contains_key(y)
                            && #[trigger] self.agars@[x].handle == #[trigger] self.agars@[y].handle implies x
                        == y by {
                        assert(before[x].handle == self.agars@[x].handle);
                        assert(before[y].handle == self.agars@[y].handle);
                    }
                }
            },
            None => {
                proof {
                    assert forall|k: EntityId| #[trigger]
                        self.agars@.contains_key(k) implies self.agars@[k] == steered(
                        old(self).agars@,
                        handle,
                        vel,
                    )[k] by {
                        assert(self.agars_view().contains_key(k));
                    }
                    assert(self.agars@ =~= steered(old(self).agars@, handle, vel));
                }
            },
        }
    }

    /// The feed history a client asks for from `cursor`.
    pub fn feed_request(&self, cursor: u64) -> (r: Vec<FeedUpdate>)
        requires
            self.wf(),
        ensures
            answers_request(self.log_view(), cursor, r@),
    {
        if cursor == 0 {
            self.log.snapshot()
        } else {
            let len = self.log.len();
            let from: usize = if cursor < len as u64 {
                cursor as usize
            } else {
                len
            };
            proof {
                assert(window(self.log.events(), from as int) == window(
                    self.log.events(),
                    cursor as int,
                ));
            }
            self.log.updates(from)
        }
    }

    /// Handles one message of the reliable channel from connection `handle`
    /// and returns the reply to send, if any: a login is acknowledged with
    /// the id of the connection's agar, input is stored, a feed request is
    /// answered, and anything else is dropped.
    pub fn handle_client_message(&mut self, handle: NetworkHandle, msg: ClientMessage) -> (r:
        Option<ClientMessage>)
        requires
            old(self).wf(),
        ensures
            final(self).wf(),
            final(self).feeds_view() == old(self).feeds_view(),
            final(self).log_view() == old(self).log_view(),
            final(self).frame_view() == old(self).frame_view(),
            match msg {
                ClientMessage::Login => match r {
                    Some(ClientMessage::LoginAck(id)) => {
                        &&& final(self).agars_view().contains_key(id)
                        &&& final(self).agars_view()[id].handle == handle
                        &&& (exists|k: EntityId| #[trigger]
                            old(self).agars_view().contains_key(k)
                                && old(self).agars_view()[k].handle == handle) ==> *final(self)
                            == *old(self)
                        &&& (forall|k: EntityId| #[trigger]
                            old(self).agars_view().contains_key(k)
                                ==> old(self).agars_view()[k].handle != handle) ==> {
                            &&& id == old(self).next_id_view()
                            &&& exists|p: Point|
                                0 <= p.x < WORLD_WIDTH && 0 <= p.y < WORLD_HEIGHT
                                    && #[trigger] final(self).agars_view() == old(
                                    self,
                                ).agars_view().insert(id, fresh_agar(handle, p))
                        }
                    },
                    None => old(self).next_id_view() == u32::MAX && *final(self) == *old(self),
                    _ => false,
                },
                ClientMessage::Input(v) => r is None && final(self).agars_view() == steered(
                    old(self).agars_view(),
                    handle,
                    v,
                ) && final(self).next_id_view() == old(self).next_id_view(),
                ClientMessage::FeedRequest(c) => *final(self) == *old(self) && match r {
                    Some(ClientMessage::FeedResponse(u)) => answers_request(
                        old(self).log_view(),
                        c,
                        u@,
                    ),
                    _ => false,
                },
                _ => r is None && *final(self) == *old(self),
            },
    {
        match msg {
            ClientMessage::Login => {
                let pos = random_position();
                match self.login_at(handle, pos) {
                    Some(id) => Some(ClientMessage::LoginAck(id)),
                    None => None,
                }
            },
            ClientMessage::Input(v) => {
                self.handle_input(handle, v);
                None
            },
            ClientMessage::FeedRequest(c) => {
                let u = self.feed_request(c);
                Some(ClientMessage::FeedResponse(u))
            },
            _ => None,
        }
    }

    /// Moves every agar for one tick of `dt_ms` milliseconds.
    pub fn movement_system(&mut self, dt_ms: u32)
        requires
            old(self).wf(),
        ensures
            final(self).wf(),
            final(self).agars_view() == Map::new(
                |k: EntityId| old(self).agars_view().contains_key(k),
                |k: EntityId| moved(old(self).agars_view()[k], dt_ms),
            ),
            final(self).feeds_view() == old(self).feeds_view(),
            final(self).log_view() == old(self).log_view(),
            final(self).frame_view() == old(self).frame_view(),
            final(self).next_id_view() == old(self).next_id_view(),
    {
        let ghost target = Map::new(
            |k: EntityId| old(self).agars@.contains_key(k),
            |k: EntityId| moved(old(self).agars@[k], dt_ms),
        );
        let mut next: IdMap<ServerAgar> = IdMap::new();
        let n = self.agars.len();
        let mut j: usize = 0;
        while j < n
            invariant
                n == self.agars.entries().len(),
                j <= n,
                self.agars == old(self).agars,
                self.agars.wf(),
                next.wf(),
                target == Map::new(
                    |k: EntityId| old(self).agars@.contains_key(k),
                    |k: EntityId| moved(old(self).agars@[k], dt_ms),
                ),
                forall|k: EntityId| #[trigger]
                    next@.contains_key(k) <==> has_key(self.agars.entries().take(j as int), k),
                forall|k: EntityId| #[trigger] next@.contains_key(k) ==> next@[k] == target[k],
            decreases n - j,
        {
            let entry = self.agars.entry(j);
            let a = entry.1;
            proof {
                lemma_map_of_unique(self.agars.entries(), j as int);
                assert forall|k: EntityId|
                    has_key(self.agars.entries().take(j + 1), k) <==> (has_key(
                        self.agars.entries().take(j as int),
                        k,
                    ) || self.agars.entries()[j as int].0 == k) by {
                    lemma_has_key_take(self.agars.entries(), j as int, k);
                }
            }
            let vel = input_to_velocity(&a.agar.velocity, a.agar.max_velocity);
            let p = move_agar(a.translation, vel, dt_ms);
            next.insert(entry.0, ServerAgar { translation: p, ..a });
            j = j + 1;
        }
        proof {
            assert(self.agars.entries().take(n as int) =~= self.agars.entries());
            assert forall|k: EntityId| #[trigger]
                target.contains_key(k) <==> has_key(self.agars.entries(), k) by {
                lemma_map_of_contains(self.agars.entries(), k);
            }
            assert(next@ =~= target);
        }
        self.agars = next;
    }

    /// Lets every agar consume the feeds it touches, growing by one unit for
    /// each, until none of the remaining feeds touches it. Each consumed feed
    /// leaves the world and is recorded as a despawn.
    pub fn feed_collision_system(&mut self)
        requires
            old(self).wf(),
        ensures
            final(self).wf(),
            final(self).frame_view() == old(self).frame_view(),
            final(self).next_id_view() == old(self).next_id_view(),
            forall|k: EntityId| #[trigger]
                final(self).agars_view().contains_key(k) <==> old(self).agars_view().contains_key(
                    k,
                ),
            forall|k: EntityId| #[trigger]
                old(self).agars_view().contains_key(k) ==> {
                    let a = old(self).agars_view()[k];
                    let b = final(self).agars_view()[k];
                    &&& b.handle == a.handle
                    &&& b.translation == a.translation
                    &&& b.agar.velocity == a.agar.velocity
                    &&& b.agar.size >= a.agar.size
                },
            forall|f: EntityId| #[trigger]
                final(self).feeds_view().contains_key(f) ==> old(self).feeds_view().contains_key(f)
                    && final(self).feeds_view()[f] == old(self).feeds_view()[f],
            forall|k: EntityId, f: EntityId|
                #![trigger final(self).agars_view()[k], final(self).feeds_view()[f]]
                final(self).agars_view().contains_key(k) && final(self).feeds_view().contains_key(f)
                    ==> !touches(
                    final(self).agars_view()[k].translation,
                    final(self).agars_view()[k].agar.size,
                    final(self).feeds_view()[f].translation,
                ),
            exists|eaten: Map<EntityId, Set<EntityId>>|
                consumed_as(
                    old(self).agars_view(),
                    old(self).feeds_view(),
                    final(self).agars_view(),
                    final(self).feeds_view(),
                    eaten,
                ),
            old(self).log_view().events().is_prefix_of(final(self).log_view().events()),
            forall|i: int|
                old(self).log_view().events().len() <= i < final(self).log_view().events().len()
                    ==> #[trigger] final(self).log_view().events()[i] is Despawn,
            final(self).log_view().events().len() - old(self).log_view().events().len()
                == old(self).feeds_view().len() - final(self).feeds_view().len(),
    {
        let ids = self.agar_ids();
        let ghost start = *self;
        let ghost mut eaten: Map<EntityId, Set<EntityId>> = Map::new(
            |k: EntityId| start.agars@.contains_key(k),
            |k: EntityId| Set::<EntityId>::empty(),
        );
        proof {
            assert forall|k: EntityId| #[trigger] eaten.contains_key(k) implies eaten[k].finite()
                && self.agars@[k].agar == grown_times(
                start.agars@[k].agar,
                AGAR_GROWTH,
                eaten[k].len(),
            ) by {
                assert(eaten[k].len() == 0);
            }
        }
        let mut i: usize = 0;
        while i < ids.len()
            invariant
                i <= ids@.len(),
                self.wf(),
                keys_unique(ids@.map_values(|k: EntityId| (k, ()))),
                forall|k: EntityId| #[trigger]
                    self.agars@.contains_key(k) <==> ids@.contains(k),
                forall|k: EntityId| #[trigger]
                    self.agars@.contains_key(k) <==> start.agars@.contains_key(k),
                self.broadcast == start.broadcast,
                self.next_id == start.next_id,
                forall|k: EntityId| #[trigger]
                    start.agars@.contains_key(k) ==> {
                        let a = start.agars@[k];
                        let b = self.agars@[k];
                        &&& b.handle == a.handle
                        &&& b.translation == a.translation
                        &&& b.agar.velocity == a.agar.velocity
                        &&& b.agar.size >= a.agar.size
                    },
                forall|k: EntityId| #[trigger]
                    start.agars@.contains_key(k) && !ids@.take(i as int).contains(k)
                        ==> self.agars@[k] == start.agars@[k],
                forall|f: EntityId| #[trigger]
                    self.feeds@.contains_key(f) ==> start.feeds@.contains_key(f)
                        && self.feeds@[f] == start.feeds@[f],
                forall|k: EntityId, f: EntityId|
                    #![trigger self.agars@[k], self.feeds@[f]]
                    ids@.take(i as int).contains(k) && self.feeds@.contains_key(f) ==> !touches(
                        self.agars@[k].translation,
                        self.agars@[k].agar.size,
                        self.feeds@[f].translation,
                    ),
                consumed_as(start.agars@, start.feeds@, self.agars@, self.feeds@, eaten),
                forall|k: EntityId| #[trigger]
                    start.agars@.contains_key(k) && !ids@.take(i as int).contains(k) ==> eaten[k]
                        == Set::<EntityId>::empty(),
                start.log.events().is_prefix_of(self.log.events()),
                forall|j: int|
                    start.log.events().len() <= j < self.log.events().len()
                        ==> #[trigger] self.log.events()[j] is Despawn,
                self.log.events().len() - start.log.events().len() == start.feeds@.len()
                    - self.feeds@.len(),
            decreases ids@.len() - i,
        {
            let id = ids[i];
            proof {
                assert(ids@.contains(id));
                assert(!ids@.take(i as int).contains(id)) by {
                    if ids@.take(i as int).contains(id) {
                        let j = choose|j: int| 0 <= j < i && ids@.take(i as int)[j] == id;
                        let m = ids@.map_values(|k: EntityId| (k, ()));
                        assert(m[j].0 == m[i as int].0);
                    }
                }
                assert(ids@.take(i + 1) =~= ids@.take(i as int).push(id));
            }
            let ghost before = *self;
            self.consume_for(id);
            proof {
                let taken = ids@.take(i + 1);
                assert forall|k: EntityId| #[trigger] start.agars@.contains_key(k) implies ({
                    let a = start.agars@[k];
                    let b = self.agars@[k];
                    &&& b.handle == a.handle
                    &&& b.translation == a.translation
                    &&& b.agar.velocity == a.agar.velocity
                    &&& b.agar.size >= a.agar.size
                }) by {
                    assert(before.agars@.contains_key(k));
                    if k != id {
                        assert(self.agars@[k] == before.agars@[k]);
                    }
                }
                assert forall|k: EntityId| #[trigger]
                    start.agars@.contains_key(k) && !taken.contains(k) implies self.agars@[k]
                    == start.agars@[k] by {
                    assert(before.agars@.contains_key(k));
                    assert(taken[i as int] == id);
                    assert(k != id);
                    assert(!ids@.take(i as int).contains(k)) by {
                        if ids@.take(i as int).contains(k) {
                            let j = choose|j: int| 0 <= j < i && ids@.take(i as int)[j] == k;
                            assert(taken[j] == k);
                        }
                    }
                    assert(self.agars@[k] == before.agars@[k]);
                }
                assert forall|k: EntityId, f: EntityId|
                    #![trigger self.agars@[k], self.feeds@[f]]
                    taken.contains(k) && self.feeds@.contains_key(f) implies !touches(
                    self.agars@[k].translation,
                    self.agars@[k].agar.size,
                    self.feeds@[f].translation,
                ) by {
                    if k != id {
                        let j = choose|j: int| 0 <= j < taken.len() && taken[j] == k;
                        assert(j < i);
                        assert(ids@.take(i as int)[j] == k);
                        assert(ids@.take(i as int).contains(k));
                        assert(before.feeds@.contains_key(f));
                        assert(before.agars@.contains_key(k));
                        assert(self.agars@[k] == before.agars@[k]);
                        assert(!touches(
                            before.agars@[k].translation,
                            before.agars@[k].agar.size,
                            before.feeds@[f].translation,
                        ));
                    }
                }
                let d = before.feeds@.dom().difference(self.feeds@.dom());
                let e0 = eaten;
                assert(before.agars@.contains_key(id));
                assert(start.agars@.contains_key(id));
                assert(!ids@.take(i as int).contains(id));
                assert(e0[id] == Set::<EntityId>::empty());
                eaten = e0.insert(id, d);
                assert forall|k: EntityId| #[trigger] eaten.contains_key(k) implies eaten[k].finite()
                    && self.agars@[k].agar == grown_times(
                    start.agars@[k].agar,
                    AGAR_GROWTH,
                    eaten[k].len(),
                ) by {
                    assert(before.agars@.contains_key(k));
                    if k != id {
                        assert(self.agars@[k] == before.agars@[k]);
                        assert(e0.contains_key(k));
                    } else {
                        assert(before.agars@[id] == start.agars@[id]);
                    }
                }
                assert forall|k: EntityId, f: EntityId|
                    eaten.contains_key(k) && #[trigger] eaten[k].contains(f) implies start.feeds@.contains_key(
                    f,
                ) && !self.feeds@.contains_key(f) && touches(
                    self.agars@[k].translation,
                    self.agars@[k].agar.size,
                    start.feeds@[f].translation,
                ) by {
                    assert(before.agars@.contains_key(k));
                    if k != id {
                        assert(e0.contains_key(k) && e0[k].contains(f));
                        assert(self.agars@[k] == before.agars@[k]);
                    } else {
                        assert(before.feeds@.contains_key(f));
                        assert(before.feeds@[f] == start.feeds@[f]);
                    }
                }
                assert forall|f: EntityId| #[trigger]
                    start.feeds@.contains_key(f) && !self.feeds@.contains_key(f) implies exists|
                    k: EntityId,
                | eaten.contains_key(k) && #[trigger] eaten[k].contains(f) by {
                    if before.feeds@.contains_key(f) {
                        assert(eaten.contains_key(id) && eaten[id].contains(f));
                    } else {
                        let k = choose|k: EntityId| e0.contains_key(k) && #[trigger] e0[k].contains(f);
                        assert(k != id);
                        assert(eaten.contains_key(k) && eaten[k].contains(f));
                    }
                }
                assert forall|f: EntityId, k1: EntityId, k2: EntityId|
                    eaten.contains_key(k1) && eaten.contains_key(k2) && #[trigger] eaten[k1].contains(f)
                        && #[trigger] eaten[k2].contains(f) implies k1 == k2 by {
                    if k1 != id && k2 != id {
                        assert(e0[k1].contains(f) && e0[k2].contains(f));
                    } else if k1 == id && k2 != id {
                        assert(e0[k2].contains(f));
                        assert(!before.feeds@.contains_key(f));
                    } else if k1 != id && k2 == id {
                        assert(e0[k1].contains(f));
                        assert(!before.feeds@.contains_key(f));
                    }
                }
                assert forall|k: EntityId| #[trigger]
                    start.agars@.contains_key(k) && !taken.contains(k) implies eaten[k]
                    == Set::<EntityId>::empty() by {
                    assert(taken[i as int] == id);
                    assert(!ids@.take(i as int).contains(k)) by {
                        if ids@.take(i as int).contains(k) {
                            let j = choose|j: int| 0 <= j < i && ids@.take(i as int)[j] == k;
                            assert(taken[j] == k);
                        }
                    }
                }
                assert(consumed_as(start.agars@, start.feeds@, self.agars@, self.feeds@, eaten));
                assert forall|j: int|
                    start.log.events().len() <= j < self.log.events().len() implies #[trigger] self.log.events()[j] is Despawn by {
                    if j < before.log.events().len() {
                        assert(self.log.events()[j] == before.log.events()[j]);
                    }
                }
                assert(start.log.events().is_prefix_of(self.log.events())) by {
                    assert forall|j: int| 0 <= j < start.log.events().len() implies start.log.events()[j]
                        == self.log.events()[j] by {
                        assert(start.log.events()[j] == before.log.events()[j]);
                        assert(before.log.events()[j] == self.log.events()[j]);
                    }
                    assert(start.log.events() =~= self.log.events().subrange(
                        0,
                        start.log.events().len() as int,
                    ));
                }
            }
            i = i + 1;
        }
        proof {
            assert(ids@.take(i as int) =~= ids@);
            assert(consumed_as(
                start.agars_view(),
                start.feeds_view(),
                self.agars_view(),
                self.feeds_view(),
                eaten,
            ));
        }
    }

    /// The ids of the agars, in their stored order.
    fn agar_ids(&self) -> (r: Vec<EntityId>)
        requires
            self.agars.wf(),
        ensures
            keys_unique(r@.map_values(|k: EntityId| (k, ()))),
            forall|k: EntityId| #[trigger] self.agars@.contains_key(k) <==> r@.contains(k),
    {
        let mut r: Vec<EntityId> = Vec::new();
        let n = self.agars.len();
        let mut j: usize = 0;
        while j < n
            invariant
                n == self.agars.entries().len(),
                j <= n,
                self.agars.wf(),
                r@ =~= self.agars.entries().take(j as int).map_values(
                    |e: (EntityId, ServerAgar)| e.0,
                ),
            decreases n - j,
        {
            let entry = self.agars.entry(j);
            r.push(entry.0);
            proof {
                assert(self.agars.entries().take(j + 1) =~= self.agars.entries().take(
                    j as int,
                ).push(self.agars.entries()[j as int]));
            }
            j = j + 1;
        }
        proof {
            assert(self.agars.entries().take(n as int) =~= self.agars.entries());
            let m = r@.map_values(|k: EntityId| (k, ()));
            assert forall|a: int, b: int| 0 <= a < b < m.len() implies m[a].0 != m[b].0 by {
                assert(m[a].0 == self.agars.entries()[a].0);
                assert(m[b].0 == self.agars.entries()[b].0);
            }
            assert forall|k: EntityId| #[trigger]
                self.agars@.contains_key(k) <==> r@.contains(k) by {
                lemma_map_of_contains(self.agars.entries(), k);
                if r@.contains(k) {
                    let i = choose|i: int| 0 <= i < r@.len() && r@[i] == k;
                    assert(self.agars.entries()[i].0 == k);
                }
                if has_key(self.agars.entries(), k) {
                    let i = choose|i: int|
                        0 <= i < self.agars.entries().len() && self.agars.entries()[i].0 == k;
                    assert(r@[i] == k);
                }
            }
        }
        r
    }

    /// Lets agar `id` consume feeds until none touches it.
    fn consume_for(&mut self, id: EntityId)
        requires
            old(self).wf(),
            old(self).agars@.contains_key(id),
        ensures
            final(self).wf(),
            forall|k: EntityId| #[trigger]
                final(self).agars@.contains_key(k) <==> old(self).agars@.contains_key(k),
            forall|k: EntityId| #[trigger]
                old(self).agars@.contains_key(k) && k != id ==> final(self).agars@[k] == old(
                    self,
                ).agars@[k],
            final(self).agars@[id].handle == old(self).agars@[id].handle,
            final(self).agars@[id].translation == old(self).agars@[id].translation,
            final(self).agars@[id].agar.velocity == old(self).agars@[id].agar.velocity,
            final(self).agars@[id].agar.size >= old(self).agars@[id].agar.size,
            final(self).broadcast == old(self).broadcast,
            final(self).next_id == old(self).next_id,
            forall|f: EntityId| #[trigger]
                final(self).feeds@.contains_key(f) ==> old(self).feeds@.contains_key(f)
                    && final(self).feeds@[f] == old(self).feeds@[f],
            forall|f: EntityId| #[trigger]
                final(self).feeds@.contains_key(f) ==> !touches(
                    final(self).agars@[id].translation,
                    final(self).agars@[id].agar.size,
                    final(self).feeds@[f].translation,
                ),
            forall|f: EntityId| #[trigger]
                old(self).feeds@.contains_key(f) && !final(self).feeds@.contains_key(f)
                    ==> touches(
                    final(self).agars@[id].translation,
                    final(self).agars@[id].agar.size,
                    old(self).feeds@[f].translation,
                ),
            old(self).log.events().is_prefix_of(final(self).log.events()),
            forall|j: int|
                old(self).log.events().len() <= j < final(self).log.events().len()
                    ==> #[trigger] final(self).log.events()[j] is Despawn,
            final(self).feeds@.len() <= old(self).feeds@.len(),
            final(self).log.events().len() - old(self).log.events().len() == old(self).feeds@.len()
                - final(self).feeds@.len(),
            old(self).feeds@.dom().difference(final(self).feeds@.dom()).finite(),
            final(self).agars@[id].agar == grown_times(
                old(self).agars@[id].agar,
                AGAR_GROWTH,
                old(self).feeds@.dom().difference(final(self).feeds@.dom()).len(),
            ),
    {
        let ghost start = *self;
        proof {
            assert(start.feeds@.dom().difference(self.feeds@.dom()) =~= Set::<EntityId>::empty());
        }
        loop
            invariant
                self.wf(),
                self.agars@.contains_key(id),
                forall|k: EntityId| #[trigger]
                    self.agars@.contains_key(k) <==> start.agars@.contains_key(k),
                forall|k: EntityId| #[trigger]
                    start.agars@.contains_key(k) && k != id ==> self.agars@[k] == start.agars@[k],
                self.agars@[id].handle == start.agars@[id].handle,
                self.agars@[id].translation == start.agars@[id].translation,
                self.agars@[id].agar.velocity == start.agars@[id].agar.velocity,
                self.agars@[id].agar.size >= start.agars@[id].agar.size,
                self.broadcast == start.broadcast,
                self.next_id == start.next_id,
                forall|f: EntityId| #[trigger]
                    self.feeds@.contains_key(f) ==> start.feeds@.contains_key(f)
                        && self.feeds@[f] == start.feeds@[f],
                forall|f: EntityId| #[trigger]
                    start.feeds@.contains_key(f) && !self.feeds@.contains_key(f) ==> touches(
                        self.agars@[id].translation,
                        self.agars@[id].agar.size,
                        start.feeds@[f].translation,
                    ),
                start.log.events().is_prefix_of(self.log.events()),
                forall|j: int|
                    start.log.events().len() <= j < self.log.events().len()
                        ==> #[trigger] self.log.events()[j] is Despawn,
                self.feeds@.len() <= start.feeds@.len(),
                self.log.events().len() - start.log.events().len() == start.feeds@.len()
                    - self.feeds@.len(),
                start.feeds@.dom().difference(self.feeds@.dom()).finite(),
                self.agars@[id].agar == grown_times(
                    start.agars@[id].agar,
                    AGAR_GROWTH,
                    start.feeds@.dom().difference(self.feeds@.dom()).len(),
                ),
            ensures
                forall|f: EntityId| #[trigger]
                    self.feeds@.contains_key(f) ==> !touches(
                        self.agars@[id].translation,
                        self.agars@[id].agar.size,
                        self.feeds@[f].translation,
                    ),
            decreases self.feeds.entries().len(),
        {
            let a = *self.agars.get(id).unwrap();
            match find_touching(&self.feeds, a.translation, a.agar.size) {
                None => {
                    break ;
                },
                Some(f) => {
                    let ghost before = *self;
                    proof {
                        self.log.lemma_wf();
                        lemma_map_of_len(self.feeds.entries());
                    }
                    self.log.despawn(f);
                    self.feeds.remove(f);
                    let mut b = a;
                    b.agar.grow(AGAR_GROWTH);
                    proof {
                        lemma_map_of_len(self.feeds.entries());
                        lemma_touches_grow(a.translation, a.agar.size, b.agar.size);
                    }
                    self.agars.insert(id, b);
                    proof {
                        before.feeds@.lemma_remove_key_len(f);
                        assert((start.feeds@.len() - self.feeds@.len()) as nat == (
                        start.feeds@.len() - before.feeds@.len()) as nat + 1);
                        assert(before.log.events().is_prefix_of(self.log.events()));
                        assert(self.log.events().last() is Despawn);
                        let d0 = start.feeds@.dom().difference(before.feeds@.dom());
                        let d1 = start.feeds@.dom().difference(self.feeds@.dom());
                        assert(start.feeds@.contains_key(f));
                        assert(!d0.contains(f));
                        assert(d1 =~= d0.insert(f));
                    }
                },
            }
        }
    }

    /// Builds the state message of this tick, stamped with the current frame,
    /// and advances the frame.
    pub fn broadcast(&mut self) -> (r: GameStateMessage)
        requires
            old(self).wf(),
        ensures
            final(self).wf(),
            r.frame == old(self).frame_view(),
            r.feeds == old(self).log_view().events().len(),
            keys_unique(r.agars@),
            map_of(r.agars@) == Map::new(
                |k: EntityId| old(self).agars_view().contains_key(k),
                |k: EntityId| update_of(old(self).agars_view()[k]),
            ),
            final(self).frame_view() == (if old(self).frame_view() < u32::MAX {
                (old(self).frame_view() + 1) as u32
            } else {
                old(self).frame_view()
            }),
            final(self).agars_view() == old(self).agars_view(),
            final(self).feeds_view() == old(self).feeds_view(),
            final(self).log_view() == old(self).log_view(),
            final(self).next_id_view() == old(self).next_id_view(),
    {
        let mut agars: Vec<(EntityId, AgarUpdate)> = Vec::new();
        let n = self.agars.len();
        let mut j: usize = 0;
        while j < n
            invariant
                n == self.agars.entries().len(),
                j <= n,
                self.agars.wf(),
                agars@ =~= self.agars.entries().take(j as int).map_values(
                    |e: (EntityId, ServerAgar)| (e.0, update_of(e.1)),
                ),
            decreases n - j,
        {
            let entry = self.agars.entry(j);
            agars.push((entry.0, AgarUpdate { agar: entry.1.agar, translation: entry.1.translation }));
            proof {
                assert(self.agars.entries().take(j + 1) =~= self.agars.entries().take(
                    j as int,
                ).push(self.agars.entries()[j as int]));
            }
            j = j + 1;
        }
        proof {
            let e = self.agars.entries();
            assert(e.take(n as int) =~= e);
            assert forall|a: int, b: int| 0 <= a < b < agars@.len() implies agars@[a].0
                != agars@[b].0 by {
                assert(agars@[a].0 == e[a].0 && agars@[b].0 == e[b].0);
            }
            assert forall|k: EntityId| #[trigger]
                map_of(agars@).contains_key(k) <==> self.agars@.contains_key(k) by {
                lemma_map_of_contains(agars@, k);
                lemma_map_of_contains(e, k);
                if has_key(agars@, k) {
                    let i = choose|i: int| 0 <= i < agars@.len() && agars@[i].0 == k;
                    assert(e[i].0 == k);
                }
                if has_key(e, k) {
                    let i = choose|i: int| 0 <= i < e.len() && e[i].0 == k;
                    assert(agars@[i].0 == k);
                }
            }
            assert forall|k: EntityId| #[trigger]
                map_of(agars@).contains_key(k) implies map_of(agars@)[k] == update_of(
                self.agars@[k],
            ) by {
                lemma_map_of_contains(agars@, k);
                let i = choose|i: int| 0 <= i < agars@.len() && agars@[i].0 == k;
                lemma_map_of_unique(agars@, i);
                lemma_map_of_unique(e, i);
            }
            assert(map_of(agars@) =~= Map::new(
                |k: EntityId| self.agars@.contains_key(k),
                |k: EntityId| update_of(self.agars@[k]),
            ));
        }
        let frame = self.broadcast.frame;
        if frame < u32::MAX {
            self.broadcast.frame = frame + 1;
        }
        GameStateMessage { frame, agars, feeds: self.log.len() as u64 }
    }

    /// One server tick, after the inbound messages have been handled: move
    /// the agars, resolve collisions, top the feeds up, and build the state
    /// message to broadcast.
    pub fn tick(&mut self, dt_ms: u32) -> (r: GameStateMessage)
        requires
            old(self).wf(),
        ensures
            final(self).wf(),
            r.frame == old(self).frame_view(),
            r.feeds == final(self).log_view().events().len(),
            keys_unique(r.agars@),
            map_of(r.agars@) == Map::new(
                |k: EntityId| final(self).agars_view().contains_key(k),
                |k: EntityId| update_of(final(self).agars_view()[k]),
            ),
            forall|k: EntityId| #[trigger]
                final(self).agars_view().contains_key(k) <==> old(self).agars_view().contains_key(
                    k,
                ),
            final(self).frame_view() == (if old(self).frame_view() < u32::MAX {
                (old(self).frame_view() + 1) as u32
            } else {
                old(self).frame_view()
            }),
            final(self).log_view().total() >= FEED_TARGET || final(self).next_id_view()
                == u32::MAX,
            forall|k: EntityId| #[trigger]
                old(self).agars_view().contains_key(k) ==> {
                    let a = moved(old(self).agars_view()[k], dt_ms);
                    let b = final(self).agars_view()[k];
                    &&& b.translation == a.translation
                    &&& b.handle == a.handle
                    &&& b.agar.velocity == a.agar.velocity
                },
            exists|eaten: Map<EntityId, Set<EntityId>>|
                consumed_as(
                    moved_all(old(self).agars_view(), dt_ms),
                    old(self).feeds_view(),
                    final(self).agars_view(),
                    final(self).feeds_view(),
                    eaten,
                ),
            forall|k: EntityId, f: EntityId|
                #![trigger final(self).agars_view()[k], final(self).feeds_view()[f]]
                final(self).agars_view().contains_key(k) && old(self).feeds_view().contains_key(f)
                    && final(self).feeds_view().contains_key(f) ==> !touches(
                    final(self).agars_view()[k].translation,
                    final(self).agars_view()[k].agar.size,
                    final(self).feeds_view()[f].translation,
                ),
    {
        let ghost s0 = *self;
        self.movement_system(dt_ms);
        let ghost s1 = *self;
        self.feed_collision_system();
        let ghost s2 = *self;
        self.feed_spawn_system();
        let ghost s3 = *self;
        let r = self.broadcast();
        proof {
            let m0 = moved_all(s0.agars_view(), dt_ms);
            assert(s1.agars_view() == m0);
            s0.lemma_wf();
            let eaten = choose|eaten: Map<EntityId, Set<EntityId>>|
                consumed_as(
                    s1.agars_view(),
                    s1.feeds_view(),
                    s2.agars_view(),
                    s2.feeds_view(),
                    eaten,
                );
            assert forall|f: EntityId| #[trigger]
                s0.feeds_view().contains_key(f) implies (self.feeds_view().contains_key(f)
                <==> s2.feeds_view().contains_key(f)) by {
                if self.feeds_view().contains_key(f) && !s2.feeds_view().contains_key(f) {
                    assert(f >= s2.next_id_view());
                }
            }
            assert(consumed_as(
                m0,
                s0.feeds_view(),
                self.agars_view(),
                self.feeds_view(),
                eaten,
            ));
            assert forall|k: EntityId| #[trigger]
                s0.agars_view().contains_key(k) implies {
                let a = moved(s0.agars_view()[k], dt_ms);
                let b = self.agars_view()[k];
                &&& b.translation == a.translation
                &&& b.handle == a.handle
                &&& b.agar.velocity == a.agar.velocity
            } by {
                assert(s1.agars_view().contains_key(k));
                assert(s1.agars_view()[k] == moved(s0.agars_view()[k], dt_ms));
                assert(s2.agars_view()[k] == self.agars_view()[k]);
            }
            assert forall|k: EntityId, f: EntityId|
                #![trigger self.agars_view()[k], self.feeds_view()[f]]
                self.agars_view().contains_key(k) && s0.feeds_view().contains_key(f)
                    && self.feeds_view().contains_key(f) implies !touches(
                self.agars_view()[k].translation,
                self.agars_view()[k].agar.size,
                self.feeds_view()[f].translation,
            ) by {
                assert(s2.feeds_view().contains_key(f));
                assert(s2.agars_view().contains_key(k));
                assert(s2.agars_view()[k] == self.agars_view()[k]);
                assert(s2.feeds_view()[f] == self.feeds_view()[f]);
            }
        }
        r
    }
}

/// Growing `n` times and then `m` times is growing `n + m` times.
proof fn lemma_grown_times_add(a: Agar, n: nat, m: nat)
    ensures
        grown_times(grown_times(a, AGAR_GROWTH, n), AGAR_GROWTH, m) == grown_times(
            a,
            AGAR_GROWTH,
            n + m,
        ),
    decreases m,
{
    if m > 0 {
        lemma_grown_times_add(a, n, (m - 1) as nat);
    }
}

/// A feed that touches an agar still touches it once the agar has grown.
proof fn lemma_touches_grow(p: Point, s1: u64, s2: u64)
    requires
        s1 <= s2,
    ensures
        forall|q: Point| touches(p, s1, q) ==> #[trigger] touches(p, s2, q),
{
    assert(s1 * s1 <= s2 * s2) by (nonlinear_arith)
        requires
            s1 <= s2,
    ;
}

/// Whether a feed at `q` lies strictly within distance `size` of `p`.
pub fn touches_at(p: Point, size: u64, q: Point) -> (r: bool)
    ensures
        r == touches(p, size, q),
{
    let dx: i128 = p.x as i128 - q.x as i128;
    let dy: i128 = p.y as i128 - q.y as i128;
    let ax: u128 = if dx >= 0 {
        dx as u128
    } else {
        (-dx) as u128
    };
    let ay: u128 = if dy >= 0 {
        dy as u128
    } else {
        (-dy) as u128
    };
    assert(ax * ax < 0x100000000000000000000000000000000 && ay * ay
        < 0x100000000000000000000000000000000) by (nonlinear_arith)
        requires
            ax < 0x10000000000000000,
            ay < 0x10000000000000000,
    ;
    let s = size as u128;
    assert(s * s < 0x100000000000000000000000000000000) by (nonlinear_arith)
        requires
            s < 0x10000000000000000,
    ;
    let dx2 = ax * ax;
    let dy2 = ay * ay;
    let s2 = s * s;
    proof {
        assert(dx * dx == dx2) by (nonlinear_arith)
            requires
                ax == dx || ax == -dx,
                dx2 == ax * ax,
        ;
        assert(dy * dy == dy2) by (nonlinear_arith)
            requires
                ay == dy || ay == -dy,
                dy2 == ay * ay,
        ;
    }
    if dx2 >= s2 {
        false
    } else {
        dy2 < s2 - dx2
    }
}

/// A feed that touches an agar at `p` of size `size`, if any.
fn find_touching(feeds: &IdMap<FeedUpdateSpawn>, p: Point, size: u64) -> (r: Option<EntityId>)
    requires
        feeds.wf(),
    ensures
        r matches Some(f) ==> feeds@.contains_key(f) && touches(p, size, feeds@[f].translation),
        r is None ==> forall|f: EntityId| #[trigger]
            feeds@.contains_key(f) ==> !touches(p, size, feeds@[f].translation),
{
    let n = feeds.len();
    let mut j: usize = 0;
    while j < n
        invariant
            n == feeds.entries().len(),
            j <= n,
            feeds.wf(),
            forall|i: int|
                0 <= i < j ==> !touches(p, size, #[trigger] feeds.entries()[i].1.translation),
        decreases n - j,
    {
        let entry = feeds.entry(j);
        if touches_at(p, size, entry.1.translation) {
            proof {
                lemma_map_of_unique(feeds.entries(), j as int);
            }
            return Some(entry.0);
        }
        j = j + 1;
    }
    proof {
        assert forall|f: EntityId| #[trigger] feeds@.contains_key(f) implies !touches(
            p,
            size,
            feeds@[f].translation,
        ) by {
            lemma_map_of_contains(feeds.entries(), f);
            let i = choose|i: int| 0 <= i < feeds.entries().len() && feeds.entries()[i].0 == f;
            lemma_map_of_unique(feeds.entries(), i);
        }
    }
    None
}

} // verus!
