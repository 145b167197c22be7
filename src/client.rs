use vstd::prelude::*;

use crate::feed_log::replay_from;
use crate::id_map::{
    has_key, keys_unique, lemma_has_key_take, lemma_map_of_contains, lemma_map_of_last,
    lemma_map_of_unique, map_of, IdMap,
};
use crate::model::{
    Agar, AgarUpdate, ClientMessage, FeedUpdate, FeedUpdateSpawn, GameStateMessage, Point,
    UpdateContext,
};
use crate::EntityId;

verus! {

/// A client's copy of an agar, stamped with the newest frame applied to it.
#[derive(Clone, Copy, Debug, PartialEq, Eq, Structural)]
pub struct MirroredAgar {
    pub context: UpdateContext,
    pub agar: Agar,
    pub translation: Point,
}

/// The mirror entry that an update of `id` from frame `frame` creates.
pub open spec fn mirrored(id: EntityId, frame: u32, u: AgarUpdate) -> MirroredAgar {
    MirroredAgar {
        context: UpdateContext { id, frame },
        agar: u.agar,
        translation: u.translation,
    }
}

/// The mirrored agars after one state message. An entity whose frame is at
/// least the message's keeps its state; an older one takes the message's
/// update, or is removed when the message does not hold it.
pub open spec fn mirror_after(m: Map<EntityId, MirroredAgar>, msg: GameStateMessage) -> Map<
    EntityId,
    MirroredAgar,
> {
    let incoming = map_of(msg.agars@);
    Map::new(
        |id: EntityId|
            m.contains_key(id) && (m[id].context.frame >= msg.frame || incoming.contains_key(
                id,
            )),
        |id: EntityId|
            if m[id].context.frame >= msg.frame {
                m[id]
            } else {
                mirrored(id, msg.frame, incoming[id])
            },
    )
}

/// The entities of `s` that `m` does not mirror, as they are to be spawned,
/// a later pair of an id overriding an earlier one.
pub open spec fn new_entries(
    m: Map<EntityId, MirroredAgar>,
    frame: u32,
    s: Seq<(EntityId, AgarUpdate)>,
) -> Map<EntityId, MirroredAgar>
    decreases s.len(),
{
    if s.len() == 0 {
        Map::empty()
    } else {
        let rest = new_entries(m, frame, s.drop_last());
        if m.contains_key(s.last().0) {
            rest
        } else {
            rest.insert(s.last().0, mirrored(s.last().0, frame, s.last().1))
        }
    }
}

/// The mirror and the spawn buffer after the messages of `msgs` in order,
/// from mirror `m` and buffer `b`.
pub open spec fn pass_state(
    m: Map<EntityId, MirroredAgar>,
    b: Map<EntityId, MirroredAgar>,
    msgs: Seq<GameStateMessage>,
) -> (Map<EntityId, MirroredAgar>, Map<EntityId, MirroredAgar>)
    decreases msgs.len(),
{
    if msgs.len() == 0 {
        (m, b)
    } else {
        let (m1, b1) = pass_state(m, b, msgs.drop_last());
        let msg = msgs.last();
        (mirror_after(m1, msg), b1.union_prefer_right(new_entries(m1, msg.frame, msg.agars@)))
    }
}

/// The mirror after one reconciliation pass over `msgs`: the updated
/// mirror, with the buffered new entities spawned once at the end.
pub open spec fn reconciled(m: Map<EntityId, MirroredAgar>, msgs: Seq<GameStateMessage>) -> Map<
    EntityId,
    MirroredAgar,
> {
    let (mn, bn) = pass_state(m, Map::empty(), msgs);
    mn.union_prefer_right(bn)
}

/// The feed counter after `msgs`, with the cursor of the feed request to
/// make: the counter before the first message that raised it.
pub open spec fn counter_after(counter: u64, request: Option<u64>, msgs: Seq<GameStateMessage>) -> (
    u64,
    Option<u64>,
)
    decreases msgs.len(),
{
    if msgs.len() == 0 {
        (counter, request)
    } else {
        let (c, r) = counter_after(counter, request, msgs.drop_last());
        if c < msgs.last().feeds {
            (msgs.last().feeds, if r is None {
                Some(c)
            } else {
                r
            })
        } else {
            (c, r)
        }
    }
}

/// Every entry is stored under the id of its own context.
pub open spec fn keyed_by_context(m: Map<EntityId, MirroredAgar>) -> bool {
    forall|k: EntityId| #[trigger] m.contains_key(k) ==> m[k].context.id == k
}

/// What a client mirrors of the world: agars, feeds, the feed counter and
/// the id of its own agar once the server has acknowledged the login.
pub struct ClientState {
    agars: IdMap<MirroredAgar>,
    feeds: IdMap<FeedUpdateSpawn>,
    feed_counter: u64,
    player: Option<EntityId>,
}

impl ClientState {
    pub closed spec fn agars_view(&self) -> Map<EntityId, MirroredAgar> {
        self.agars@
    }

    pub closed spec fn feeds_view(&self) -> Map<EntityId, FeedUpdateSpawn> {
        self.feeds@
    }

    pub closed spec fn counter(&self) -> u64 {
        self.feed_counter
    }

    pub closed spec fn player_view(&self) -> Option<EntityId> {
        self.player
    }

    /// Each id is mirrored once, under its own context.
    pub closed spec fn wf(&self) -> bool {
        &&& self.agars.wf()
        &&& self.feeds.wf()
        &&& keyed_by_context(self.agars@)
    }

    /// The mirrored agars in their stored order.
    pub closed spec fn agar_entries(&self) -> Seq<(EntityId, MirroredAgar)> {
        self.agars.entries()
    }

    /// Each mirrored agar is stored as one entry under its own id.
    pub proof fn lemma_wf(&self)
        requires
            self.wf(),
        ensures
            keys_unique(self.agar_entries()),
            map_of(self.agar_entries()) == self.agars_view(),
            keyed_by_context(self.agars_view()),
    {
    }

    pub fn new() -> (r: Self)
        ensures
            r.wf(),
            r.agars_view() == Map::<EntityId, MirroredAgar>::empty(),
            r.feeds_view() == Map::<EntityId, FeedUpdateSpawn>::empty(),
            r.counter() == 0,
            r.player_view() == None::<EntityId>,
    {
        ClientState { agars: IdMap::new(), feeds: IdMap::new(), feed_counter: 0, player: None }
    }

    /// The id of this client's own agar, once acknowledged.
    pub fn player_id(&self) -> (r: Option<EntityId>)
        ensures
            r == self.player_view(),
    {
        self.player
    }

    /// The server's feed counter as last seen.
    pub fn feed_counter(&self) -> (r: u64)
        ensures
            r == self.counter(),
    {
        self.feed_counter
    }

    pub fn agar(&self, id: EntityId) -> (r: Option<MirroredAgar>)
        ensures
            r == (if self.agars_view().contains_key(id) {
                Some(self.agars_view()[id])
            } else {
                None
            }),
    {
        match self.agars.get(id) {
            Some(a) => Some(*a),
            None => None,
        }
    }

    pub fn agar_count(&self) -> (r: usize)
        requires
            self.wf(),
        ensures
            r == self.agars_view().len(),
    {
        self.agars.len()
    }

    pub fn feed(&self, id: EntityId) -> (r: Option<FeedUpdateSpawn>)
        ensures
            r == (if self.feeds_view().contains_key(id) {
                Some(self.feeds_view()[id])
            } else {
                None
            }),
    {
        match self.feeds.get(id) {
            Some(f) => Some(*f),
            None => None,
        }
    }

    pub fn feed_count(&self) -> (r: usize)
        requires
            self.wf(),
        ensures
            r == self.feeds_view().len(),
    {
        self.feeds.len()
    }

    /// Applies a message of the reliable channel: a login acknowledgement
    /// records the player's id, a feed response is replayed in order onto the
    /// mirrored feeds, and anything else is ignored.
    pub fn handle_reliable(&mut self, msg: ClientMessage)
        requires
            old(self).wf(),
        ensures
            final(self).wf(),
            final(self).agars_view() == old(self).agars_view(),
            final(self).counter() == old(self).counter(),
            final(self).player_view() == (match msg {
                ClientMessage::LoginAck(id) => Some(id),
                _ => old(self).player_view(),
            }),
            final(self).feeds_view() == (match msg {
                ClientMessage::FeedResponse(u) => replay_from(old(self).feeds_view(), u@),
                _ => old(self).feeds_view(),
            }),
    {
        match msg {
            ClientMessage::LoginAck(id) => {
                self.player = Some(id);
            },
            ClientMessage::FeedResponse(updates) => {
                self.apply_feed_updates(&updates);
            },
            _ => {},
        }
    }

    /// Replays feed events onto the mirrored feeds.
    pub fn apply_feed_updates(&mut self, updates: &Vec<FeedUpdate>)
        requires
            old(self).wf(),
        ensures
            final(self).wf(),
            final(self).feeds_view() == replay_from(old(self).feeds_view(), updates@),
            final(self).agars_view() == old(self).agars_view(),
            final(self).counter() == old(self).counter(),
            final(self).player_view() == old(self).player_view(),
    {
        let mut i: usize = 0;
        while i < updates.len()
            invariant
                i <= updates@.len(),
                self.wf(),
                self.feeds@ == replay_from(old(self).feeds_view(), updates@.take(i as int)),
                self.agars == old(self).agars,
                self.feed_counter == old(self).feed_counter,
                self.player == old(self).player,
            decreases updates@.len() - i,
        {
            match updates[i] {
                FeedUpdate::Spawn(s) => {
                    self.feeds.insert(s.id, s);
                },
                FeedUpdate::Despawn(id) => {
                    self.feeds.remove(id);
                },
            }
            proof {
                assert(updates@.take(i + 1).drop_last() =~= updates@.take(i as int));
            }
            i = i + 1;
        }
        proof {
            assert(updates@.take(i as int) =~= updates@);
        }
    }

    /// Merges a batch of state messages into the mirror, in order, and
    /// returns the cursor of the feed request to make, if the server reported
    /// more feed history than this client has.
    pub fn reconcile(&mut self, messages: &Vec<GameStateMessage>) -> (r: Option<u64>)
        requires
            old(self).wf(),
        ensures
            final(self).wf(),
            final(self).agars_view() == reconciled(old(self).agars_view(), messages@),
            (final(self).counter(), r) == counter_after(old(self).counter(), None, messages@),
            final(self).feeds_view() == old(self).feeds_view(),
            final(self).player_view() == old(self).player_view(),
    {
        let ghost m0 = self.agars@;
        let mut buffer: IdMap<MirroredAgar> = IdMap::new();
        let mut request: Option<u64> = None;
        let mut i: usize = 0;
        while i < messages.len()
            invariant
                i <= messages@.len(),
                self.wf(),
                buffer.wf(),
                keyed_by_context(buffer@),
                (self.agars@, buffer@) == pass_state(
                    m0,
                    Map::empty(),
                    messages@.take(i as int),
                ),
                (self.feed_counter, request) == counter_after(
                    old(self).counter(),
                    None,
                    messages@.take(i as int),
                ),
                self.feeds == old(self).feeds,
                self.player == old(self).player,
            decreases messages@.len() - i,
        {
            let msg = &messages[i];
            proof {
                assert(messages@.take(i + 1).drop_last() =~= messages@.take(i as int));
            }
            buffer_new(&self.agars, &mut buffer, msg);
            let next = mirror_step(&self.agars, msg);
            self.agars = next;
            if self.feed_counter < msg.feeds {
                if request.is_none() {
                    request = Some(self.feed_counter);
                }
                self.feed_counter = msg.feeds;
            }
            i = i + 1;
        }
        proof {
            assert(messages@.take(i as int) =~= messages@);
            assert((self.feed_counter, request) == counter_after(
                old(self).counter(),
                None,
                messages@,
            ));
        }
        let ghost mn = self.agars@;
        let ghost final_counter = self.feed_counter;
        let n = buffer.len();
        let mut j: usize = 0;
        while j < n
            invariant
                n == buffer.entries().len(),
                j <= n,
                buffer.wf(),
                keyed_by_context(buffer@),
                self.wf(),
                self.agars@ == mn.union_prefer_right(map_of(buffer.entries().take(j as int))),
                self.feeds == old(self).feeds,
                self.player == old(self).player,
                self.feed_counter == final_counter,
            decreases n - j,
        {
            let entry = buffer.entry(j);
            proof {
                lemma_map_of_unique(buffer.entries(), j as int);
                assert(buffer.entries().take(j + 1).drop_last() =~= buffer.entries().take(
                    j as int,
                ));
                assert(self.agars@.insert(entry.0, entry.1) =~= mn.union_prefer_right(
                    map_of(buffer.entries().take(j + 1)),
                ));
            }
            self.agars.insert(entry.0, entry.1);
            j = j + 1;
        }
        proof {
            assert(buffer.entries().take(n as int) =~= buffer.entries());
        }
        request
    }
}

/// The last update of `id` in a message's pairs.
fn find_update(s: &Vec<(EntityId, AgarUpdate)>, id: EntityId) -> (r: Option<AgarUpdate>)
    ensures
        r == (if map_of(s@).contains_key(id) {
            Some(map_of(s@)[id])
        } else {
            None
        }),
{
    let mut i: usize = s.len();
    while i > 0
        invariant
            i <= s@.len(),
            forall|j: int| i <= j < s@.len() ==> s@[j].0 != id,
        decreases i,
    {
        i = i - 1;
        if s[i].0 == id {
            proof {
                lemma_map_of_last(s@, i as int);
            }
            return Some(s[i].1);
        }
    }
    proof {
        lemma_map_of_contains(s@, id);
    }
    None
}

/// The mirror after one state message.
fn mirror_step(current: &IdMap<MirroredAgar>, msg: &GameStateMessage) -> (next: IdMap<
    MirroredAgar,
>)
    requires
        current.wf(),
        keyed_by_context(current@),
    ensures
        next.wf(),
        keyed_by_context(next@),
        next@ == mirror_after(current@, *msg),
{
    let ghost target = mirror_after(current@, *msg);
    let mut next: IdMap<MirroredAgar> = IdMap::new();
    let n = current.len();
    let mut j: usize = 0;
    while j < n
        invariant
            n == current.entries().len(),
            j <= n,
            current.wf(),
            keyed_by_context(current@),
            target == mirror_after(current@, *msg),
            next.wf(),
            forall|k: EntityId| #[trigger]
                next@.contains_key(k) <==> (has_key(current.entries().take(j as int), k)
                    && target.contains_key(k)),
            forall|k: EntityId| #[trigger] next@.contains_key(k) ==> next@[k] == target[k],
        decreases n - j,
    {
        let entry = current.entry(j);
        let id = entry.0;
        let e = entry.1;
        proof {
            lemma_map_of_unique(current.entries(), j as int);
            assert forall|k: EntityId|
                has_key(current.entries().take(j + 1), k) <==> (has_key(
                    current.entries().take(j as int),
                    k,
                ) || current.entries()[j as int].0 == k) by {
                lemma_has_key_take(current.entries(), j as int, k);
            }
        }
        match find_update(&msg.agars, id) {
            Some(u) => {
                if e.context.frame >= msg.frame {
                    next.insert(id, e);
                } else {
                    next.insert(
                        id,
                        MirroredAgar {
                            context: UpdateContext { id, frame: msg.frame },
                            agar: u.agar,
                            translation: u.translation,
                        },
                    );
                }
            },
            None => {
                if e.context.frame >= msg.frame {
                    next.insert(id, e);
                }
            },
        }
        j = j + 1;
    }
    proof {
        assert(current.entries().take(n as int) =~= current.entries());
        assert forall|k: EntityId| #[trigger] target.contains_key(k) implies has_key(
            current.entries(),
            k,
        ) by {
            lemma_map_of_contains(current.entries(), k);
        }
        assert(next@ =~= target);
    }
    next
}

/// Buffers the entities of `msg` that `current` does not mirror.
fn buffer_new(
    current: &IdMap<MirroredAgar>,
    buffer: &mut IdMap<MirroredAgar>,
    msg: &GameStateMessage,
)
    requires
        old(buffer).wf(),
        keyed_by_context(old(buffer)@),
    ensures
        final(buffer).wf(),
        keyed_by_context(final(buffer)@),
        final(buffer)@ == old(buffer)@.union_prefer_right(
            new_entries(current@, msg.frame, msg.agars@),
        ),
{
    let mut i: usize = 0;
    while i < msg.agars.len()
        invariant
            i <= msg.agars@.len(),
            buffer.wf(),
            keyed_by_context(buffer@),
            buffer@ == old(buffer)@.union_prefer_right(
                new_entries(current@, msg.frame, msg.agars@.take(i as int)),
            ),
        decreases msg.agars@.len() - i,
    {
        let (id, u) = msg.agars[i];
        proof {
            assert(msg.agars@.take(i + 1).drop_last() =~= msg.agars@.take(i as int));
        }
        if !current.contains_key(id) {
            let ghost before = buffer@;
            buffer.insert(
                id,
                MirroredAgar {
                    context: UpdateContext { id, frame: msg.frame },
                    agar: u.agar,
                    translation: u.translation,
                },
            );
            proof {
                assert(buffer@ =~= old(buffer)@.union_prefer_right(
                    new_entries(current@, msg.frame, msg.agars@.take(i + 1)),
                ));
            }
        }
        i = i + 1;
    }
    proof {
        assert(msg.agars@.take(i as int) =~= msg.agars@);
    }
}

/// A state message never lowers the frame of an entity it leaves mirrored,
/// and a message no newer than an entity's frame leaves that entity as it was.
pub proof fn lemma_message_frame_monotonic(
    m: Map<EntityId, MirroredAgar>,
    msg: GameStateMessage,
    id: EntityId,
)
    requires
        m.contains_key(id),
    ensures
        mirror_after(m, msg).contains_key(id) ==> mirror_after(m, msg)[id].context.frame
            >= m[id].context.frame,
        m[id].context.frame >= msg.frame ==> mirror_after(m, msg).contains_key(id)
            && mirror_after(m, msg)[id] == m[id],
{
}

/// The mirror part of a pass only keeps or updates entities mirrored before.
pub proof fn lemma_pass_mirror_subset(
    m: Map<EntityId, MirroredAgar>,
    b: Map<EntityId, MirroredAgar>,
    msgs: Seq<GameStateMessage>,
    id: EntityId,
)
    ensures
        pass_state(m, b, msgs).0.contains_key(id) ==> m.contains_key(id),
    decreases msgs.len(),
{
    if msgs.len() > 0 {
        lemma_pass_mirror_subset(m, b, msgs.drop_last(), id);
    }
}

/// Over a pass, an entity that stays mirrored throughout never sees its
/// frame lowered, and one that is not spawned anew at the end of the pass
/// keeps a frame at least as new as before.
pub proof fn lemma_frames_monotonic(
    m: Map<EntityId, MirroredAgar>,
    msgs: Seq<GameStateMessage>,
    id: EntityId,
)
    requires
        m.contains_key(id),
    ensures
        pass_state(m, Map::empty(), msgs).0.contains_key(id) ==> pass_state(
            m,
            Map::empty(),
            msgs,
        ).0[id].context.frame >= m[id].context.frame,
        reconciled(m, msgs).contains_key(id) && !pass_state(m, Map::empty(), msgs).1.contains_key(
            id,
        ) ==> reconciled(m, msgs)[id].context.frame >= m[id].context.frame,
    decreases msgs.len(),
{
    if msgs.len() > 0 {
        let p = msgs.drop_last();
        lemma_frames_monotonic(m, p, id);
        let m1 = pass_state(m, Map::empty(), p).0;
        if m1.contains_key(id) {
            lemma_message_frame_monotonic(m1, msgs.last(), id);
        }
    }
}

/// The spawn entries of a message are its ids that are not mirrored, each
/// under its own context.
pub proof fn lemma_new_entries_contains(
    m: Map<EntityId, MirroredAgar>,
    frame: u32,
    s: Seq<(EntityId, AgarUpdate)>,
    id: EntityId,
)
    ensures
        new_entries(m, frame, s).contains_key(id) <==> (!m.contains_key(id) && has_key(s, id)),
        new_entries(m, frame, s).contains_key(id) ==> new_entries(m, frame, s)[id].context.id
            == id,
    decreases s.len(),
{
    if s.len() > 0 {
        let p = s.drop_last();
        lemma_new_entries_contains(m, frame, p, id);
        if has_key(p, id) {
            let i = choose|i: int| 0 <= i < p.len() && p[i].0 == id;
            assert(s[i].0 == id);
        }
        if has_key(s, id) && s.last().0 != id {
            let i = choose|i: int| 0 <= i < s.len() && s[i].0 == id;
            assert(p[i].0 == id);
        }
    }
}

proof fn lemma_pass_buffer_keeps(
    m: Map<EntityId, MirroredAgar>,
    msgs: Seq<GameStateMessage>,
    i: int,
    id: EntityId,
)
    requires
        !m.contains_key(id),
        0 <= i < msgs.len(),
        map_of(msgs[i].agars@).contains_key(id),
    ensures
        pass_state(m, Map::empty(), msgs).1.contains_key(id),
        pass_state(m, Map::empty(), msgs).1[id].context.id == id,
    decreases msgs.len(),
{
    let p = msgs.drop_last();
    let (m1, b1) = pass_state(m, Map::empty(), p);
    let msg = msgs.last();
    lemma_pass_mirror_subset(m, Map::empty(), p, id);
    lemma_new_entries_contains(m1, msg.frame, msg.agars@, id);
    if i < msgs.len() - 1 {
        assert(p[i] == msgs[i]);
        lemma_pass_buffer_keeps(m, p, i, id);
    } else {
        lemma_map_of_contains(msg.agars@, id);
    }
}

/// However often a batch repeats an id the mirror does not hold, the pass
/// ends with that id mirrored, as one entity under its own context.
pub proof fn lemma_spawn_once(
    m: Map<EntityId, MirroredAgar>,
    msgs: Seq<GameStateMessage>,
    i: int,
    id: EntityId,
)
    requires
        !m.contains_key(id),
        0 <= i < msgs.len(),
        map_of(msgs[i].agars@).contains_key(id),
    ensures
        reconciled(m, msgs).contains_key(id),
        reconciled(m, msgs)[id].context.id == id,
        !pass_state(m, Map::empty(), msgs).0.contains_key(id),
{
    lemma_pass_buffer_keeps(m, msgs, i, id);
    lemma_pass_mirror_subset(m, Map::empty(), msgs, id);
}

/// A spawn entry carries the message's last update of its id.
pub proof fn lemma_new_entries_value(
    m: Map<EntityId, MirroredAgar>,
    frame: u32,
    s: Seq<(EntityId, AgarUpdate)>,
    id: EntityId,
)
    requires
        new_entries(m, frame, s).contains_key(id),
    ensures
        map_of(s).contains_key(id),
        new_entries(m, frame, s)[id] == mirrored(id, frame, map_of(s)[id]),
    decreases s.len(),
{
    let p = s.drop_last();
    lemma_new_entries_contains(m, frame, s, id);
    if s.last().0 == id {
    } else {
        lemma_new_entries_value(m, frame, p, id);
    }
}

/// A pass that meets an id the mirror does not hold spawns it with the frame
/// and the update of the last message of the batch that holds it.
pub proof fn lemma_spawn_from_last(
    m: Map<EntityId, MirroredAgar>,
    msgs: Seq<GameStateMessage>,
    i: int,
    id: EntityId,
)
    requires
        !m.contains_key(id),
        0 <= i < msgs.len(),
        map_of(msgs[i].agars@).contains_key(id),
        forall|j: int| i < j < msgs.len() ==> !map_of(#[trigger] msgs[j].agars@).contains_key(id),
    ensures
        reconciled(m, msgs).contains_key(id),
        reconciled(m, msgs)[id] == mirrored(id, msgs[i].frame, map_of(msgs[i].agars@)[id]),
        pass_state(m, Map::empty(), msgs).1[id] == mirrored(
            id,
            msgs[i].frame,
            map_of(msgs[i].agars@)[id],
        ),
    decreases msgs.len(),
{
    let p = msgs.drop_last();
    let (m1, b1) = pass_state(m, Map::empty(), p);
    let msg = msgs.last();
    lemma_pass_mirror_subset(m, Map::empty(), p, id);
    lemma_pass_mirror_subset(m, Map::empty(), msgs, id);
    lemma_pass_buffer_keeps(m, msgs, i, id);
    lemma_new_entries_contains(m1, msg.frame, msg.agars@, id);
    lemma_map_of_contains(msg.agars@, id);
    if i == msgs.len() - 1 {
        lemma_new_entries_value(m1, msg.frame, msg.agars@, id);
    } else {
        assert forall|j: int| i < j < p.len() implies !map_of(#[trigger] p[j].agars@).contains_key(
            id,
        ) by {
            assert(p[j] == msgs[j]);
        }
        assert(p[i] == msgs[i]);
        lemma_spawn_from_last(m, p, i, id);
    }
}

} // verus!
