use vstd::prelude::*;

use crate::EntityId;

verus! {

/// Lengths are counted in thousandths of a world unit throughout the library.
pub const UNIT: i64 = 1000;

/// Size of a freshly spawned agar: fifteen world units.
pub const AGAR_INIT_SIZE: u64 = 15000;

/// Nominal largest size of an agar: five hundred world units.
pub const AGAR_MAX_SIZE: u64 = 500000;

/// How much an agar grows for each feed it consumes: one world unit.
pub const AGAR_GROWTH: u64 = 1000;

/// Size of the client window: a thousand world units on each side.
pub const WINDOW_WIDTH: i64 = 1000000;

pub const WINDOW_HEIGHT: i64 = 1000000;

/// Size of the world: two thousand world units on each side.
pub const WORLD_WIDTH: i64 = 2000000;

pub const WORLD_HEIGHT: i64 = 2000000;

/// Number of live feeds the server keeps topped up.
pub const FEED_TARGET: usize = 100;

#[derive(Clone, Copy, Debug, PartialEq, Eq, Structural)]
pub enum FeedColor {
    Red,
    Green,
    Blue,
}

/// A point or displacement in the plane, in thousandths of a world unit.
#[derive(Clone, Copy, Debug, PartialEq, Eq, Structural)]
pub struct Point {
    pub x: i64,
    pub y: i64,
}

/// The raw input vector a player sends: a pointer position in the client
/// window, in thousandths of a world unit.
#[derive(Clone, Copy, Debug, PartialEq, Eq, Structural)]
pub struct Vec2 {
    pub x: i32,
    pub y: i32,
}

/// The frame counter of the server's broadcast.
#[derive(Clone, Copy, Debug, PartialEq, Eq, Structural)]
pub struct NetworkBroadcast {
    pub frame: u32,
}

#[derive(Clone, Copy, Debug, PartialEq, Eq, Structural)]
pub struct FeedUpdateSpawn {
    pub id: EntityId,
    pub color: FeedColor,
    pub translation: Point,
}

/// One event of the feed log.
#[derive(Clone, Copy, Debug, PartialEq, Eq, Structural)]
pub enum FeedUpdate {
    Spawn(FeedUpdateSpawn),
    Despawn(EntityId),
}

/// The id an event of the feed log is about.
pub open spec fn update_id(u: FeedUpdate) -> EntityId {
    match u {
        FeedUpdate::Spawn(s) => s.id,
        FeedUpdate::Despawn(id) => id,
    }
}

/// A player's blob. `size` is its radius; `velocity` is the raw input vector,
/// which is limited to `max_velocity` only when it is turned into motion.
#[derive(Clone, Copy, Debug, PartialEq, Eq, Structural)]
pub struct Agar {
    pub size: u64,
    pub velocity: Vec2,
    pub max_velocity: u64,
}

#[derive(Clone, Copy, Debug, PartialEq, Eq, Structural)]
pub struct AgarUpdate {
    pub agar: Agar,
    pub translation: Point,
}

/// The state the server broadcasts once per tick. `agars` is read as a map:
/// a later pair of an id overrides an earlier one.
#[derive(Clone, Debug)]
pub struct GameStateMessage {
    pub frame: u32,
    pub agars: Vec<(EntityId, AgarUpdate)>,
    pub feeds: u64,
}

/// The messages of the reliable channel, both ways.
#[derive(Clone, Debug)]
pub enum ClientMessage {
    Login,
    LoginAck(EntityId),
    Input(Vec2),
    FeedRequest(u64),
    FeedResponse(Vec<FeedUpdate>),
}

/// The transport's handle of a connection.
#[derive(Clone, Copy, Debug, PartialEq, Eq, Structural)]
pub struct NetworkHandle {
    pub id: u32,
}

impl NetworkHandle {
    pub fn new(id: u32) -> (r: Self)
        ensures
            r.id == id,
    {
        NetworkHandle { id }
    }
}

/// What a client knows of a mirrored entity: its id and the newest frame
/// applied to it.
#[derive(Clone, Copy, Debug, PartialEq, Eq, Structural)]
pub struct UpdateContext {
    pub id: EntityId,
    pub frame: u32,
}

#[derive(Clone, Copy, Debug, PartialEq, Eq, Structural)]
pub struct Feed {
    pub color: FeedColor,
}

} // verus!
