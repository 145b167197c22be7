use vstd::prelude::*;

pub mod client;
pub mod feed_log;
pub mod growth;
pub mod id_map;
pub mod model;
pub mod motion;
pub mod random;
pub mod server;

pub use growth::max_velocity;
pub use model::{
    Agar, AgarUpdate, ClientMessage, Feed, FeedColor, FeedUpdate, FeedUpdateSpawn,
    GameStateMessage, NetworkBroadcast, NetworkHandle, Point, UpdateContext, Vec2,
};
pub use motion::input_to_velocity;

verus! {

/// Identifier the server gives every simulated entity.
pub type EntityId = u32;

} // verus!
