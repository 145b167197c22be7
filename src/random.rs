use vstd::prelude::*;

use rand::Rng;

use crate::model::{Point, WORLD_HEIGHT, WORLD_WIDTH};

verus! {

/// Relies on `rand::Rng::gen_range` over `rand::thread_rng()`: a draw from
/// the half-open range `0..bound`, which panics only when the range is empty.
#[verifier::external_body]
fn random_below(bound: u64) -> (r: u64)
    requires
        bound > 0,
    ensures
        r < bound,
{
    rand::thread_rng().gen_range(0..bound)
}

/// A random point of the world.
pub fn random_position() -> (r: Point)
    ensures
        0 <= r.x < WORLD_WIDTH,
        0 <= r.y < WORLD_HEIGHT,
{
    let x = random_below(WORLD_WIDTH as u64);
    let y = random_below(WORLD_HEIGHT as u64);
    Point { x: x as i64, y: y as i64 }
}

} // verus!
