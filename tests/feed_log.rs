use agarlib::feed_log::FeedUpdates;
use agarlib::{FeedColor, FeedUpdate, FeedUpdateSpawn, Point};

fn spawn(id: u32) -> FeedUpdateSpawn {
    FeedUpdateSpawn { id, color: FeedColor::Blue, translation: Point { x: id as i64 * 10, y: 7 } }
}

fn ids(updates: &[FeedUpdate]) -> Vec<(bool, u32)> {
    let mut v: Vec<(bool, u32)> = updates
        .iter()
        .map(|u| match u {
            FeedUpdate::Spawn(s) => (true, s.id),
            FeedUpdate::Despawn(id) => (false, *id),
        })
        .collect();
    v.sort();
    v
}

#[test]
fn spawn_and_despawn_track_the_live_count() {
    let mut log = FeedUpdates::new();
    assert_eq!(log.total_feeds(), 0);
    log.spawn(spawn(1));
    log.spawn(spawn(2));
    assert_eq!(log.total_feeds(), 2);
    log.despawn(1);
    assert_eq!(log.total_feeds(), 1);
    assert_eq!(log.len(), 3);
}

#[test]
fn incremental_view_cancels_spawn_then_despawn() {
    let mut log = FeedUpdates::new();
    log.spawn(spawn(1));
    log.spawn(spawn(2));
    log.despawn(1);
    let view = log.updates(0);
    assert_eq!(view, vec![FeedUpdate::Spawn(spawn(2))]);
}

#[test]
fn incremental_view_keeps_despawn_of_older_spawn() {
    let mut log = FeedUpdates::new();
    log.spawn(spawn(1));
    log.spawn(spawn(2));
    log.despawn(1);
    log.spawn(spawn(3));
    let view = log.updates(2);
    assert_eq!(ids(&view), vec![(false, 1), (true, 3)]);
}

#[test]
fn compaction_drops_both_events_after_cursor() {
    let mut log = FeedUpdates::new();
    log.spawn(spawn(1));
    log.spawn(spawn(5));
    log.spawn(spawn(6));
    log.despawn(5);
    let view = log.updates(1);
    assert!(view.iter().all(|u| match u {
        FeedUpdate::Spawn(s) => s.id != 5,
        FeedUpdate::Despawn(id) => *id != 5,
    }));
    assert_eq!(ids(&view), vec![(true, 6)]);
}

#[test]
fn cursor_past_the_end_gives_nothing() {
    let mut log = FeedUpdates::new();
    log.spawn(spawn(1));
    assert!(log.updates(1).is_empty());
    assert!(log.updates(99).is_empty());
}

#[test]
fn snapshot_lists_live_feeds_as_spawns() {
    let mut log = FeedUpdates::new();
    log.spawn(spawn(1));
    log.spawn(spawn(2));
    log.spawn(spawn(3));
    log.despawn(2);
    let snap = log.snapshot();
    assert_eq!(ids(&snap), vec![(true, 1), (true, 3)]);
    assert!(snap.contains(&FeedUpdate::Spawn(spawn(3))));
    assert_eq!(snap.len(), log.total_feeds());
}
