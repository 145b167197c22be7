use agarlib::client::ClientState;
use agarlib::{
    Agar, AgarUpdate, ClientMessage, FeedColor, FeedUpdate, FeedUpdateSpawn, GameStateMessage,
    Point, UpdateContext,
};

fn update(x: i64, size: u64) -> AgarUpdate {
    let mut agar = Agar::new();
    agar.size = size;
    AgarUpdate { agar, translation: Point { x, y: 100 } }
}

fn state(frame: u32, agars: Vec<(u32, AgarUpdate)>, feeds: u64) -> GameStateMessage {
    GameStateMessage { frame, agars, feeds }
}

fn mirror_with_seven_at_frame_five() -> ClientState {
    let mut c = ClientState::new();
    c.reconcile(&vec![state(5, vec![(7, update(10, 15000))], 0)]);
    c
}

#[test]
fn new_entity_is_mirrored_with_its_frame() {
    let c = mirror_with_seven_at_frame_five();
    let m = c.agar(7).unwrap();
    assert_eq!(m.context, UpdateContext { id: 7, frame: 5 });
    assert_eq!(m.translation, Point { x: 10, y: 100 });
    assert_eq!(c.agar_count(), 1);
}

#[test]
fn stale_message_leaves_entity_unchanged() {
    let mut c = mirror_with_seven_at_frame_five();
    c.reconcile(&vec![state(3, vec![(7, update(999, 20000))], 0)]);
    let m = c.agar(7).unwrap();
    assert_eq!(m.translation, Point { x: 10, y: 100 });
    assert_eq!(m.context.frame, 5);
    assert_eq!(m.agar.size, 15000);
}

#[test]
fn equal_frame_is_a_no_op() {
    let mut c = mirror_with_seven_at_frame_five();
    c.reconcile(&vec![state(5, vec![(7, update(999, 20000))], 0)]);
    assert_eq!(c.agar(7).unwrap().translation, Point { x: 10, y: 100 });
}

#[test]
fn newer_message_updates_entity() {
    let mut c = mirror_with_seven_at_frame_five();
    c.reconcile(&vec![state(6, vec![(7, update(20, 16000))], 0)]);
    let m = c.agar(7).unwrap();
    assert_eq!(m.context.frame, 6);
    assert_eq!(m.translation, Point { x: 20, y: 100 });
    assert_eq!(m.agar.size, 16000);
}

#[test]
fn frames_never_go_back_over_passes() {
    let mut c = mirror_with_seven_at_frame_five();
    let mut last = 5;
    for frame in [9u32, 4, 9, 12, 11] {
        c.reconcile(&vec![state(frame, vec![(7, update(frame as i64, 15000))], 0)]);
        let f = c.agar(7).unwrap().context.frame;
        assert!(f >= last);
        last = f;
    }
    assert_eq!(last, 12);
}

#[test]
fn newer_message_without_entity_removes_it() {
    let mut c = mirror_with_seven_at_frame_five();
    c.reconcile(&vec![state(6, vec![], 0)]);
    assert!(c.agar(7).is_none());
    assert_eq!(c.agar_count(), 0);
}

#[test]
fn stale_message_without_entity_keeps_it() {
    let mut c = mirror_with_seven_at_frame_five();
    c.reconcile(&vec![state(4, vec![], 0)]);
    assert!(c.agar(7).is_some());
}

#[test]
fn repeated_new_id_in_a_batch_spawns_once() {
    let mut c = ClientState::new();
    let batch = vec![
        state(3, vec![(9, update(1, 15000)), (9, update(2, 15000))], 0),
        state(2, vec![(9, update(3, 15000))], 0),
        state(4, vec![(9, update(4, 15000)), (11, update(5, 15000))], 0),
    ];
    c.reconcile(&batch);
    assert_eq!(c.agar_count(), 2);
    let m = c.agar(9).unwrap();
    assert_eq!(m.context, UpdateContext { id: 9, frame: 4 });
    assert_eq!(m.translation, Point { x: 4, y: 100 });
}

#[test]
fn last_write_wins_among_buffered_spawns() {
    let mut c = ClientState::new();
    let batch = vec![state(8, vec![(9, update(1, 15000))], 0), state(6, vec![(9, update(2, 15000))], 0)];
    c.reconcile(&batch);
    let m = c.agar(9).unwrap();
    assert_eq!(m.context.frame, 6);
    assert_eq!(m.translation, Point { x: 2, y: 100 });
}

#[test]
fn feed_request_uses_first_prior_counter() {
    let mut c = ClientState::new();
    let r = c.reconcile(&vec![state(1, vec![], 3), state(2, vec![], 5), state(3, vec![], 4)]);
    assert_eq!(r, Some(0));
    assert_eq!(c.feed_counter(), 5);
    assert_eq!(c.reconcile(&vec![state(4, vec![], 5)]), None);
    assert_eq!(c.reconcile(&vec![state(5, vec![], 8)]), Some(5));
    assert_eq!(c.feed_counter(), 8);
}

#[test]
fn login_ack_records_player() {
    let mut c = ClientState::new();
    assert_eq!(c.player_id(), None);
    c.handle_reliable(ClientMessage::LoginAck(7));
    assert_eq!(c.player_id(), Some(7));
    c.handle_reliable(ClientMessage::Login);
    assert_eq!(c.player_id(), Some(7));
}

#[test]
fn feed_response_is_replayed_in_order() {
    let mut c = ClientState::new();
    let f = |id: u32| FeedUpdateSpawn { id, color: FeedColor::Green, translation: Point { x: 1, y: 2 } };
    c.handle_reliable(ClientMessage::FeedResponse(vec![
        FeedUpdate::Spawn(f(1)),
        FeedUpdate::Spawn(f(2)),
        FeedUpdate::Despawn(1),
    ]));
    assert_eq!(c.feed_count(), 1);
    assert_eq!(c.feed(2), Some(f(2)));
    assert!(c.feed(1).is_none());
    c.handle_reliable(ClientMessage::FeedResponse(vec![FeedUpdate::Despawn(2)]));
    assert_eq!(c.feed_count(), 0);
}

#[test]
fn removed_entity_can_return_later_in_the_same_pass() {
    let mut c = mirror_with_seven_at_frame_five();
    c.reconcile(&vec![state(6, vec![], 0), state(3, vec![(7, update(30, 15000))], 0)]);
    let m = c.agar(7).unwrap();
    assert_eq!(m.context.frame, 3);
    assert_eq!(m.translation, Point { x: 30, y: 100 });
}
