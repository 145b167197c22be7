use agarlib::client::ClientState;
use agarlib::random::random_position;
use agarlib::server::{touches_at, ServerState};
use agarlib::{
    max_velocity, Agar, ClientMessage, FeedColor, FeedUpdate, NetworkHandle, Point, UpdateContext,
    Vec2,
};

fn find(msg: &agarlib::GameStateMessage, id: u32) -> Option<agarlib::AgarUpdate> {
    msg.agars.iter().rev().find(|(k, _)| *k == id).map(|(_, u)| *u)
}

#[test]
fn login_then_broadcast_creates_client_mirror() {
    let mut server = ServerState::new();
    assert_eq!(server.frame(), 0);
    let first = server.broadcast();
    assert_eq!(first.frame, 0);
    assert!(first.agars.is_empty());
    let id = match server.handle_client_message(NetworkHandle::new(3), ClientMessage::Login) {
        Some(ClientMessage::LoginAck(id)) => id,
        _ => panic!("no login ack"),
    };
    let msg = server.broadcast();
    assert_eq!(msg.frame, 1);
    let u = find(&msg, id).unwrap();
    assert_eq!(u.agar.size, 15000);
    assert!(0 <= u.translation.x && u.translation.x < 2000000);
    assert!(0 <= u.translation.y && u.translation.y < 2000000);

    let mut client = ClientState::new();
    client.handle_reliable(ClientMessage::LoginAck(id));
    client.reconcile(&vec![msg]);
    let m = client.agar(id).unwrap();
    assert_eq!(m.context, UpdateContext { id, frame: 1 });
    assert_eq!(client.player_id(), Some(id));
}

#[test]
fn second_login_keeps_the_same_agar() {
    let mut server = ServerState::new();
    let a = server.login_at(NetworkHandle::new(1), Point { x: 5, y: 5 });
    let b = server.login_at(NetworkHandle::new(1), Point { x: 9, y: 9 });
    assert_eq!(a, b);
    assert_eq!(server.agar_count(), 1);
    let c = server.login_at(NetworkHandle::new(2), Point { x: 9, y: 9 });
    assert_ne!(a, c);
    assert_eq!(server.agar_count(), 2);
}

#[test]
fn collision_consumes_feed_and_grows_agar() {
    let mut server = ServerState::new();
    let feed = server.spawn_feed_at(FeedColor::Red, Point { x: 1003000, y: 1000000 }).unwrap();
    let far = server.spawn_feed_at(FeedColor::Red, Point { x: 1500000, y: 1000000 }).unwrap();
    let id = server.login_at(NetworkHandle::new(1), Point { x: 1000000, y: 1000000 }).unwrap();
    let before = server.agar(id).unwrap().agar;
    server.feed_collision_system();
    assert!(server.feed(feed).is_none());
    assert!(server.feed(far).is_some());
    let after = server.agar(id).unwrap().agar;
    assert_eq!(after.size, before.size + 1000);
    assert_eq!(after.max_velocity, 300000);
    assert!(after.max_velocity < before.max_velocity);
    assert_eq!(server.log().total_feeds(), 1);
    assert_eq!(server.log().len(), 3);
    let tail = server.log().updates(2);
    assert_eq!(tail, vec![FeedUpdate::Despawn(feed)]);
}

#[test]
fn small_agar_touches_feed_at_distance_three() {
    let p = Point { x: 100000, y: 100000 };
    let q = Point { x: 103000, y: 100000 };
    assert!(touches_at(p, 5000, q));
    assert!(!touches_at(p, 3000, q));
    let mut a = Agar::new();
    a.size = 5000;
    a.max_velocity = max_velocity(5000);
    let speed = a.max_velocity;
    a.grow(1000);
    assert_eq!(a.size, 6000);
    assert!(a.max_velocity < speed);
}

#[test]
fn small_agar_eats_feed_at_distance_three() {
    let mut server = ServerState::new();
    let feed = server.spawn_feed_at(FeedColor::Blue, Point { x: 103000, y: 100000 }).unwrap();
    let id = server.login_at(NetworkHandle::new(1), Point { x: 100000, y: 100000 }).unwrap();
    server.feed_collision_system();
    assert!(server.feed(feed).is_none());
    let a = server.agar(id).unwrap().agar;
    assert_eq!(a.size, 16000);
    assert_eq!(a.velocity, Vec2 { x: 0, y: 0 });
    assert_eq!(a.max_velocity, 300000);
}

#[test]
fn agar_grows_into_feeds_it_reaches_after_growing() {
    let mut server = ServerState::new();
    let near = server.spawn_feed_at(FeedColor::Blue, Point { x: 1014500, y: 1000000 }).unwrap();
    let next = server.spawn_feed_at(FeedColor::Blue, Point { x: 1015500, y: 1000000 }).unwrap();
    let id = server.login_at(NetworkHandle::new(1), Point { x: 1000000, y: 1000000 }).unwrap();
    server.feed_collision_system();
    assert!(server.feed(near).is_none());
    assert!(server.feed(next).is_none());
    assert_eq!(server.agar(id).unwrap().agar.size, 17000);
}

#[test]
fn refill_tops_feeds_up_to_target() {
    let mut server = ServerState::new();
    server.feed_spawn_system();
    assert_eq!(server.log().total_feeds(), 100);
    assert_eq!(server.feed_count(), 100);
    for id in 0..100u32 {
        let f = server.feed(id).unwrap();
        assert_eq!(f.color, FeedColor::Blue);
        assert!(f.translation.x < 2000000 && f.translation.y < 2000000);
    }
    let events = server.log().len();
    server.feed_spawn_system();
    assert_eq!(server.log().len(), events);
}

#[test]
fn random_positions_lie_in_the_world() {
    for _ in 0..200 {
        let p = random_position();
        assert!(0 <= p.x && p.x < 2000000);
        assert!(0 <= p.y && p.y < 2000000);
    }
}

#[test]
fn input_steers_only_its_own_agar() {
    let mut server = ServerState::new();
    let a = server.login_at(NetworkHandle::new(1), Point { x: 1000000, y: 1000000 }).unwrap();
    let b = server.login_at(NetworkHandle::new(2), Point { x: 500000, y: 500000 }).unwrap();
    let reply = server.handle_client_message(NetworkHandle::new(1), ClientMessage::Input(Vec2 { x: 1000000, y: 500000 }));
    assert!(reply.is_none());
    server.handle_client_message(NetworkHandle::new(9), ClientMessage::Input(Vec2 { x: 0, y: 0 }));
    assert_eq!(server.agar(a).unwrap().agar.velocity, Vec2 { x: 1000000, y: 500000 });
    assert_eq!(server.agar(b).unwrap().agar.velocity, Vec2 { x: 0, y: 0 });
    server.movement_system(1000);
    assert_eq!(server.agar(a).unwrap().translation, Point { x: 1250000, y: 1000000 });
    assert_eq!(server.agar(b).unwrap().translation, Point { x: 250000, y: 250000 });
}

#[test]
fn feed_request_answers_snapshot_or_history() {
    let mut server = ServerState::new();
    let f1 = server.spawn_feed_at(FeedColor::Red, Point { x: 1, y: 1 }).unwrap();
    let f2 = server.spawn_feed_at(FeedColor::Green, Point { x: 2, y: 2 }).unwrap();
    let mut client = ClientState::new();
    match server.handle_client_message(NetworkHandle::new(1), ClientMessage::FeedRequest(0)) {
        Some(reply) => client.handle_reliable(reply),
        None => panic!("no feed response"),
    }
    assert_eq!(client.feed_count(), 2);
    let cursor = server.log().len() as u64;
    let id = server.login_at(NetworkHandle::new(1), Point { x: 1, y: 1 }).unwrap();
    server.feed_collision_system();
    let f3 = server.spawn_feed_at(FeedColor::Blue, Point { x: 1500000, y: 3 }).unwrap();
    assert!(server.agar(id).is_some());
    match server.handle_client_message(NetworkHandle::new(1), ClientMessage::FeedRequest(cursor)) {
        Some(ClientMessage::FeedResponse(u)) => {
            assert_eq!(u.len(), 3);
            client.handle_reliable(ClientMessage::FeedResponse(u));
        }
        _ => panic!("no feed response"),
    }
    assert!(client.feed(f1).is_none());
    assert!(client.feed(f2).is_none());
    assert_eq!(client.feed(f3), server.feed(f3));
    assert_eq!(client.feed_count(), server.feed_count());
}

#[test]
fn fresh_client_replaying_snapshot_matches_server() {
    let mut server = ServerState::new();
    server.feed_spawn_system();
    server.login_at(NetworkHandle::new(4), Point { x: 1000000, y: 1000000 }).unwrap();
    server.feed_collision_system();
    let mut client = ClientState::new();
    client.handle_reliable(ClientMessage::FeedResponse(server.feed_request(0)));
    assert_eq!(client.feed_count(), server.feed_count());
    for id in 0..100u32 {
        assert_eq!(client.feed(id), server.feed(id));
    }
}

#[test]
fn tick_advances_frame_and_refills() {
    let mut server = ServerState::new();
    let id = server.login_at(NetworkHandle::new(1), Point { x: 1000000, y: 1000000 }).unwrap();
    let msg = server.tick(33);
    assert_eq!(msg.frame, 0);
    assert_eq!(server.frame(), 1);
    assert!(find(&msg, id).is_some());
    assert!(server.log().total_feeds() >= 100);
    assert_eq!(msg.feeds, server.log().len() as u64);
    let msg2 = server.tick(33);
    assert_eq!(msg2.frame, 1);
}

#[test]
fn unexpected_messages_are_dropped() {
    let mut server = ServerState::new();
    assert!(server.handle_client_message(NetworkHandle::new(1), ClientMessage::LoginAck(3)).is_none());
    assert!(server.handle_client_message(NetworkHandle::new(1), ClientMessage::FeedResponse(vec![])).is_none());
    assert_eq!(server.agar_count(), 0);
}

#[test]
fn disconnect_removes_the_connections_agar() {
    let mut server = ServerState::new();
    let a = server.login_at(NetworkHandle::new(1), Point { x: 10, y: 10 }).unwrap();
    let b = server.login_at(NetworkHandle::new(2), Point { x: 20, y: 20 }).unwrap();
    assert_eq!(server.handle_disconnect(NetworkHandle::new(1)), Some(a));
    assert!(server.agar(a).is_none());
    assert!(server.agar(b).is_some());
    assert_eq!(server.handle_disconnect(NetworkHandle::new(1)), None);
    assert_eq!(server.agar_count(), 1);
}

#[test]
fn collision_growth_matches_consumed_feeds() {
    let mut server = ServerState::new();
    for x in [1001000i64, 1002000, 1003000] {
        server.spawn_feed_at(FeedColor::Green, Point { x, y: 1000000 }).unwrap();
    }
    let id = server.login_at(NetworkHandle::new(1), Point { x: 1000000, y: 1000000 }).unwrap();
    server.feed_collision_system();
    assert_eq!(server.feed_count(), 0);
    let a = server.agar(id).unwrap().agar;
    assert_eq!(a.size, 18000);
    assert_eq!(a.max_velocity, max_velocity(18000));
    assert_eq!(server.log().len(), 6);
}
