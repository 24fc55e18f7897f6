use wsroom::message::{Message, MessageType};
use wsroom::room::Room;

fn msg(text: &str) -> Message {
    Message { data: text.as_bytes().to_vec(), kind: MessageType::Text }
}

#[test]
fn ids_are_monotonic_and_never_reused() {
    let mut room = Room::new();
    let a = room.register();
    let b = room.register();
    let c = room.register();
    assert_eq!((a, b, c), (0, 1, 2));
    room.deregister(b);
    let d = room.register();
    assert_eq!(d, 3);
    assert_eq!(room.snapshot(), vec![0, 2, 3]);
}

#[test]
fn fanout_delivers_once_to_every_registered_connection() {
    let mut room = Room::new();
    let a = room.register();
    let b = room.register();
    let c = room.register();
    room.publish(msg("hello"));
    let (delivered, targets) = room.broadcast_step().unwrap();
    assert_eq!(delivered.data, b"hello".to_vec());
    for id in [a, b, c] {
        assert_eq!(targets.iter().filter(|t| **t == id).count(), 1);
    }
    assert_eq!(targets.len(), 3);
    // Nothing left to broadcast.
    assert!(room.broadcast_step().is_none());
}

#[test]
fn broadcast_order_is_publish_order() {
    let mut room = Room::new();
    room.register();
    room.register();
    room.publish(msg("first"));
    room.publish(msg("second"));
    room.publish(msg("third"));
    let (m1, _) = room.broadcast_step().unwrap();
    let (m2, _) = room.broadcast_step().unwrap();
    let (m3, _) = room.broadcast_step().unwrap();
    assert_eq!(m1.data, b"first".to_vec());
    assert_eq!(m2.data, b"second".to_vec());
    assert_eq!(m3.data, b"third".to_vec());
}

#[test]
fn deregistered_connection_gets_no_delivery_and_broadcast_survives() {
    let mut room = Room::new();
    let a = room.register();
    let b = room.register();
    let c = room.register();
    room.deregister(b);
    room.publish(msg("after removal"));
    let (delivered, targets) = room.broadcast_step().unwrap();
    assert_eq!(delivered.data, b"after removal".to_vec());
    assert!(!targets.contains(&b));
    assert_eq!(targets, vec![a, c]);
    // The queue drained normally: the broadcast worker was not disturbed.
    assert!(room.broadcast_step().is_none());
}

#[test]
fn empty_room_broadcast_is_a_no_op() {
    let mut room = Room::new();
    room.publish(msg("nobody listens"));
    let (m, targets) = room.broadcast_step().unwrap();
    assert_eq!(m.data, b"nobody listens".to_vec());
    assert!(targets.is_empty());
    assert!(room.broadcast_step().is_none());
}
