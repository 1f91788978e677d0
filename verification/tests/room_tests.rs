use sm64js_core::auth::Identity;
use sm64js_core::net::NetworkInfo;
use sm64js_core::protocol::ProtocolError;
use sm64js_core::room::{FlagEvent, Room};
use sm64js_core::session::Session;

fn fresh_session(id: u64) -> Session {
    Session::on_connect(
        id,
        Identity::Anonymous,
        NetworkInfo { ip: String::from("127.0.0.1"), real_ip: None },
    )
}

fn member(id: u64, key: u64) -> Session {
    fresh_session(id).member_copy(key)
}

fn member_ids(room: &Room) -> Vec<u64> {
    room.members.iter().map(|s| s.id).collect()
}

#[test]
fn resolve_applies_events_in_arrival_order_once() {
    let mut room = Room::new(7);
    room.enqueue_flag(FlagEvent::Join(member(1, 7)));
    room.enqueue_flag(FlagEvent::Join(member(2, 7)));
    room.enqueue_flag(FlagEvent::Leave(1));
    room.enqueue_flag(FlagEvent::Join(member(3, 7)));
    room.enqueue_flag(FlagEvent::Join(member(2, 7)));
    room.resolve_flags();
    assert_eq!(member_ids(&room), vec![2, 3]);
    assert_eq!(room.pending.len(), 0);
    // Resolving again changes nothing: each event was applied exactly once.
    room.resolve_flags();
    assert_eq!(member_ids(&room), vec![2, 3]);
}

#[test]
fn resolve_merges_state_last_write_wins() {
    let mut room = Room::new(7);
    room.enqueue_flag(FlagEvent::Join(member(1, 7)));
    room.enqueue_flag(FlagEvent::Data(1, vec![1, 1]));
    room.enqueue_flag(FlagEvent::Data(1, vec![2, 2]));
    room.enqueue_flag(FlagEvent::Skin(1, vec![9]));
    room.resolve_flags();
    assert_eq!(room.members[0].data, vec![2, 2]);
    assert_eq!(room.members[0].skin, vec![9]);
}

#[test]
fn empty_room_then_two_ticks() {
    // Tick 1: a join enqueued before resolve; the broadcast reaches only S1.
    let mut room = Room::new(7);
    let mut s1 = member(1, 7);
    s1.data = vec![5];
    room.enqueue_flag(FlagEvent::Join(s1));
    room.process_flags();
    assert_eq!(member_ids(&room), vec![1]);
    room.broadcast_data().unwrap();
    assert_eq!(room.members[0].outbox.len(), 1);
    let frame = room.members[0].outbox[0].clone();
    assert_eq!(frame, vec![16u8, 0, 1, 0, 0, 0, 0, 0, 0, 0, 1, 0, 1, 5]);
    // Tick 2: join(S2) then leave(S1), in that order, before resolve.
    room.enqueue_flag(FlagEvent::Join(member(2, 7)));
    room.enqueue_flag(FlagEvent::Leave(1));
    room.process_flags();
    assert_eq!(member_ids(&room), vec![2]);
    room.broadcast_data().unwrap();
    assert_eq!(room.members[0].outbox.len(), 1);
}

#[test]
fn broadcast_reads_members_fixed_by_resolve() {
    // Two identical rooms; one gets an event enqueued after its resolve.
    let mut quiet = Room::new(7);
    quiet.enqueue_flag(FlagEvent::Join(member(1, 7)));
    quiet.process_flags();
    let mut noisy = Room::new(7);
    noisy.enqueue_flag(FlagEvent::Join(member(1, 7)));
    noisy.process_flags();
    noisy.enqueue_flag(FlagEvent::Data(1, vec![9, 9, 9]));
    quiet.broadcast_data().unwrap();
    noisy.broadcast_data().unwrap();
    // The late event is not in what either broadcast delivered.
    assert_eq!(quiet.members[0].outbox, noisy.members[0].outbox);
}

#[test]
fn disconnected_member_gets_at_most_one_more_broadcast() {
    let mut room = Room::new(7);
    room.enqueue_flag(FlagEvent::Join(member(1, 7)));
    room.enqueue_flag(FlagEvent::Join(member(2, 7)));
    room.process_flags();
    // S1 disconnects mid-tick: the broadcast already in flight still lists it.
    room.session_closed(1);
    room.broadcast_data().unwrap();
    assert_eq!(room.members[0].outbox.len(), 0); // send failed, nothing queued
    assert_eq!(room.members[1].outbox.len(), 1);
    // From the next resolve on, S1 is gone from every broadcast.
    room.process_flags();
    assert_eq!(member_ids(&room), vec![2]);
    room.broadcast_data().unwrap();
    assert_eq!(member_ids(&room), vec![2]);
}

#[test]
fn send_failure_becomes_leave_on_next_resolve() {
    let mut room = Room::new(7);
    room.enqueue_flag(FlagEvent::Join(member(1, 7)));
    room.enqueue_flag(FlagEvent::Join(member(2, 7)));
    room.process_flags();
    room.session_closed(2);
    // Delivery to S1 proceeds although S2's send fails.
    room.broadcast_data().unwrap();
    assert_eq!(room.members[0].outbox.len(), 1);
    room.process_flags();
    assert_eq!(member_ids(&room), vec![1]);
}

#[test]
fn oversized_snapshot_fails_whole_room_broadcast() {
    let mut room = Room::new(7);
    room.enqueue_flag(FlagEvent::Join(member(1, 7)));
    room.enqueue_flag(FlagEvent::Data(1, vec![0u8; 70000]));
    room.process_flags();
    assert_eq!(room.broadcast_data(), Err(ProtocolError::PayloadTooLarge));
    // Nothing was delivered; the room is unchanged and retried next tick.
    assert_eq!(room.members[0].outbox.len(), 0);
    assert_eq!(room.pending.len(), 0);
}

#[test]
fn skin_broadcast_carries_cosmetic_payload() {
    let mut room = Room::new(7);
    let mut s1 = member(1, 7);
    s1.skin = vec![3, 4];
    room.enqueue_flag(FlagEvent::Join(s1));
    room.process_flags();
    room.broadcast_skins().unwrap();
    let frame = room.members[0].outbox[0].clone();
    assert_eq!(frame, vec![17u8, 0, 1, 0, 0, 0, 0, 0, 0, 0, 1, 0, 2, 3, 4]);
}

#[test]
fn drain_outbox_empties_member_queue() {
    let mut room = Room::new(7);
    room.enqueue_flag(FlagEvent::Join(member(1, 7)));
    room.process_flags();
    room.broadcast_data().unwrap();
    let frames = room.drain_outbox(1).unwrap();
    assert_eq!(frames.len(), 1);
    assert_eq!(room.members[0].outbox.len(), 0);
    assert!(room.drain_outbox(99).is_none());
}

#[test]
fn inbound_data_updates_session_and_mirrors_event() {
    let mut s = fresh_session(1);
    // Not in a room yet: the local state changes, nothing is mirrored.
    let evs = s.on_inbound_frame(&vec![0u8, 9]).unwrap();
    assert_eq!(s.data, vec![9]);
    assert_eq!(evs.len(), 0);
    // Join room 7, then a state update mirrors into that room.
    let evs = s.on_inbound_frame(&vec![2u8, 0, 0, 0, 0, 0, 0, 0, 7]).unwrap();
    assert_eq!(evs.len(), 1);
    assert_eq!(evs[0].0, 7);
    assert!(matches!(evs[0].1, FlagEvent::Join(_)));
    assert_eq!(s.room, Some(7));
    let evs = s.on_inbound_frame(&vec![0u8, 8, 8]).unwrap();
    assert_eq!(evs.len(), 1);
    assert_eq!(evs[0].0, 7);
    assert!(matches!(evs[0].1, FlagEvent::Data(1, _)));
    assert_eq!(s.data, vec![8, 8]);
}

#[test]
fn joining_a_second_room_leaves_the_first() {
    let mut s = fresh_session(1);
    s.on_inbound_frame(&vec![2u8, 0, 0, 0, 0, 0, 0, 0, 7]).unwrap();
    let evs = s.on_inbound_frame(&vec![2u8, 0, 0, 0, 0, 0, 0, 0, 9]).unwrap();
    assert_eq!(evs.len(), 2);
    assert_eq!(evs[0].0, 7);
    assert!(matches!(evs[0].1, FlagEvent::Leave(1)));
    assert_eq!(evs[1].0, 9);
    assert!(matches!(evs[1].1, FlagEvent::Join(_)));
    assert_eq!(s.room, Some(9));
}

#[test]
fn malformed_frame_changes_nothing() {
    let mut s = fresh_session(1);
    s.on_inbound_frame(&vec![0u8, 5]).unwrap();
    let r = s.on_inbound_frame(&vec![200u8, 1]);
    assert!(matches!(r, Err(ProtocolError::Malformed)));
    assert_eq!(s.data, vec![5]);
    assert_eq!(s.room, None);
}

#[test]
fn disconnect_always_reports_leave_to_its_room() {
    let mut s = fresh_session(1);
    s.on_inbound_frame(&vec![2u8, 0, 0, 0, 0, 0, 0, 0, 7]).unwrap();
    let evs = s.on_disconnect();
    assert_eq!(evs.len(), 1);
    assert_eq!(evs[0].0, 7);
    assert!(matches!(evs[0].1, FlagEvent::Leave(1)));
    assert!(!s.connected);
    assert_eq!(s.room, None);
    // A session in no room has no room to notify.
    let mut lone = fresh_session(2);
    assert_eq!(lone.on_disconnect().len(), 0);
}
