use sm64js_core::auth::Identity;
use sm64js_core::game::Game;
use sm64js_core::net::NetworkInfo;
use sm64js_core::registry::Registry;
use sm64js_core::room::FlagEvent;
use sm64js_core::session::Session;

fn member(id: u64, key: u64) -> Session {
    Session::on_connect(
        id,
        Identity::Anonymous,
        NetworkInfo { ip: String::from("127.0.0.1"), real_ip: None },
    )
    .member_copy(key)
}

fn room_index(reg: &Registry, key: u64) -> usize {
    reg.rooms.iter().position(|r| r.key == key).unwrap()
}

#[test]
fn registry_creates_rooms_lazily_and_once() {
    let mut reg = Registry::new();
    let a = reg.get_or_create(7);
    let b = reg.get_or_create(7);
    assert_eq!(a, b);
    assert_eq!(reg.rooms.len(), 1);
    reg.enqueue_flag(9, FlagEvent::Join(member(1, 9)));
    assert_eq!(reg.rooms.len(), 2);
    assert_eq!(reg.all_rooms(), vec![7, 9]);
}

#[test]
fn registry_removes_only_empty_rooms() {
    let mut reg = Registry::new();
    reg.enqueue_flag(7, FlagEvent::Join(member(1, 7)));
    assert!(!reg.remove_if_empty(7)); // a pending event keeps the room
    Game::process_flags(&mut reg);
    assert!(!reg.remove_if_empty(7)); // a member keeps the room
    reg.enqueue_flag(7, FlagEvent::Leave(1));
    Game::process_flags(&mut reg);
    assert!(reg.remove_if_empty(7));
    assert_eq!(reg.rooms.len(), 0);
    assert!(!reg.remove_if_empty(7)); // a missing room is left as it is
}

#[test]
fn one_failing_room_never_touches_the_others() {
    let mut reg = Registry::new();
    reg.enqueue_flag(1, FlagEvent::Join(member(11, 1)));
    reg.enqueue_flag(2, FlagEvent::Join(member(22, 2)));
    reg.enqueue_flag(3, FlagEvent::Join(member(33, 3)));
    // Room 2's snapshot cannot be encoded this tick.
    reg.enqueue_flag(2, FlagEvent::Data(22, vec![0u8; 70000]));
    Game::process_flags(&mut reg);
    Game::broadcast_data(&mut reg);
    let r1 = room_index(&reg, 1);
    let r2 = room_index(&reg, 2);
    let r3 = room_index(&reg, 3);
    assert_eq!(reg.rooms[r1].members[0].outbox.len(), 1);
    assert_eq!(reg.rooms[r2].members[0].outbox.len(), 0);
    assert_eq!(reg.rooms[r3].members[0].outbox.len(), 1);
    // Next tick room 2 is retried; once its payload fits, it delivers.
    reg.enqueue_flag(2, FlagEvent::Data(22, vec![5]));
    Game::process_flags(&mut reg);
    Game::broadcast_data(&mut reg);
    assert_eq!(reg.rooms[r1].members[0].outbox.len(), 2);
    assert_eq!(reg.rooms[r2].members[0].outbox.len(), 1);
    assert_eq!(reg.rooms[r3].members[0].outbox.len(), 2);
}

#[test]
fn skin_broadcast_fires_every_thirtieth_tick() {
    let mut reg = Registry::new();
    reg.enqueue_flag(7, FlagEvent::Join(member(1, 7)));
    let mut game = Game::new();
    let mut fired: Vec<u64> = Vec::new();
    for t in 1u64..=90 {
        if game.tick(&mut reg) {
            fired.push(t);
        }
    }
    assert_eq!(fired, vec![30, 60, 90]);
    assert_eq!(game.counter, 0);
}

#[test]
fn skin_broadcast_reaches_all_rooms_on_its_tick() {
    let mut reg = Registry::new();
    reg.enqueue_flag(1, FlagEvent::Join(member(11, 1)));
    reg.enqueue_flag(2, FlagEvent::Join(member(22, 2)));
    let mut game = Game::new();
    for _ in 1u64..=30 {
        game.tick(&mut reg);
    }
    // 30 data frames and 1 skin frame per member.
    let r1 = room_index(&reg, 1);
    let r2 = room_index(&reg, 2);
    assert_eq!(reg.rooms[r1].members[0].outbox.len(), 31);
    assert_eq!(reg.rooms[r2].members[0].outbox.len(), 31);
    assert_eq!(reg.rooms[r1].members[0].outbox[30][0], 17u8);
}

#[test]
fn tick_resolves_before_broadcasting() {
    // A join enqueued before the tick is both resolved and served by the
    // same tick's broadcast.
    let mut reg = Registry::new();
    reg.enqueue_flag(7, FlagEvent::Join(member(1, 7)));
    let mut game = Game::new();
    game.tick(&mut reg);
    let r = room_index(&reg, 7);
    assert_eq!(reg.rooms[r].members.len(), 1);
    assert_eq!(reg.rooms[r].members[0].outbox.len(), 1);
    assert_eq!(reg.rooms[r].members[0].outbox[0][0], 16u8);
}
