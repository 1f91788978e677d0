//! The process-wide registry of active rooms: a mapping from room key to
//! room, created lazily, iterated by the tick driver, and mutated by
//! sessions joining or leaving. Insert, lookup, and snapshot are total,
//! non-failing operations, so no registry operation can partially corrupt
//! state.

use vstd::prelude::*;

use crate::room::{room_empty, unique_ids, EventV, FlagEvent, Room, RoomV};

verus! {

/// The images of a room vector.
pub open spec fn rview(rs: Seq<Room>) -> Seq<RoomV> {
    rs.map_values(|r: Room| r@)
}

/// Whether some room carries `key`.
pub open spec fn has_room(rs: Seq<RoomV>, key: u64) -> bool {
    exists|i: int| 0 <= i < rs.len() && rs[i].key == key
}

/// Whether no two rooms share a key.
pub open spec fn unique_keys(rs: Seq<RoomV>) -> bool {
    forall|i: int, j: int| 0 <= i < j < rs.len() ==> rs[i].key != rs[j].key
}

/// The position of the room carrying `key`; with unique keys there is at
/// most one.
pub open spec fn key_index(rs: Seq<RoomV>, key: u64) -> int {
    choose|i: int| 0 <= i < rs.len() && rs[i].key == key
}

/// The registry after an event is routed to room `key`: the room's queue
/// grows by the event, other rooms are untouched, and a missing room is
/// created to hold it.
pub open spec fn enqueue_spec(rs: Seq<RoomV>, key: u64, e: EventV) -> Seq<RoomV> {
    if has_room(rs, key) {
        Seq::new(
            rs.len(),
            |i: int| if rs[i].key == key {
                RoomV { pending: rs[i].pending.push(e), ..rs[i] }
            } else {
                rs[i]
            },
        )
    } else {
        rs.push(RoomV { key, members: Seq::empty(), pending: seq![e] })
    }
}

/// The process-wide set of active rooms.
pub struct Registry {
    pub rooms: Vec<Room>,
}

impl View for Registry {
    type V = Seq<RoomV>;

    open spec fn view(&self) -> Seq<RoomV> {
        rview(self.rooms@)
    }
}

/// Finds the position of the room carrying `key`, scanning from the front.
fn find_room(rooms: &Vec<Room>, key: u64) -> (r: Option<usize>)
    ensures
        match r {
            Some(j) => j < rooms@.len() && rview(rooms@)[j as int].key == key && forall|i: int|
                0 <= i < j ==> rview(rooms@)[i].key != key,
            None => !has_room(rview(rooms@), key),
        },
{
    let mut i: usize = 0;
    while i < rooms.len()
        invariant
            i <= rooms@.len(),
            forall|k: int| 0 <= k < i ==> rview(rooms@)[k].key != key,
        decreases rooms@.len() - i,
    {
        proof {
            assert(rview(rooms@)[i as int] == rooms@[i as int]@);
        }
        if rooms[i].key == key {
            return Some(i);
        }
        i = i + 1;
    }
    None
}

impl Registry {
    /// Keys are unique and every room is well formed; every operation here
    /// preserves this.
    pub open spec fn wf(&self) -> bool {
        unique_keys(self@) && forall|i: int|
            0 <= i < self@.len() ==> unique_ids(#[trigger] self@[i].members)
    }

    /// The empty registry, set up at gateway startup.
    pub fn new() -> (r: Registry)
        ensures
            r@ == Seq::<RoomV>::empty(),
            r.wf(),
    {
        let r = Registry { rooms: Vec::new() };
        proof {
            assert(rview(r.rooms@) =~= Seq::<RoomV>::empty());
        }
        r
    }

    /// The position of the room under `key`, creating an empty room for a
    /// key seen for the first time; existing rooms are untouched.
    pub fn get_or_create(&mut self, key: u64) -> (idx: usize)
        requires
            old(self).wf(),
        ensures
            has_room(old(self)@, key) ==> final(self)@ == old(self)@,
            !has_room(old(self)@, key) ==> final(self)@ == old(self)@.push(
                (RoomV { key, members: Seq::empty(), pending: Seq::empty() }),
            ),
            idx < final(self)@.len() && final(self)@[idx as int].key == key,
            final(self).wf(),
    {
        let ghost r0 = rview(self.rooms@);
        match find_room(&self.rooms, key) {
            Some(j) => j,
            None => {
                let idx = self.rooms.len();
                self.rooms.push(Room::new(key));
                proof {
                    assert(rview(self.rooms@) =~= r0.push(
                        (RoomV { key, members: Seq::empty(), pending: Seq::empty() }),
                    ));
                    assert forall|a: int, b: int|
                        0 <= a < b < rview(self.rooms@).len() implies rview(self.rooms@)[a].key
                        != rview(self.rooms@)[b].key by {
                        if b == r0.len() {
                            if r0[a].key == key {
                                assert(has_room(r0, key));
                            }
                        }
                    }
                }
                idx
            },
        }
    }

    /// Routes one flag event to the room under `key`, creating the room if
    /// need be; only that room's pending queue changes, and nothing is
    /// applied until its next resolve phase.
    pub fn enqueue_flag(&mut self, key: u64, e: FlagEvent)
        requires
            old(self).wf(),
        ensures
            final(self)@ == enqueue_spec(old(self)@, key, e@),
            final(self).wf(),
    {
        let ghost r0 = rview(self.rooms@);
        let ghost ev = e@;
        let idx = self.get_or_create(key);
        let ghost r1 = rview(self.rooms@);
        let mut room = self.rooms.remove(idx);
        room.enqueue_flag(e);
        self.rooms.insert(idx, room);
        proof {
            assert(rview(self.rooms@) =~= r1.update(
                idx as int,
                (RoomV { pending: r1[idx as int].pending.push(ev), ..r1[idx as int] }),
            ));
            if has_room(r0, key) {
                assert(r1 == r0);
                assert(forall|i: int|
                    0 <= i < r0.len() && i != idx ==> r0[i].key != key);
                assert(rview(self.rooms@) =~= enqueue_spec(r0, key, ev));
            } else {
                assert(r1 == r0.push(
                    (RoomV { key, members: Seq::empty(), pending: Seq::empty() }),
                ));
                assert(idx == r0.len());
                assert(rview(self.rooms@) =~= enqueue_spec(r0, key, ev));
            }
            assert(forall|i: int|
                0 <= i < rview(self.rooms@).len() ==> rview(self.rooms@)[i].key == r1[i].key);
            assert(forall|i: int|
                0 <= i < rview(self.rooms@).len() ==> rview(self.rooms@)[i].members == r1[
                    i
                ].members);
        }
    }

    /// A snapshot of the current room set, as the keys the tick driver may
    /// iterate without holding any lock on the rooms.
    pub fn all_rooms(&self) -> (keys: Vec<u64>)
        ensures
            keys@ == self@.map_values(|v: RoomV| v.key),
    {
        let mut out: Vec<u64> = Vec::new();
        let mut i: usize = 0;
        while i < self.rooms.len()
            invariant
                i <= self.rooms@.len(),
                out@ == rview(self.rooms@).map_values(|v: RoomV| v.key).take(i as int),
            decreases self.rooms@.len() - i,
        {
            out.push(self.rooms[i].key);
            proof {
                assert(rview(self.rooms@)[i as int] == self.rooms@[i as int]@);
                assert(out@ =~= rview(self.rooms@).map_values(|v: RoomV| v.key).take(
                    i as int + 1,
                ));
            }
            i = i + 1;
        }
        proof {
            let m = rview(self.rooms@).map_values(|v: RoomV| v.key);
            assert(m.take(self.rooms@.len() as int) =~= m);
        }
        out
    }

    /// Garbage-collects the room under `key` when it holds neither members
    /// nor pending events; anything else, including a missing room, is left
    /// as it is.
    pub fn remove_if_empty(&mut self, key: u64) -> (removed: bool)
        requires
            old(self).wf(),
        ensures
            removed <==> (has_room(old(self)@, key) && room_empty(
                old(self)@[key_index(old(self)@, key)],
            )),
            removed ==> final(self)@ == old(self)@.remove(key_index(old(self)@, key)),
            !removed ==> final(self)@ == old(self)@,
            final(self).wf(),
    {
        let ghost r0 = rview(self.rooms@);
        match find_room(&self.rooms, key) {
            Some(j) => {
                proof {
                    assert(has_room(r0, key));
                    let ki = key_index(r0, key);
                    assert(0 <= ki < r0.len() && r0[ki].key == key);
                    assert(ki == j) by {
                        if ki != j {
                            assert(r0[ki].key == r0[j as int].key);
                        }
                    };
                }
                if self.rooms[j].members.len() == 0 && self.rooms[j].pending.len() == 0 {
                    proof {
                        assert(rview(self.rooms@)[j as int] == self.rooms@[j as int]@);
                        assert(room_empty(r0[j as int]));
                    }
                    self.rooms.remove(j);
                    proof {
                        assert(rview(self.rooms@) =~= r0.remove(j as int));
                        assert forall|a: int, b: int|
                            0 <= a < b < rview(self.rooms@).len() implies rview(
                            self.rooms@,
                        )[a].key != rview(self.rooms@)[b].key by {
                            assert(rview(self.rooms@)[a] == if a < j {
                                r0[a]
                            } else {
                                r0[a + 1]
                            });
                            assert(rview(self.rooms@)[b] == if b < j {
                                r0[b]
                            } else {
                                r0[b + 1]
                            });
                        }
                        assert forall|i: int|
                            0 <= i < rview(self.rooms@).len() implies unique_ids(
                            #[trigger] rview(self.rooms@)[i].members,
                        ) by {
                            assert(rview(self.rooms@)[i] == if i < j {
                                r0[i]
                            } else {
                                r0[i + 1]
                            });
                        }
                    }
                    true
                } else {
                    proof {
                        assert(rview(self.rooms@)[j as int] == self.rooms@[j as int]@);
                        assert(!room_empty(r0[j as int]));
                    }
                    false
                }
            },
            None => false,
        }
    }
}

} // verus!
