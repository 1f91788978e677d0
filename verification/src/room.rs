//! A room: an isolated group of member sessions, a queue of pending flag
//! events, and the per-tick operations the tick driver calls. Membership
//! changes are buffered, never applied immediately: each tick first resolves
//! the queue in arrival order, exactly once per event, then broadcasts the
//! resolved member set.

use vstd::prelude::*;

use crate::protocol::{
    clone_bytes, encode_frame, encode_ok, frame_bytes, snaps_view, PlayerSnapshot, ProtocolError,
    SnapV, TAG_DATA_BROADCAST, TAG_SKIN_BROADCAST,
};
use crate::session::{Session, SessionV};

verus! {

/// A buffered membership or state change, applied at the next resolve.
pub enum FlagEvent {
    Join(Session),
    Leave(u64),
    Data(u64, Vec<u8>),
    Skin(u64, Vec<u8>),
}

/// Mathematical image of a flag event.
pub enum EventV {
    Join(SessionV),
    Leave(u64),
    Data(u64, Seq<u8>),
    Skin(u64, Seq<u8>),
}

impl View for FlagEvent {
    type V = EventV;

    open spec fn view(&self) -> EventV {
        match self {
            FlagEvent::Join(s) => EventV::Join(s@),
            FlagEvent::Leave(id) => EventV::Leave(*id),
            FlagEvent::Data(id, d) => EventV::Data(*id, d@),
            FlagEvent::Skin(id, d) => EventV::Skin(*id, d@),
        }
    }
}

/// The images of a member vector.
pub open spec fn mview(ms: Seq<Session>) -> Seq<SessionV> {
    ms.map_values(|s: Session| s@)
}

/// The images of a pending-event vector.
pub open spec fn pview(ps: Seq<FlagEvent>) -> Seq<EventV> {
    ps.map_values(|e: FlagEvent| e@)
}

/// Whether some member carries `id`.
pub open spec fn has_member(ms: Seq<SessionV>, id: u64) -> bool {
    exists|i: int| 0 <= i < ms.len() && ms[i].id == id
}

/// Whether no two members share an id.
pub open spec fn unique_ids(ms: Seq<SessionV>) -> bool {
    forall|i: int, j: int| 0 <= i < j < ms.len() ==> ms[i].id != ms[j].id
}

/// The members left once every member carrying `id` is unregistered.
pub open spec fn remove_id(ms: Seq<SessionV>, id: u64) -> Seq<SessionV>
    decreases ms.len(),
{
    if ms.len() == 0 {
        Seq::empty()
    } else if ms[0].id == id {
        remove_id(ms.drop_first(), id)
    } else {
        seq![ms[0]] + remove_id(ms.drop_first(), id)
    }
}

/// The members with `id`'s data payload replaced; last write wins across one
/// tick because later events overwrite this one.
pub open spec fn set_data(ms: Seq<SessionV>, id: u64, d: Seq<u8>) -> Seq<SessionV> {
    Seq::new(ms.len(), |i: int| if ms[i].id == id { SessionV { data: d, ..ms[i] } } else { ms[i] })
}

/// The members with `id`'s cosmetic payload replaced.
pub open spec fn set_skin(ms: Seq<SessionV>, id: u64, d: Seq<u8>) -> Seq<SessionV> {
    Seq::new(ms.len(), |i: int| if ms[i].id == id { SessionV { skin: d, ..ms[i] } } else { ms[i] })
}

/// The effect of one flag event on the member set: a join registers an
/// absent session and is ignored for a present one, a leave unregisters, a
/// state event merges into the member's last-known state.
pub open spec fn apply_event(ms: Seq<SessionV>, e: EventV) -> Seq<SessionV> {
    match e {
        EventV::Join(s) => if has_member(ms, s.id) {
            ms
        } else {
            ms.push(s)
        },
        EventV::Leave(id) => remove_id(ms, id),
        EventV::Data(id, d) => set_data(ms, id, d),
        EventV::Skin(id, d) => set_skin(ms, id, d),
    }
}

/// The net effect of a queue of flag events, applied in arrival order,
/// exactly once each.
pub open spec fn apply_events(ms: Seq<SessionV>, es: Seq<EventV>) -> Seq<SessionV>
    decreases es.len(),
{
    if es.len() == 0 {
        ms
    } else {
        apply_events(apply_event(ms, es[0]), es.drop_first())
    }
}

/// Mathematical image of a room.
pub struct RoomV {
    pub key: u64,
    pub members: Seq<SessionV>,
    pub pending: Seq<EventV>,
}

/// A room after its resolve phase: the member set is the net effect of the
/// pending queue in arrival order, and the queue is empty.
pub open spec fn resolved(v: RoomV) -> RoomV {
    RoomV { key: v.key, members: apply_events(v.members, v.pending), pending: Seq::empty() }
}

/// The data snapshot of a member set: every member's id and data payload, in
/// member order.
pub open spec fn snapshot_of(ms: Seq<SessionV>) -> Seq<SnapV> {
    Seq::new(ms.len(), |i: int| SnapV { id: ms[i].id, data: ms[i].data })
}

/// The cosmetic snapshot of a member set.
pub open spec fn skin_snapshot_of(ms: Seq<SessionV>) -> Seq<SnapV> {
    Seq::new(ms.len(), |i: int| SnapV { id: ms[i].id, data: ms[i].skin })
}

/// The snapshot a broadcast of the given kind reads: it depends on the
/// members alone, never on the pending queue.
pub open spec fn snap_of(v: RoomV, skins: bool) -> Seq<SnapV> {
    if skins {
        skin_snapshot_of(v.members)
    } else {
        snapshot_of(v.members)
    }
}

/// The frame tag of a broadcast of the given kind.
pub open spec fn tag_of(skins: bool) -> u8 {
    if skins {
        TAG_SKIN_BROADCAST
    } else {
        TAG_DATA_BROADCAST
    }
}

/// Whether a broadcast of the given kind can encode its frame.
pub open spec fn broadcast_ok(v: RoomV, skins: bool) -> bool {
    encode_ok(snap_of(v, skins))
}

/// The frame a broadcast of the given kind delivers.
pub open spec fn frame_of(v: RoomV, skins: bool) -> Seq<u8> {
    frame_bytes(tag_of(skins), snap_of(v, skins))
}

/// Delivery of one frame: every connected member's delivery queue grows by
/// the frame; a disconnected member is skipped, never aborting the rest.
pub open spec fn deliver(ms: Seq<SessionV>, frame: Seq<u8>) -> Seq<SessionV> {
    Seq::new(
        ms.len(),
        |i: int| if ms[i].connected {
            SessionV { outbox: ms[i].outbox.push(frame), ..ms[i] }
        } else {
            ms[i]
        },
    )
}

/// The implicit leaves a delivery pass enqueues: one per member whose send
/// failed, in member order, resolved at the next flag phase.
pub open spec fn failed_leaves(ms: Seq<SessionV>) -> Seq<EventV>
    decreases ms.len(),
{
    if ms.len() == 0 {
        Seq::empty()
    } else if !ms[0].connected {
        seq![EventV::Leave(ms[0].id)] + failed_leaves(ms.drop_first())
    } else {
        failed_leaves(ms.drop_first())
    }
}

/// A room after one broadcast pass of the given kind: on an encodable
/// snapshot, the frame reaches every connected member and failed sends turn
/// into pending leaves; otherwise the room is unchanged and the same
/// broadcast is retried next tick.
pub open spec fn broadcast_spec(v: RoomV, skins: bool) -> RoomV {
    if broadcast_ok(v, skins) {
        RoomV {
            key: v.key,
            members: deliver(v.members, frame_of(v, skins)),
            pending: v.pending + failed_leaves(v.members),
        }
    } else {
        v
    }
}

/// The members with `id`'s delivery queue emptied.
pub open spec fn clear_outbox(ms: Seq<SessionV>, id: u64) -> Seq<SessionV> {
    Seq::new(
        ms.len(),
        |i: int| if ms[i].id == id {
            SessionV { outbox: Seq::empty(), ..ms[i] }
        } else {
            ms[i]
        },
    )
}

/// The members with `id`'s transport marked closed.
pub open spec fn set_connected(ms: Seq<SessionV>, id: u64, c: bool) -> Seq<SessionV> {
    Seq::new(
        ms.len(),
        |i: int| if ms[i].id == id {
            SessionV { connected: c, ..ms[i] }
        } else {
            ms[i]
        },
    )
}

/// Whether `e` would register a session carrying `id`.
pub open spec fn is_join_of(e: EventV, id: u64) -> bool {
    match e {
        EventV::Join(s) => s.id == id,
        _ => false,
    }
}

/// Whether a room holds neither members nor pending events.
pub open spec fn room_empty(v: RoomV) -> bool {
    v.members.len() == 0 && v.pending.len() == 0
}

/// Unregistering `id` leaves an `id`-free member set.
pub proof fn lemma_remove_id_not_member(ms: Seq<SessionV>, id: u64)
    ensures
        !has_member(remove_id(ms, id), id),
    decreases ms.len(),
{
    if ms.len() > 0 {
        lemma_remove_id_not_member(ms.drop_first(), id);
        if ms[0].id != id {
            let r = seq![ms[0]] + remove_id(ms.drop_first(), id);
            assert(!has_member(r, id)) by {
                if has_member(r, id) {
                    let i = choose|i: int| 0 <= i < r.len() && r[i].id == id;
                    if i == 0 {
                        assert(ms[0].id == id);
                    } else {
                        assert(r[i] == remove_id(ms.drop_first(), id)[i - 1]);
                        assert(has_member(remove_id(ms.drop_first(), id), id));
                    }
                }
            };
        }
    }
}

/// Unregistering one id cannot make another id appear.
pub proof fn lemma_remove_id_keeps_absent(ms: Seq<SessionV>, id: u64, x: u64)
    requires
        !has_member(ms, x),
    ensures
        !has_member(remove_id(ms, id), x),
    decreases ms.len(),
{
    if ms.len() > 0 {
        assert(!has_member(ms.drop_first(), x)) by {
            if has_member(ms.drop_first(), x) {
                let i = choose|i: int|
                    0 <= i < ms.drop_first().len() && ms.drop_first()[i].id == x;
                assert(ms[i + 1].id == x);
            }
        };
        lemma_remove_id_keeps_absent(ms.drop_first(), id, x);
        if ms[0].id != id {
            let r = seq![ms[0]] + remove_id(ms.drop_first(), id);
            assert(!has_member(r, x)) by {
                if has_member(r, x) {
                    let i = choose|i: int| 0 <= i < r.len() && r[i].id == x;
                    if i == 0 {
                        assert(ms[0].id == x);
                    } else {
                        assert(r[i] == remove_id(ms.drop_first(), id)[i - 1]);
                        assert(has_member(remove_id(ms.drop_first(), id), x));
                    }
                }
            };
        }
    }
}

/// Unregistering an absent id changes nothing.
pub proof fn lemma_remove_id_absent(ms: Seq<SessionV>, id: u64)
    requires
        !has_member(ms, id),
    ensures
        remove_id(ms, id) == ms,
    decreases ms.len(),
{
    if ms.len() > 0 {
        assert(ms[0].id != id);
        assert(!has_member(ms.drop_first(), id)) by {
            if has_member(ms.drop_first(), id) {
                let i = choose|i: int|
                    0 <= i < ms.drop_first().len() && ms.drop_first()[i].id == id;
                assert(ms[i + 1].id == id);
            }
        };
        lemma_remove_id_absent(ms.drop_first(), id);
        assert(seq![ms[0]] + ms.drop_first() =~= ms);
    }
}

/// With `id` at position `j` and nowhere else, unregistering `id` removes
/// exactly position `j`.
pub proof fn lemma_remove_id_at(ms: Seq<SessionV>, id: u64, j: int)
    requires
        0 <= j < ms.len(),
        ms[j].id == id,
        forall|i: int| 0 <= i < ms.len() && i != j ==> ms[i].id != id,
    ensures
        remove_id(ms, id) == ms.remove(j),
    decreases ms.len(),
{
    if j == 0 {
        assert(!has_member(ms.drop_first(), id)) by {
            if has_member(ms.drop_first(), id) {
                let i = choose|i: int|
                    0 <= i < ms.drop_first().len() && ms.drop_first()[i].id == id;
                assert(ms[i + 1].id == id);
            }
        };
        lemma_remove_id_absent(ms.drop_first(), id);
        assert(ms.remove(0) =~= ms.drop_first());
    } else {
        assert(ms[0].id != id);
        assert(ms.drop_first()[j - 1].id == id);
        assert(forall|i: int|
            0 <= i < ms.drop_first().len() && i != j - 1 ==> ms.drop_first()[i].id != id) by {
            assert(forall|i: int|
                0 <= i < ms.drop_first().len() ==> ms.drop_first()[i] == ms[i + 1]);
        };
        lemma_remove_id_at(ms.drop_first(), id, j - 1);
        assert(seq![ms[0]] + ms.drop_first().remove(j - 1) =~= ms.remove(j));
    }
}

/// Unregistering preserves id uniqueness.
pub proof fn lemma_remove_id_unique(ms: Seq<SessionV>, id: u64)
    requires
        unique_ids(ms),
    ensures
        unique_ids(remove_id(ms, id)),
    decreases ms.len(),
{
    if ms.len() > 0 {
        assert(unique_ids(ms.drop_first())) by {
            assert(forall|i: int|
                0 <= i < ms.drop_first().len() ==> ms.drop_first()[i] == ms[i + 1]);
        };
        lemma_remove_id_unique(ms.drop_first(), id);
        if ms[0].id != id {
            let rr = remove_id(ms.drop_first(), id);
            let r = seq![ms[0]] + rr;
            assert(unique_ids(r)) by {
                assert forall|a: int, b: int| 0 <= a < b < r.len() implies r[a].id != r[b].id by {
                    if a == 0 {
                        assert(r[b] == rr[b - 1]);
                        if rr[b - 1].id == ms[0].id {
                            assert(has_member(rr, ms[0].id));
                            if !has_member(ms.drop_first(), ms[0].id) {
                                lemma_remove_id_keeps_absent(ms.drop_first(), id, ms[0].id);
                            }
                            assert(has_member(ms.drop_first(), ms[0].id));
                            let i = choose|i: int|
                                0 <= i < ms.drop_first().len() && ms.drop_first()[i].id == ms[0].id;
                            assert(ms[i + 1].id == ms[0].id);
                        }
                    } else {
                        assert(r[a] == rr[a - 1] && r[b] == rr[b - 1]);
                    }
                }
            };
        }
    }
}

/// One event preserves id uniqueness.
pub proof fn lemma_apply_event_unique(ms: Seq<SessionV>, e: EventV)
    requires
        unique_ids(ms),
    ensures
        unique_ids(apply_event(ms, e)),
{
    match e {
        EventV::Join(s) => {
            if !has_member(ms, s.id) {
                let r = ms.push(s);
                assert forall|a: int, b: int| 0 <= a < b < r.len() implies r[a].id != r[b].id by {
                    if b == ms.len() {
                        if ms[a].id == s.id {
                            assert(has_member(ms, s.id));
                        }
                    }
                }
            }
        },
        EventV::Leave(id) => {
            lemma_remove_id_unique(ms, id);
        },
        EventV::Data(id, d) => {
            assert(forall|i: int| 0 <= i < ms.len() ==> set_data(ms, id, d)[i].id == ms[i].id);
        },
        EventV::Skin(id, d) => {
            assert(forall|i: int| 0 <= i < ms.len() ==> set_skin(ms, id, d)[i].id == ms[i].id);
        },
    }
}

/// A whole queue preserves id uniqueness.
pub proof fn lemma_apply_events_unique(ms: Seq<SessionV>, es: Seq<EventV>)
    requires
        unique_ids(ms),
    ensures
        unique_ids(apply_events(ms, es)),
    decreases es.len(),
{
    if es.len() > 0 {
        lemma_apply_event_unique(ms, es[0]);
        lemma_apply_events_unique(apply_event(ms, es[0]), es.drop_first());
    }
}

/// A queue with no join of `id` keeps an absent `id` absent.
pub proof fn lemma_absent_stays(ms: Seq<SessionV>, es: Seq<EventV>, id: u64)
    requires
        !has_member(ms, id),
        forall|j: int| 0 <= j < es.len() ==> !is_join_of(es[j], id),
    ensures
        !has_member(apply_events(ms, es), id),
    decreases es.len(),
{
    if es.len() > 0 {
        let m1 = apply_event(ms, es[0]);
        assert(!has_member(m1, id)) by {
            match es[0] {
                EventV::Join(s) => {
                    if !has_member(ms, s.id) {
                        assert(s.id != id);
                        if has_member(ms.push(s), id) {
                            let i = choose|i: int|
                                0 <= i < ms.push(s).len() && ms.push(s)[i].id == id;
                            if i < ms.len() {
                                assert(ms[i].id == id);
                            } else {
                                assert(ms.push(s)[i] == s);
                            }
                        }
                    }
                },
                EventV::Leave(id2) => {
                    lemma_remove_id_keeps_absent(ms, id2, id);
                },
                EventV::Data(id2, d) => {
                    if has_member(set_data(ms, id2, d), id) {
                        let i = choose|i: int|
                            0 <= i < set_data(ms, id2, d).len() && set_data(ms, id2, d)[i].id
                                == id;
                        assert(ms[i].id == id);
                    }
                },
                EventV::Skin(id2, d) => {
                    if has_member(set_skin(ms, id2, d), id) {
                        let i = choose|i: int|
                            0 <= i < set_skin(ms, id2, d).len() && set_skin(ms, id2, d)[i].id
                                == id;
                        assert(ms[i].id == id);
                    }
                },
            }
        };
        assert(forall|j: int|
            0 <= j < es.drop_first().len() ==> es.drop_first()[j] == es[j + 1]);
        lemma_absent_stays(m1, es.drop_first(), id);
    }
}

/// A session whose leave stands in the queue with no later join of the same
/// id is absent once the queue resolves: it appears in no later snapshot, so
/// a disconnecting session is seen by at most the broadcast already in
/// flight.
pub proof fn lemma_leave_is_final(ms: Seq<SessionV>, es: Seq<EventV>, k: int, id: u64)
    requires
        0 <= k < es.len(),
        es[k] == EventV::Leave(id),
        forall|j: int| k < j < es.len() ==> !is_join_of(es[j], id),
    ensures
        !has_member(apply_events(ms, es), id),
    decreases es.len(),
{
    let m1 = apply_event(ms, es[0]);
    assert(forall|j: int| 0 <= j < es.drop_first().len() ==> es.drop_first()[j] == es[j + 1]);
    if k == 0 {
        lemma_remove_id_not_member(ms, id);
        lemma_absent_stays(m1, es.drop_first(), id);
    } else {
        lemma_leave_is_final(m1, es.drop_first(), k - 1, id);
    }
}

/// An absent session has no entry in either snapshot, so no broadcast frame
/// mentions it.
pub proof fn lemma_absent_not_in_snapshot(ms: Seq<SessionV>, id: u64)
    requires
        !has_member(ms, id),
    ensures
        forall|k: int| 0 <= k < snapshot_of(ms).len() ==> snapshot_of(ms)[k].id != id,
        forall|k: int| 0 <= k < skin_snapshot_of(ms).len() ==> skin_snapshot_of(ms)[k].id != id,
{
    assert forall|k: int| 0 <= k < ms.len() implies ms[k].id != id by {
        if ms[k].id == id {
            assert(has_member(ms, id));
        }
    }
}

/// What a broadcast delivers is fixed by the member set the resolve phase
/// produced: an event enqueued after resolve returned changes neither the
/// frame nor what any member receives that tick.
pub proof fn lemma_broadcast_ignores_pending(v: RoomV, e: EventV, skins: bool)
    ensures
        broadcast_ok(RoomV { pending: v.pending.push(e), ..v }, skins) == broadcast_ok(v, skins),
        frame_of(RoomV { pending: v.pending.push(e), ..v }, skins) == frame_of(v, skins),
        broadcast_spec(RoomV { pending: v.pending.push(e), ..v }, skins).members
            == broadcast_spec(v, skins).members,
{
}

/// Appending one member extends the implicit leaves by that member's, when
/// its send would fail.
pub proof fn lemma_failed_leaves_push(ms: Seq<SessionV>, s: SessionV)
    ensures
        failed_leaves(ms.push(s)) == failed_leaves(ms) + (if s.connected {
            Seq::<EventV>::empty()
        } else {
            seq![EventV::Leave(s.id)]
        }),
    decreases ms.len(),
{
    reveal_with_fuel(failed_leaves, 3);
    let p = ms.push(s);
    let tail: Seq<EventV> = if s.connected {
        Seq::empty()
    } else {
        seq![EventV::Leave(s.id)]
    };
    if ms.len() == 0 {
        assert(p[0] == s);
        assert(p.drop_first() =~= Seq::<SessionV>::empty());
        if s.connected {
            assert(failed_leaves(ms) + tail =~= Seq::<EventV>::empty());
        } else {
            assert(seq![EventV::Leave(s.id)] + failed_leaves(p.drop_first()) =~= failed_leaves(ms)
                + tail);
        }
    } else {
        assert(p[0] == ms[0]);
        assert(p.drop_first() =~= ms.drop_first().push(s));
        lemma_failed_leaves_push(ms.drop_first(), s);
        let b = failed_leaves(ms.drop_first());
        if !ms[0].connected {
            let h = seq![EventV::Leave(ms[0].id)];
            assert(failed_leaves(p) == h + (b + tail));
            assert(failed_leaves(ms) == h + b);
            assert((h + b) + tail =~= h + (b + tail));
        } else {
            assert(failed_leaves(p) == b + tail);
            assert(failed_leaves(ms) == b);
        }
    }
}

/// Resolving keeps the room's key and its members' id uniqueness.
pub proof fn lemma_resolved_wf(v: RoomV)
    requires
        unique_ids(v.members),
    ensures
        resolved(v).key == v.key,
        unique_ids(resolved(v).members),
{
    lemma_apply_events_unique(v.members, v.pending);
}

/// A broadcast pass keeps the room's key, every member's id, and so id
/// uniqueness.
pub proof fn lemma_broadcast_spec_wf(v: RoomV, skins: bool)
    requires
        unique_ids(v.members),
    ensures
        broadcast_spec(v, skins).key == v.key,
        broadcast_spec(v, skins).members.len() == v.members.len(),
        unique_ids(broadcast_spec(v, skins).members),
{
    if broadcast_ok(v, skins) {
        let d = deliver(v.members, frame_of(v, skins));
        assert(forall|i: int| 0 <= i < v.members.len() ==> d[i].id == v.members[i].id);
    }
}

/// Finds the position of the member carrying `id`, scanning from the front.
pub fn find_first(members: &Vec<Session>, id: u64) -> (r: Option<usize>)
    ensures
        match r {
            Some(j) => j < members@.len() && mview(members@)[j as int].id == id && forall|i: int|
                0 <= i < j ==> mview(members@)[i].id != id,
            None => !has_member(mview(members@), id),
        },
{
    let mut i: usize = 0;
    while i < members.len()
        invariant
            i <= members@.len(),
            forall|k: int| 0 <= k < i ==> mview(members@)[k].id != id,
        decreases members@.len() - i,
    {
        proof {
            assert(mview(members@)[i as int] == members@[i as int]@);
        }
        if members[i].id == id {
            return Some(i);
        }
        i = i + 1;
    }
    None
}

/// An isolated group of sessions: its key, its current members, and the
/// flag events buffered since the last resolve.
pub struct Room {
    pub key: u64,
    pub members: Vec<Session>,
    pub pending: Vec<FlagEvent>,
}

impl View for Room {
    type V = RoomV;

    open spec fn view(&self) -> RoomV {
        RoomV { key: self.key, members: mview(self.members@), pending: pview(self.pending@) }
    }
}

impl Room {
    /// No two members share an id; every operation here preserves this.
    pub open spec fn wf(&self) -> bool {
        unique_ids(self@.members)
    }

    /// A fresh room under `key`, created lazily when first referenced.
    pub fn new(key: u64) -> (r: Room)
        ensures
            r@ == (RoomV { key, members: Seq::empty(), pending: Seq::empty() }),
            r.wf(),
    {
        let r = Room { key, members: Vec::new(), pending: Vec::new() };
        proof {
            assert(mview(r.members@) =~= Seq::<SessionV>::empty());
            assert(pview(r.pending@) =~= Seq::<EventV>::empty());
        }
        r
    }

    /// Appends one event to the pending queue; sessions may call this at any
    /// time, and nothing else changes until the next resolve phase.
    pub fn enqueue_flag(&mut self, e: FlagEvent)
        ensures
            final(self)@ == (RoomV { pending: old(self)@.pending.push(e@), ..old(self)@ }),
    {
        let ghost p0 = pview(self.pending@);
        let ghost ev = e@;
        self.pending.push(e);
        proof {
            assert(pview(self.pending@) =~= p0.push(ev));
        }
    }

    fn apply_one(&mut self, e: FlagEvent)
        requires
            unique_ids(mview(old(self).members@)),
        ensures
            mview(final(self).members@) == apply_event(mview(old(self).members@), e@),
            unique_ids(mview(final(self).members@)),
            final(self).key == old(self).key,
            final(self).pending == old(self).pending,
    {
        let ghost mv = mview(self.members@);
        proof {
            lemma_apply_event_unique(mv, e@);
        }
        match e {
            FlagEvent::Join(s) => {
                match find_first(&self.members, s.id) {
                    Some(_) => {
                        assert(has_member(mv, s@.id));
                    },
                    None => {
                        self.members.push(s);
                        proof {
                            assert(mview(self.members@) =~= mv.push(s@));
                        }
                    },
                }
            },
            FlagEvent::Leave(id) => {
                match find_first(&self.members, id) {
                    Some(j) => {
                        proof {
                            assert(forall|i: int|
                                0 <= i < mv.len() && i != j ==> mv[i].id != id);
                            lemma_remove_id_at(mv, id, j as int);
                        }
                        self.members.remove(j);
                        proof {
                            assert(mview(self.members@) =~= mv.remove(j as int));
                        }
                    },
                    None => {
                        proof {
                            lemma_remove_id_absent(mv, id);
                        }
                    },
                }
            },
            FlagEvent::Data(id, d) => {
                let ghost dv = d@;
                match find_first(&self.members, id) {
                    Some(j) => {
                        let s = self.members.remove(j);
                        let s2 = Session { data: d, ..s };
                        self.members.insert(j, s2);
                        proof {
                            assert(s2@ == (SessionV { data: dv, ..mv[j as int] }));
                            assert(mview(self.members@) =~= set_data(mv, id, dv));
                        }
                    },
                    None => {
                        proof {
                            assert(set_data(mv, id, dv) =~= mv);
                        }
                    },
                }
            },
            FlagEvent::Skin(id, d) => {
                let ghost dv = d@;
                match find_first(&self.members, id) {
                    Some(j) => {
                        let s = self.members.remove(j);
                        let s2 = Session { skin: d, ..s };
                        self.members.insert(j, s2);
                        proof {
                            assert(s2@ == (SessionV { skin: dv, ..mv[j as int] }));
                            assert(mview(self.members@) =~= set_skin(mv, id, dv));
                        }
                    },
                    None => {
                        proof {
                            assert(set_skin(mv, id, dv) =~= mv);
                        }
                    },
                }
            },
        }
    }

    /// Drains the pending queue in arrival order, applying each event
    /// exactly once: joins register, leaves unregister, state events merge
    /// into the member's last-known state, last write winning.
    pub fn resolve_flags(&mut self)
        requires
            old(self).wf(),
        ensures
            final(self)@ == resolved(old(self)@),
            final(self).wf(),
    {
        let ghost orig = self@;
        while self.pending.len() > 0
            invariant
                unique_ids(mview(self.members@)),
                self.key == orig.key,
                apply_events(mview(self.members@), pview(self.pending@)) == apply_events(
                    orig.members,
                    orig.pending,
                ),
            decreases self.pending@.len(),
        {
            let ghost m0 = mview(self.members@);
            let ghost p0 = pview(self.pending@);
            let e = self.pending.remove(0);
            proof {
                assert(pview(self.pending@) =~= p0.drop_first());
                assert(e@ == p0[0]);
                assert(apply_events(m0, p0) == apply_events(apply_event(m0, p0[0]), p0.drop_first()));
            }
            self.apply_one(e);
        }
        proof {
            assert(pview(self.pending@) =~= Seq::<EventV>::empty());
            assert(apply_events(mview(self.members@), pview(self.pending@)) == mview(
                self.members@,
            ));
        }
    }

    /// The tick driver's flag-phase entry point; it completes before the
    /// same tick's broadcast for this room.
    pub fn process_flags(&mut self)
        requires
            old(self).wf(),
        ensures
            final(self)@ == resolved(old(self)@),
            final(self).wf(),
    {
        self.resolve_flags()
    }

    /// The broadcast-relevant state of every current member; reads only.
    pub fn snapshot_state(&self) -> (r: Vec<PlayerSnapshot>)
        ensures
            snaps_view(r@) == snapshot_of(self@.members),
    {
        let mut out: Vec<PlayerSnapshot> = Vec::new();
        let mut i: usize = 0;
        while i < self.members.len()
            invariant
                i <= self.members@.len(),
                snaps_view(out@) == snapshot_of(mview(self.members@)).take(i as int),
            decreases self.members@.len() - i,
        {
            let ghost pre = snaps_view(out@);
            let id = self.members[i].id;
            let data = clone_bytes(&self.members[i].data);
            out.push(PlayerSnapshot { id, data });
            proof {
                assert(mview(self.members@)[i as int] == self.members@[i as int]@);
                assert(snaps_view(out@) =~= pre.push(
                    snapshot_of(mview(self.members@))[i as int],
                ));
                assert(snaps_view(out@) =~= snapshot_of(mview(self.members@)).take(i as int + 1));
            }
            i = i + 1;
        }
        proof {
            assert(snapshot_of(mview(self.members@)).take(self.members@.len() as int)
                =~= snapshot_of(mview(self.members@)));
        }
        out
    }

    /// The cosmetic state of every current member; reads only.
    pub fn skin_snapshot(&self) -> (r: Vec<PlayerSnapshot>)
        ensures
            snaps_view(r@) == skin_snapshot_of(self@.members),
    {
        let mut out: Vec<PlayerSnapshot> = Vec::new();
        let mut i: usize = 0;
        while i < self.members.len()
            invariant
                i <= self.members@.len(),
                snaps_view(out@) == skin_snapshot_of(mview(self.members@)).take(i as int),
            decreases self.members@.len() - i,
        {
            let ghost pre = snaps_view(out@);
            let id = self.members[i].id;
            let data = clone_bytes(&self.members[i].skin);
            out.push(PlayerSnapshot { id, data });
            proof {
                assert(mview(self.members@)[i as int] == self.members@[i as int]@);
                assert(snaps_view(out@) =~= pre.push(
                    skin_snapshot_of(mview(self.members@))[i as int],
                ));
                assert(snaps_view(out@) =~= skin_snapshot_of(mview(self.members@)).take(
                    i as int + 1,
                ));
            }
            i = i + 1;
        }
        proof {
            assert(skin_snapshot_of(mview(self.members@)).take(self.members@.len() as int)
                =~= skin_snapshot_of(mview(self.members@)));
        }
        out
    }

    #[verifier::rlimit(50)]
    fn do_broadcast(&mut self, skins: bool) -> (r: Result<(), ProtocolError>)
        requires
            old(self).wf(),
        ensures
            final(self)@ == broadcast_spec(old(self)@, skins),
            r is Ok <==> broadcast_ok(old(self)@, skins),
            r is Err ==> r == Err::<(), ProtocolError>(ProtocolError::PayloadTooLarge),
            final(self).wf(),
    {
        let ghost v0 = self@;
        let ghost mv0 = v0.members;
        let ghost p0 = v0.pending;
        let snap = if skins {
            self.skin_snapshot()
        } else {
            self.snapshot_state()
        };
        let tag = if skins {
            TAG_SKIN_BROADCAST
        } else {
            TAG_DATA_BROADCAST
        };
        let frame = match encode_frame(tag, &snap) {
            Ok(f) => f,
            Err(e) => {
                return Err(e);
            },
        };
        assert(frame@ == frame_of(v0, skins));
        let n = self.members.len();
        let mut i: usize = 0;
        while i < n
            invariant
                i <= n,
                self.members@.len() == n,
                mv0.len() == n,
                unique_ids(mv0),
                self.key == v0.key,
                frame@ == frame_of(v0, skins),
                forall|k: int| 0 <= k < i ==> mview(self.members@)[k] == deliver(mv0, frame@)[k],
                forall|k: int| i <= k < n ==> mview(self.members@)[k] == mv0[k],
                pview(self.pending@) == p0 + failed_leaves(mv0.take(i as int)),
            decreases n - i,
        {
            let ghost mvc = mview(self.members@);
            let ghost pvc = pview(self.pending@);
            if self.members[i].connected {
                let frame_c = clone_bytes(&frame);
                let mut s = self.members.remove(i);
                let ghost sv = s@;
                s.outbox.push(frame_c);
                proof {
                    assert(s.outbox@.len() == sv.outbox.len() + 1);
                    assert(s@ == (SessionV { outbox: sv.outbox.push(frame@), ..sv })) by {
                        assert(s.outbox.deep_view() =~~= sv.outbox.push(frame@));
                    };
                }
                self.members.insert(i, s);
                proof {
                    assert(mview(self.members@) =~= mvc.update(
                        i as int,
                        (SessionV { outbox: mvc[i as int].outbox.push(frame@), ..mvc[i as int] }),
                    ));
                    assert(mview(self.members@)[i as int] == deliver(mv0, frame@)[i as int]);
                    lemma_failed_leaves_push(mv0.take(i as int), mv0[i as int]);
                    assert(mv0.take(i as int).push(mv0[i as int]) =~= mv0.take(i as int + 1));
                    assert(pview(self.pending@) =~= p0 + failed_leaves(mv0.take(i as int + 1)));
                }
            } else {
                let id = self.members[i].id;
                self.pending.push(FlagEvent::Leave(id));
                proof {
                    assert(mview(self.members@)[i as int] == deliver(mv0, frame@)[i as int]);
                    lemma_failed_leaves_push(mv0.take(i as int), mv0[i as int]);
                    assert(mv0.take(i as int).push(mv0[i as int]) =~= mv0.take(i as int + 1));
                    assert(pview(self.pending@) =~= pvc.push(EventV::Leave(mv0[i as int].id)));
                    assert(pview(self.pending@) =~= p0 + failed_leaves(mv0.take(i as int + 1)));
                }
            }
            i = i + 1;
        }
        proof {
            assert(mv0.take(n as int) =~= mv0);
            assert(mview(self.members@) =~= deliver(mv0, frame@));
            assert(self@ == broadcast_spec(v0, skins));
            assert forall|a: int, b: int|
                0 <= a < b < mview(self.members@).len() implies mview(self.members@)[a].id
                != mview(self.members@)[b].id by {
                assert(deliver(mv0, frame@)[a].id == mv0[a].id);
                assert(deliver(mv0, frame@)[b].id == mv0[b].id);
            }
        }
        Ok(())
    }

    /// Sends the current data snapshot to every connected member's delivery
    /// queue. A member whose send fails is skipped and marked for removal at
    /// the next resolve phase, never aborting delivery to the rest; an
    /// unencodable snapshot leaves the room unchanged, to be retried next
    /// tick, and never propagates as a fatal error.
    pub fn broadcast_data(&mut self) -> (r: Result<(), ProtocolError>)
        requires
            old(self).wf(),
        ensures
            final(self)@ == broadcast_spec(old(self)@, false),
            r is Ok <==> broadcast_ok(old(self)@, false),
            r is Err ==> r == Err::<(), ProtocolError>(ProtocolError::PayloadTooLarge),
            final(self).wf(),
    {
        self.do_broadcast(false)
    }

    /// Same delivery contract as `broadcast_data`, carrying the larger,
    /// slow-changing cosmetic payload; the tick driver runs it at a
    /// thirtieth of the data cadence.
    pub fn broadcast_skins(&mut self) -> (r: Result<(), ProtocolError>)
        requires
            old(self).wf(),
        ensures
            final(self)@ == broadcast_spec(old(self)@, true),
            r is Ok <==> broadcast_ok(old(self)@, true),
            r is Err ==> r == Err::<(), ProtocolError>(ProtocolError::PayloadTooLarge),
            final(self).wf(),
    {
        self.do_broadcast(true)
    }

    /// Hands the gateway the frames queued for member `id`, emptying its
    /// delivery queue; `None` when no such member remains.
    pub fn drain_outbox(&mut self, id: u64) -> (r: Option<Vec<Vec<u8>>>)
        requires
            old(self).wf(),
        ensures
            final(self)@.key == old(self)@.key,
            final(self)@.pending == old(self)@.pending,
            final(self)@.members == clear_outbox(old(self)@.members, id),
            r is Some <==> has_member(old(self)@.members, id),
            r is Some ==> exists|j: int|
                0 <= j < old(self)@.members.len() && old(self)@.members[j].id == id
                    && r.unwrap().deep_view() == old(self)@.members[j].outbox,
            final(self).wf(),
    {
        let ghost mv = mview(self.members@);
        match find_first(&self.members, id) {
            Some(j) => {
                let mut s = self.members.remove(j);
                let frames = s.outbox;
                s.outbox = Vec::new();
                proof {
                    assert(s.outbox.deep_view() =~= Seq::<Seq<u8>>::empty());
                }
                self.members.insert(j, s);
                proof {
                    assert(forall|i: int| 0 <= i < mv.len() && i != j ==> mv[i].id != id);
                    assert(mview(self.members@) =~= clear_outbox(mv, id));
                    assert(frames.deep_view() == mv[j as int].outbox);
                    assert forall|a: int, b: int|
                        0 <= a < b < mview(self.members@).len() implies mview(
                        self.members@,
                    )[a].id != mview(self.members@)[b].id by {
                        assert(clear_outbox(mv, id)[a].id == mv[a].id);
                        assert(clear_outbox(mv, id)[b].id == mv[b].id);
                    }
                }
                Some(frames)
            },
            None => {
                proof {
                    assert(clear_outbox(mv, id) =~= mv);
                }
                None
            },
        }
    }

    /// The gateway's report that member `id`'s transport closed or a send to
    /// it failed: the member is marked disconnected and an implicit leave is
    /// queued, so the next resolve phase removes it.
    pub fn session_closed(&mut self, id: u64)
        requires
            old(self).wf(),
        ensures
            final(self)@ == (RoomV {
                key: old(self)@.key,
                members: set_connected(old(self)@.members, id, false),
                pending: old(self)@.pending.push(EventV::Leave(id)),
            }),
            final(self).wf(),
    {
        let ghost mv = mview(self.members@);
        let ghost p0 = pview(self.pending@);
        match find_first(&self.members, id) {
            Some(j) => {
                let mut s = self.members.remove(j);
                s.connected = false;
                self.members.insert(j, s);
                proof {
                    assert(forall|i: int| 0 <= i < mv.len() && i != j ==> mv[i].id != id);
                    assert(mview(self.members@) =~= set_connected(mv, id, false));
                }
            },
            None => {
                proof {
                    assert(set_connected(mv, id, false) =~= mv);
                }
            },
        }
        self.pending.push(FlagEvent::Leave(id));
        proof {
            assert(pview(self.pending@) =~= p0.push(EventV::Leave(id)));
            assert forall|a: int, b: int|
                0 <= a < b < mview(self.members@).len() implies mview(self.members@)[a].id
                != mview(self.members@)[b].id by {
                assert(set_connected(mv, id, false)[a].id == mv[a].id);
                assert(set_connected(mv, id, false)[b].id == mv[b].id);
            }
        }
    }
}

} // verus!
