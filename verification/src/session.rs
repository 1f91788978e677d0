//! One server-side session per client connection: its identity, peer
//! addresses, last-reported state, and the frames queued for delivery back
//! to the client. Inbound frames update the session's own state at once and
//! are mirrored as flag events into the owning room's pending buffer, where
//! the next resolve phase applies them.

use vstd::prelude::*;

use crate::auth::Identity;
use crate::net::NetworkInfo;
use crate::protocol::{clone_bytes, decode_frame, decode_spec, InboundMsg, MsgV, ProtocolError};
use crate::room::{EventV, FlagEvent};

verus! {

/// The server-side representative of one client connection.
pub struct Session {
    pub id: u64,
    pub identity: Identity,
    pub info: NetworkInfo,
    pub data: Vec<u8>,
    pub skin: Vec<u8>,
    pub connected: bool,
    pub outbox: Vec<Vec<u8>>,
    pub room: Option<u64>,
}

/// Mathematical image of a session.
pub struct SessionV {
    pub id: u64,
    pub identity: Identity,
    pub ip: Seq<char>,
    pub real_ip: Option<Seq<char>>,
    pub data: Seq<u8>,
    pub skin: Seq<u8>,
    pub connected: bool,
    pub outbox: Seq<Seq<u8>>,
    pub room: Option<u64>,
}

impl View for Session {
    type V = SessionV;

    open spec fn view(&self) -> SessionV {
        SessionV {
            id: self.id,
            identity: self.identity,
            ip: self.info.ip@,
            real_ip: match self.info.real_ip {
                Some(s) => Some(s@),
                None => None,
            },
            data: self.data@,
            skin: self.skin@,
            connected: self.connected,
            outbox: self.outbox.deep_view(),
            room: self.room,
        }
    }
}

/// The (room key, event) pairs a session hands the gateway, as their images.
pub open spec fn events_view(evs: Seq<(u64, FlagEvent)>) -> Seq<(u64, EventV)> {
    evs.map_values(|pr: (u64, FlagEvent)| (pr.0, pr.1@))
}

/// What a session enqueues into its room for one mirrored event: nothing
/// while it belongs to no room.
pub open spec fn mirror_events(room: Option<u64>, e: EventV) -> Seq<(u64, EventV)> {
    match room {
        Some(k) => seq![(k, e)],
        None => Seq::empty(),
    }
}

/// The copy of a session that joins room `k` as a member: current state, a
/// live connection, an empty delivery queue.
pub open spec fn member_snap(v: SessionV, k: u64) -> SessionV {
    SessionV { connected: true, outbox: Seq::empty(), room: Some(k), ..v }
}

/// What a join of room `k` enqueues: first a leave of the old room, if any,
/// so that the session belongs to at most one room.
pub open spec fn join_events(v: SessionV, k: u64) -> Seq<(u64, EventV)> {
    match v.room {
        Some(r0) => seq![(r0, EventV::Leave(v.id)), (k, EventV::Join(member_snap(v, k)))],
        None => seq![(k, EventV::Join(member_snap(v, k)))],
    }
}

/// What an explicit leave or a disconnect enqueues.
pub open spec fn leave_events(v: SessionV) -> Seq<(u64, EventV)> {
    match v.room {
        Some(r0) => seq![(r0, EventV::Leave(v.id))],
        None => Seq::empty(),
    }
}

fn clone_opt_string(o: &Option<String>) -> (r: Option<String>)
    ensures
        r == *o,
{
    match o {
        Some(s) => Some(s.clone()),
        None => None,
    }
}

impl Session {
    /// Creates the session for a freshly accepted connection, after the
    /// handshake resolved its identity and peer addresses.
    pub fn on_connect(id: u64, identity: Identity, info: NetworkInfo) -> (s: Session)
        ensures
            s@ == (SessionV {
                id,
                identity,
                ip: info.ip@,
                real_ip: match info.real_ip {
                    Some(ip) => Some(ip@),
                    None => None,
                },
                data: Seq::empty(),
                skin: Seq::empty(),
                connected: true,
                outbox: Seq::empty(),
                room: None,
            }),
    {
        let s = Session {
            id,
            identity,
            info,
            data: Vec::new(),
            skin: Vec::new(),
            connected: true,
            outbox: Vec::new(),
            room: None,
        };
        proof {
            assert(s.outbox.deep_view() =~= Seq::<Seq<u8>>::empty());
        }
        s
    }

    /// The member-side copy of this session that a join event carries into
    /// room `k`.
    pub fn member_copy(&self, k: u64) -> (s: Session)
        ensures
            s@ == member_snap(self@, k),
    {
        let s = Session {
            id: self.id,
            identity: self.identity,
            info: NetworkInfo {
                ip: self.info.ip.clone(),
                real_ip: clone_opt_string(&self.info.real_ip),
            },
            data: clone_bytes(&self.data),
            skin: clone_bytes(&self.skin),
            connected: true,
            outbox: Vec::new(),
            room: Some(k),
        };
        proof {
            assert(s.outbox.deep_view() =~= Seq::<Seq<u8>>::empty());
        }
        s
    }

    /// Handles one inbound frame: the session's own state is updated at
    /// once, and the returned (room key, event) pairs are what the gateway
    /// must enqueue so the next resolve phase mirrors the change. A
    /// malformed frame changes nothing and terminates only this session.
    pub fn on_inbound_frame(&mut self, bytes: &Vec<u8>) -> (r: Result<
        Vec<(u64, FlagEvent)>,
        ProtocolError,
    >)
        ensures
            match decode_spec(bytes@) {
                Option::None => r == Err::<Vec<(u64, FlagEvent)>, ProtocolError>(
                    ProtocolError::Malformed,
                ) && *final(self) == *old(self),
                Option::Some(m) => r is Ok && match m {
                    MsgV::Data(p) => final(self)@ == (SessionV { data: p, ..old(self)@ })
                        && events_view(r.unwrap()@) == mirror_events(
                        old(self)@.room,
                        EventV::Data(old(self)@.id, p),
                    ),
                    MsgV::Skin(p) => final(self)@ == (SessionV { skin: p, ..old(self)@ })
                        && events_view(r.unwrap()@) == mirror_events(
                        old(self)@.room,
                        EventV::Skin(old(self)@.id, p),
                    ),
                    MsgV::Join(k) => final(self)@ == (SessionV { room: Some(k), ..old(self)@ })
                        && events_view(r.unwrap()@) == join_events(old(self)@, k),
                    MsgV::Leave => final(self)@ == (SessionV { room: None, ..old(self)@ })
                        && events_view(r.unwrap()@) == leave_events(old(self)@),
                },
            },
    {
        let msg = match decode_frame(bytes) {
            Ok(m) => m,
            Err(_) => {
                return Err(ProtocolError::Malformed);
            },
        };
        match msg {
            InboundMsg::Data(p) => {
                self.data = clone_bytes(&p);
                let mut evs: Vec<(u64, FlagEvent)> = Vec::new();
                match self.room {
                    Some(k) => {
                        evs.push((k, FlagEvent::Data(self.id, p)));
                    },
                    None => {},
                }
                proof {
                    assert(events_view(evs@) =~= mirror_events(
                        old(self)@.room,
                        EventV::Data(old(self)@.id, bytes@.subrange(1, bytes@.len() as int)),
                    ));
                }
                Ok(evs)
            },
            InboundMsg::Skin(p) => {
                self.skin = clone_bytes(&p);
                let mut evs: Vec<(u64, FlagEvent)> = Vec::new();
                match self.room {
                    Some(k) => {
                        evs.push((k, FlagEvent::Skin(self.id, p)));
                    },
                    None => {},
                }
                proof {
                    assert(events_view(evs@) =~= mirror_events(
                        old(self)@.room,
                        EventV::Skin(old(self)@.id, bytes@.subrange(1, bytes@.len() as int)),
                    ));
                }
                Ok(evs)
            },
            InboundMsg::Join(k) => {
                let snap = self.member_copy(k);
                let mut evs: Vec<(u64, FlagEvent)> = Vec::new();
                match self.room {
                    Some(r0) => {
                        evs.push((r0, FlagEvent::Leave(self.id)));
                    },
                    None => {},
                }
                evs.push((k, FlagEvent::Join(snap)));
                self.room = Some(k);
                proof {
                    assert(events_view(evs@) =~= join_events(old(self)@, k));
                }
                Ok(evs)
            },
            InboundMsg::Leave => {
                let mut evs: Vec<(u64, FlagEvent)> = Vec::new();
                match self.room {
                    Some(r0) => {
                        evs.push((r0, FlagEvent::Leave(self.id)));
                    },
                    None => {},
                }
                self.room = None;
                proof {
                    assert(events_view(evs@) =~= leave_events(old(self)@));
                }
                Ok(evs)
            },
        }
    }

    /// Tears the session down on transport close, error, or protocol
    /// violation: it unconditionally reports the leave its room must see, so
    /// no room keeps a stale, unreachable member.
    pub fn on_disconnect(&mut self) -> (evs: Vec<(u64, FlagEvent)>)
        ensures
            final(self)@ == (SessionV { room: None, connected: false, ..old(self)@ }),
            events_view(evs@) == leave_events(old(self)@),
    {
        self.connected = false;
        let mut evs: Vec<(u64, FlagEvent)> = Vec::new();
        match self.room {
            Some(r0) => {
                evs.push((r0, FlagEvent::Leave(self.id)));
            },
            None => {},
        }
        self.room = None;
        proof {
            assert(events_view(evs@) =~= leave_events(old(self)@));
        }
        evs
    }
}

} // verus!
