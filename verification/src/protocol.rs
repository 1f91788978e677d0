//! The wire protocol of the core: inbound client frames classify into a
//! state update, a cosmetic update, a join, a leave, or malformed; outbound
//! frames carry a room's data or skin snapshot, length-prefixed per member.

use vstd::prelude::*;

verus! {

/// First byte of an inbound state-update frame.
pub const TAG_DATA: u8 = 0;

/// First byte of an inbound cosmetic-update frame.
pub const TAG_SKIN: u8 = 1;

/// First byte of an inbound join frame; the room key follows in eight bytes.
pub const TAG_JOIN: u8 = 2;

/// The one-byte inbound leave frame.
pub const TAG_LEAVE: u8 = 3;

/// First byte of an outbound data-broadcast frame.
pub const TAG_DATA_BROADCAST: u8 = 16;

/// First byte of an outbound skin-broadcast frame.
pub const TAG_SKIN_BROADCAST: u8 = 17;

/// Largest per-member payload and member count an outbound frame can carry.
pub const MAX_FIELD: usize = 0xFFFF;

/// Why a frame was refused: it did not classify, or a snapshot outgrew the
/// frame's length fields.
#[derive(Clone, Copy, PartialEq, Eq, Structural, Debug)]
pub enum ProtocolError {
    Malformed,
    PayloadTooLarge,
}

/// A decoded inbound frame.
pub enum InboundMsg {
    Data(Vec<u8>),
    Skin(Vec<u8>),
    Join(u64),
    Leave,
}

/// Mathematical image of an inbound frame.
pub enum MsgV {
    Data(Seq<u8>),
    Skin(Seq<u8>),
    Join(u64),
    Leave,
}

impl View for InboundMsg {
    type V = MsgV;

    open spec fn view(&self) -> MsgV {
        match self {
            InboundMsg::Data(p) => MsgV::Data(p@),
            InboundMsg::Skin(p) => MsgV::Skin(p@),
            InboundMsg::Join(k) => MsgV::Join(*k),
            InboundMsg::Leave => MsgV::Leave,
        }
    }
}

/// One member's entry in a broadcast snapshot: the member and its payload.
pub struct PlayerSnapshot {
    pub id: u64,
    pub data: Vec<u8>,
}

/// Mathematical image of a snapshot entry.
pub struct SnapV {
    pub id: u64,
    pub data: Seq<u8>,
}

impl View for PlayerSnapshot {
    type V = SnapV;

    open spec fn view(&self) -> SnapV {
        SnapV { id: self.id, data: self.data@ }
    }
}

/// The entries of a snapshot vector, as their mathematical images.
pub open spec fn snaps_view(s: Seq<PlayerSnapshot>) -> Seq<SnapV> {
    s.map_values(|p: PlayerSnapshot| p@)
}

/// The two big-endian bytes of a 16-bit value.
pub open spec fn be16(n: u16) -> Seq<u8> {
    seq![(n / 0x100) as u8, (n % 0x100) as u8]
}

/// The eight big-endian bytes of a 64-bit value.
pub open spec fn be64(n: u64) -> Seq<u8> {
    seq![
        (n / 0x100000000000000) as u8,
        ((n / 0x1000000000000) % 0x100) as u8,
        ((n / 0x10000000000) % 0x100) as u8,
        ((n / 0x100000000) % 0x100) as u8,
        ((n / 0x1000000) % 0x100) as u8,
        ((n / 0x10000) % 0x100) as u8,
        ((n / 0x100) % 0x100) as u8,
        (n % 0x100) as u8,
    ]
}

/// The value eight big-endian bytes stand for.
pub open spec fn be64_val(s: Seq<u8>) -> u64
    recommends
        s.len() == 8,
{
    (s[0] as int * 0x100000000000000 + s[1] as int * 0x1000000000000 + s[2] as int * 0x10000000000
        + s[3] as int * 0x100000000 + s[4] as int * 0x1000000 + s[5] as int * 0x10000
        + s[6] as int * 0x100 + s[7] as int) as u64
}

/// How an inbound frame classifies: its message, or nothing when malformed.
pub open spec fn decode_spec(b: Seq<u8>) -> Option<MsgV> {
    if b.len() == 0 {
        None
    } else if b[0] == TAG_DATA {
        Some(MsgV::Data(b.subrange(1, b.len() as int)))
    } else if b[0] == TAG_SKIN {
        Some(MsgV::Skin(b.subrange(1, b.len() as int)))
    } else if b[0] == TAG_JOIN {
        if b.len() == 9 {
            Some(MsgV::Join(be64_val(b.subrange(1, 9))))
        } else {
            None
        }
    } else if b[0] == TAG_LEAVE {
        if b.len() == 1 {
            Some(MsgV::Leave)
        } else {
            None
        }
    } else {
        None
    }
}

/// The bytes of one member's record in an outbound frame.
pub open spec fn record_bytes(e: SnapV) -> Seq<u8>
    recommends
        e.data.len() <= MAX_FIELD,
{
    be64(e.id) + be16(e.data.len() as u16) + e.data
}

/// The concatenated records of a snapshot, in member order.
pub open spec fn records_bytes(es: Seq<SnapV>) -> Seq<u8>
    decreases es.len(),
{
    if es.len() == 0 {
        Seq::empty()
    } else {
        record_bytes(es[0]) + records_bytes(es.drop_first())
    }
}

/// Whether a snapshot fits an outbound frame's length fields.
pub open spec fn encode_ok(es: Seq<SnapV>) -> bool {
    es.len() <= MAX_FIELD && forall|i: int| 0 <= i < es.len() ==> es[i].data.len() <= MAX_FIELD
}

/// The bytes of a whole outbound frame: tag, member count, then the records.
pub open spec fn frame_bytes(tag: u8, es: Seq<SnapV>) -> Seq<u8>
    recommends
        encode_ok(es),
{
    seq![tag] + be16(es.len() as u16) + records_bytes(es)
}

/// Appending one record extends the concatenated records by its bytes.
#[verifier::rlimit(50)]
pub proof fn lemma_records_push(es: Seq<SnapV>, e: SnapV)
    ensures
        records_bytes(es.push(e)) == records_bytes(es) + record_bytes(e),
    decreases es.len(),
{
    let p = es.push(e);
    assert(p.len() == es.len() + 1);
    assert(records_bytes(p) == record_bytes(p[0]) + records_bytes(p.drop_first()));
    if es.len() == 0 {
        assert(p[0] == e);
        assert(p.drop_first() =~= Seq::<SnapV>::empty());
        assert(records_bytes(p.drop_first()) == Seq::<u8>::empty());
        assert(record_bytes(e) + Seq::<u8>::empty() =~= Seq::<u8>::empty() + record_bytes(e));
    } else {
        assert(p[0] == es[0]);
        assert(p.drop_first() =~= es.drop_first().push(e));
        lemma_records_push(es.drop_first(), e);
        let a = record_bytes(es[0]);
        let b = records_bytes(es.drop_first());
        let c = record_bytes(e);
        assert(records_bytes(p.drop_first()) == b + c);
        assert(records_bytes(es) == a + b);
        assert((a + b) + c =~= a + (b + c));
    }
}

/// Copies a byte vector.
pub fn clone_bytes(v: &Vec<u8>) -> (r: Vec<u8>)
    ensures
        r@ == v@,
{
    let mut out: Vec<u8> = Vec::new();
    let mut i: usize = 0;
    while i < v.len()
        invariant
            i <= v@.len(),
            out@ == v@.subrange(0, i as int),
        decreases v@.len() - i,
    {
        out.push(v[i]);
        proof {
            assert(v@.subrange(0, i as int).push(v@[i as int]) =~= v@.subrange(0, i as int + 1));
        }
        i = i + 1;
    }
    proof {
        assert(v@.subrange(0, v@.len() as int) =~= v@);
    }
    out
}

/// Copies a frame's payload: every byte after the tag.
fn tail_bytes(bytes: &Vec<u8>) -> (r: Vec<u8>)
    requires
        bytes@.len() >= 1,
    ensures
        r@ == bytes@.subrange(1, bytes@.len() as int),
{
    let mut out: Vec<u8> = Vec::new();
    let mut i: usize = 1;
    while i < bytes.len()
        invariant
            1 <= i <= bytes@.len(),
            out@ == bytes@.subrange(1, i as int),
        decreases bytes@.len() - i,
    {
        out.push(bytes[i]);
        proof {
            assert(bytes@.subrange(1, i as int).push(bytes@[i as int]) =~= bytes@.subrange(
                1,
                i as int + 1,
            ));
        }
        i = i + 1;
    }
    out
}

/// Reads the eight big-endian bytes at `off` as a 64-bit value.
fn be64_decode(bytes: &Vec<u8>, off: usize) -> (r: u64)
    requires
        off + 8 <= bytes@.len(),
    ensures
        r == be64_val(bytes@.subrange(off as int, off as int + 8)),
{
    let n = bytes.len();
    assert(off + 8 <= n);
    let x0 = bytes[off] as u64;
    let x1 = bytes[off + 1] as u64;
    let x2 = bytes[off + 2] as u64;
    let x3 = bytes[off + 3] as u64;
    let x4 = bytes[off + 4] as u64;
    let x5 = bytes[off + 5] as u64;
    let x6 = bytes[off + 6] as u64;
    let x7 = bytes[off + 7] as u64;
    x0 * 0x100000000000000 + x1 * 0x1000000000000 + x2 * 0x10000000000 + x3 * 0x100000000 + x4
        * 0x1000000 + x5 * 0x10000 + x6 * 0x100 + x7
}

/// Classifies one inbound frame; a frame that fits no class is malformed and
/// terminates only the session that sent it.
pub fn decode_frame(bytes: &Vec<u8>) -> (r: Result<InboundMsg, ProtocolError>)
    ensures
        match r {
            Ok(m) => decode_spec(bytes@) == Some(m@),
            Err(e) => decode_spec(bytes@) is None && e == ProtocolError::Malformed,
        },
{
    if bytes.len() == 0 {
        return Err(ProtocolError::Malformed);
    }
    let tag = bytes[0];
    if tag == TAG_DATA {
        Ok(InboundMsg::Data(tail_bytes(bytes)))
    } else if tag == TAG_SKIN {
        Ok(InboundMsg::Skin(tail_bytes(bytes)))
    } else if tag == TAG_JOIN {
        if bytes.len() == 9 {
            Ok(InboundMsg::Join(be64_decode(bytes, 1)))
        } else {
            Err(ProtocolError::Malformed)
        }
    } else if tag == TAG_LEAVE {
        if bytes.len() == 1 {
            Ok(InboundMsg::Leave)
        } else {
            Err(ProtocolError::Malformed)
        }
    } else {
        Err(ProtocolError::Malformed)
    }
}

/// Appends the two big-endian bytes of `n`.
fn push_be16(out: &mut Vec<u8>, n: u16)
    ensures
        final(out)@ == old(out)@ + be16(n),
{
    out.push((n / 0x100) as u8);
    out.push((n % 0x100) as u8);
    proof {
        assert(out@ =~= old(out)@ + be16(n));
    }
}

/// Appends the eight big-endian bytes of `n`.
fn push_be64(out: &mut Vec<u8>, n: u64)
    ensures
        final(out)@ == old(out)@ + be64(n),
{
    out.push((n / 0x100000000000000) as u8);
    out.push(((n / 0x1000000000000) % 0x100) as u8);
    out.push(((n / 0x10000000000) % 0x100) as u8);
    out.push(((n / 0x100000000) % 0x100) as u8);
    out.push(((n / 0x1000000) % 0x100) as u8);
    out.push(((n / 0x10000) % 0x100) as u8);
    out.push(((n / 0x100) % 0x100) as u8);
    out.push((n % 0x100) as u8);
    proof {
        assert(out@ =~= old(out)@ + be64(n));
    }
}

/// Appends every byte of `data`.
fn push_bytes(out: &mut Vec<u8>, data: &Vec<u8>)
    ensures
        final(out)@ == old(out)@ + data@,
{
    let mut i: usize = 0;
    while i < data.len()
        invariant
            i <= data@.len(),
            out@ == old(out)@ + data@.subrange(0, i as int),
        decreases data@.len() - i,
    {
        out.push(data[i]);
        proof {
            assert((old(out)@ + data@.subrange(0, i as int)).push(data@[i as int]) =~= old(out)@
                + data@.subrange(0, i as int + 1));
        }
        i = i + 1;
    }
    proof {
        assert(data@.subrange(0, data@.len() as int) =~= data@);
    }
}

/// Encodes a snapshot as one outbound frame under `tag`; fails, with nothing
/// encoded, exactly when the member count or one member's payload outgrows
/// the frame's length fields.
pub fn encode_frame(tag: u8, entries: &Vec<PlayerSnapshot>) -> (r: Result<Vec<u8>, ProtocolError>)
    ensures
        r is Ok <==> encode_ok(snaps_view(entries@)),
        match r {
            Ok(out) => out@ == frame_bytes(tag, snaps_view(entries@)),
            Err(e) => e == ProtocolError::PayloadTooLarge,
        },
{
    assert(snaps_view(entries@).len() == entries@.len());
    if entries.len() > MAX_FIELD {
        return Err(ProtocolError::PayloadTooLarge);
    }
    let mut i: usize = 0;
    while i < entries.len()
        invariant
            i <= entries@.len(),
            forall|k: int| 0 <= k < i ==> snaps_view(entries@)[k].data.len() <= MAX_FIELD,
        decreases entries@.len() - i,
    {
        assert(snaps_view(entries@)[i as int] == entries@[i as int]@);
        if entries[i].data.len() > MAX_FIELD {
            return Err(ProtocolError::PayloadTooLarge);
        }
        i = i + 1;
    }
    assert(encode_ok(snaps_view(entries@)));
    let ghost sv = snaps_view(entries@);
    let mut out: Vec<u8> = Vec::new();
    out.push(tag);
    push_be16(&mut out, entries.len() as u16);
    assert(out@ =~= seq![tag] + be16(entries@.len() as u16));
    let mut i: usize = 0;
    while i < entries.len()
        invariant
            i <= entries@.len(),
            sv == snaps_view(entries@),
            encode_ok(sv),
            out@ == seq![tag] + be16(entries@.len() as u16) + records_bytes(sv.take(i as int)),
        decreases entries@.len() - i,
    {
        assert(sv[i as int] == entries@[i as int]@);
        push_be64(&mut out, entries[i].id);
        push_be16(&mut out, entries[i].data.len() as u16);
        push_bytes(&mut out, &entries[i].data);
        proof {
            lemma_records_push(sv.take(i as int), sv[i as int]);
            assert(sv.take(i as int).push(sv[i as int]) =~= sv.take(i as int + 1));
            assert(out@ =~= seq![tag] + be16(entries@.len() as u16) + records_bytes(
                sv.take(i as int + 1),
            ));
        }
        i = i + 1;
    }
    proof {
        assert(sv.take(entries@.len() as int) =~= sv);
    }
    Ok(out)
}

} // verus!
