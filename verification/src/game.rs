//! The tick driver: at a fixed cadence it fans out over all rooms in
//! parallel, first resolving every room's pending flags, then broadcasting
//! every room's data snapshot, and on every thirtieth tick also its cosmetic
//! snapshot. Rooms never share mutable state, so the fan-out needs no
//! cross-room coordination, and one room's failure never touches another.

use vstd::prelude::*;

use rayon::iter::{IntoParallelRefMutIterator, ParallelIterator};
use vstd::arithmetic::div_mod::{lemma_mod_adds, lemma_mod_bound};

use crate::registry::{rview, Registry};
use crate::room::{
    broadcast_spec, lemma_broadcast_spec_wf, lemma_resolved_wf, resolved, unique_ids, Room, RoomV,
};

verus! {

/// Every room after its flag phase.
pub open spec fn resolve_pass(rs: Seq<RoomV>) -> Seq<RoomV> {
    rs.map_values(|v: RoomV| resolved(v))
}

/// Every room after its data-broadcast phase.
pub open spec fn data_pass(rs: Seq<RoomV>) -> Seq<RoomV> {
    rs.map_values(|v: RoomV| broadcast_spec(v, false))
}

/// Every room after its skin-broadcast phase.
pub open spec fn skin_pass(rs: Seq<RoomV>) -> Seq<RoomV> {
    rs.map_values(|v: RoomV| broadcast_spec(v, true))
}

/// Relies on rayon's `par_iter_mut().for_each`: the closure runs exactly
/// once on each element, in place, with no element shared between workers.
/// Rooms are independent, so the fan-out leaves every room as one call of
/// its own `process_flags`.
#[verifier::external_body]
fn par_resolve(rooms: &mut Vec<Room>)
    requires
        forall|i: int| 0 <= i < old(rooms)@.len() ==> unique_ids(old(rooms)@[i]@.members),
    ensures
        final(rooms)@.len() == old(rooms)@.len(),
        forall|i: int|
            0 <= i < old(rooms)@.len() ==> final(rooms)@[i]@ == resolved(old(rooms)@[i]@),
{
    rooms.par_iter_mut().for_each(|room| room.process_flags());
}

/// Relies on rayon's `par_iter_mut().for_each`, as `par_resolve` does: every
/// room ends as one call of its own `broadcast_data`, a failing room keeping
/// its state for a retry while the rest still deliver.
#[verifier::external_body]
fn par_broadcast_data(rooms: &mut Vec<Room>)
    requires
        forall|i: int| 0 <= i < old(rooms)@.len() ==> unique_ids(old(rooms)@[i]@.members),
    ensures
        final(rooms)@.len() == old(rooms)@.len(),
        forall|i: int|
            0 <= i < old(rooms)@.len() ==> final(rooms)@[i]@ == broadcast_spec(
                old(rooms)@[i]@,
                false,
            ),
{
    rooms.par_iter_mut().for_each(|room| {
        let _ = room.broadcast_data();
    });
}

/// Relies on rayon's `par_iter_mut().for_each`, as `par_resolve` does: every
/// room ends as one call of its own `broadcast_skins`.
#[verifier::external_body]
fn par_broadcast_skins(rooms: &mut Vec<Room>)
    requires
        forall|i: int| 0 <= i < old(rooms)@.len() ==> unique_ids(old(rooms)@[i]@.members),
    ensures
        final(rooms)@.len() == old(rooms)@.len(),
        forall|i: int|
            0 <= i < old(rooms)@.len() ==> final(rooms)@[i]@ == broadcast_spec(
                old(rooms)@[i]@,
                true,
            ),
{
    rooms.par_iter_mut().for_each(|room| {
        let _ = room.broadcast_skins();
    });
}

/// How many data-broadcast ticks pass between skin broadcasts.
pub const SKIN_PERIOD: u64 = 30;

/// The tick driver's own state: how many data ticks have run since the last
/// skin broadcast.
pub struct Game {
    pub counter: u64,
}

/// The counter after one more tick: it wraps to zero on the tick whose skin
/// broadcast fires.
pub open spec fn next_counter(c: u64) -> u64
    recommends
        c < SKIN_PERIOD,
{
    if c as int + 1 == SKIN_PERIOD {
        0
    } else {
        (c as int + 1) as u64
    }
}

/// Whether the tick entered with counter `c` fires the skin broadcast.
pub open spec fn fires_skins(c: u64) -> bool {
    c as int + 1 == SKIN_PERIOD
}

/// The counter a fresh driver holds after `n` ticks.
pub open spec fn counter_after(n: nat) -> u64
    decreases n,
{
    if n == 0 {
        0
    } else {
        next_counter(counter_after((n - 1) as nat))
    }
}

/// Skin broadcasts fire exactly once per thirty data-broadcast ticks: from a
/// fresh driver, tick `n` fires them exactly when `n` is a multiple of
/// thirty, and never depending on how many rooms exist or how many failed.
pub proof fn lemma_skin_cadence(n: nat)
    ensures
        counter_after(n) == n % (SKIN_PERIOD as nat),
        n >= 1 ==> (fires_skins(counter_after((n - 1) as nat)) <==> n % (SKIN_PERIOD as nat)
            == 0),
    decreases n,
{
    let p = SKIN_PERIOD as int;
    if n == 0 {
    } else {
        lemma_skin_cadence((n - 1) as nat);
        let c = counter_after((n - 1) as nat);
        lemma_mod_bound(n as int - 1, p);
        lemma_mod_adds(n as int - 1, 1, p);
        assert(1int % p == 1);
        if c as int + 1 == p {
            assert((n as int - 1) % p == p - 1);
            assert(n as int % p == 0);
        } else {
            assert((n as int - 1) % p + 1 < p);
            assert(n as int % p == (n as int - 1) % p + 1);
        }
    }
}

impl Game {
    /// The counter stays below the skin period.
    pub open spec fn wf(&self) -> bool {
        self.counter < SKIN_PERIOD
    }

    /// A fresh driver, its counter at zero.
    pub fn new() -> (g: Game)
        ensures
            g.counter == 0,
            g.wf(),
    {
        Game { counter: 0 }
    }

    /// The tick driver's flag phase: every room in the registry resolves its
    /// pending queue, in parallel, no room touching another's state.
    pub fn process_flags(registry: &mut Registry)
        requires
            old(registry).wf(),
        ensures
            final(registry)@ == resolve_pass(old(registry)@),
            final(registry).wf(),
    {
        let ghost r0 = rview(registry.rooms@);
        proof {
            assert forall|i: int| 0 <= i < registry.rooms@.len() implies unique_ids(
                registry.rooms@[i]@.members,
            ) by {
                assert(r0[i] == registry.rooms@[i]@);
            }
        }
        par_resolve(&mut registry.rooms);
        proof {
            assert(rview(registry.rooms@) =~= resolve_pass(r0));
            assert forall|i: int| 0 <= i < r0.len() implies unique_ids(
                #[trigger] resolve_pass(r0)[i].members,
            ) && resolve_pass(r0)[i].key == r0[i].key by {
                lemma_resolved_wf(r0[i]);
            }
        }
    }

    /// The tick driver's data-broadcast phase: every room delivers its data
    /// snapshot, in parallel; a room that fails is retried next tick while
    /// the rest still deliver, and no error stops the driver.
    pub fn broadcast_data(registry: &mut Registry)
        requires
            old(registry).wf(),
        ensures
            final(registry)@ == data_pass(old(registry)@),
            final(registry).wf(),
    {
        let ghost r0 = rview(registry.rooms@);
        proof {
            assert forall|i: int| 0 <= i < registry.rooms@.len() implies unique_ids(
                registry.rooms@[i]@.members,
            ) by {
                assert(r0[i] == registry.rooms@[i]@);
            }
        }
        par_broadcast_data(&mut registry.rooms);
        proof {
            assert(rview(registry.rooms@) =~= data_pass(r0));
            assert forall|i: int| 0 <= i < r0.len() implies unique_ids(
                #[trigger] data_pass(r0)[i].members,
            ) && data_pass(r0)[i].key == r0[i].key by {
                lemma_broadcast_spec_wf(r0[i], false);
            }
        }
    }

    /// The tick driver's skin-broadcast phase, run once per thirty ticks,
    /// with the same delivery and isolation contract as the data phase.
    pub fn broadcast_skins(registry: &mut Registry)
        requires
            old(registry).wf(),
        ensures
            final(registry)@ == skin_pass(old(registry)@),
            final(registry).wf(),
    {
        let ghost r0 = rview(registry.rooms@);
        proof {
            assert forall|i: int| 0 <= i < registry.rooms@.len() implies unique_ids(
                registry.rooms@[i]@.members,
            ) by {
                assert(r0[i] == registry.rooms@[i]@);
            }
        }
        par_broadcast_skins(&mut registry.rooms);
        proof {
            assert(rview(registry.rooms@) =~= skin_pass(r0));
            assert forall|i: int| 0 <= i < r0.len() implies unique_ids(
                #[trigger] skin_pass(r0)[i].members,
            ) && skin_pass(r0)[i].key == r0[i].key by {
                lemma_broadcast_spec_wf(r0[i], true);
            }
        }
    }

    /// One whole tick: flag resolution strictly precedes the broadcast of
    /// the same tick for every room; the thirtieth tick also broadcasts
    /// skins and resets the counter. Which tick fires skins depends on the
    /// counter alone, never on the rooms.
    pub fn tick(&mut self, registry: &mut Registry) -> (skins: bool)
        requires
            old(self).wf(),
            old(registry).wf(),
        ensures
            skins == fires_skins(old(self).counter),
            final(self).counter == next_counter(old(self).counter),
            final(self).wf(),
            final(registry).wf(),
            final(registry)@ == (if skins {
                skin_pass(data_pass(resolve_pass(old(registry)@)))
            } else {
                data_pass(resolve_pass(old(registry)@))
            }),
    {
        self.counter = self.counter + 1;
        Game::process_flags(registry);
        Game::broadcast_data(registry);
        if self.counter == SKIN_PERIOD {
            Game::broadcast_skins(registry);
            self.counter = 0;
            true
        } else {
            false
        }
    }
}

/// One room's tick outcome depends on that room alone: whatever any pass
/// did to every other room, room `j` resolves and broadcasts the same.
pub proof fn lemma_room_isolation(rs1: Seq<RoomV>, rs2: Seq<RoomV>, j: int)
    requires
        0 <= j < rs1.len(),
        0 <= j < rs2.len(),
        rs1[j] == rs2[j],
    ensures
        resolve_pass(rs1)[j] == resolve_pass(rs2)[j],
        data_pass(rs1)[j] == data_pass(rs2)[j],
        skin_pass(rs1)[j] == skin_pass(rs2)[j],
{
}

} // verus!
