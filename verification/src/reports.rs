//! What the edge has said, waiting for the loop that plays a client.

use vstd::prelude::*;

use crate::ids::{EntityHandle, EntityId, RegionId};

verus! {

/// What waits to be read.
#[verifier::ext_equal]
pub struct Heard {
    /// Entities the regions have allocated ids for, in the order they did.
    pub spawned: Seq<(EntityHandle, RegionId, EntityId)>,
    /// Entities that have gone.
    pub removed: Seq<EntityHandle>,
    pub packets: u64,
    pub records: u64,
    /// Whether the connection has gone.
    pub gone: bool,
}

/// With one packet more, of that many records. The counts go round at 64 bits.
pub open spec fn with_packet(h: Heard, records: u64) -> Heard {
    Heard {
        packets: ((h.packets + 1) % 0x1_0000_0000_0000_0000) as u64,
        records: ((h.records + records) % 0x1_0000_0000_0000_0000) as u64,
        ..h
    }
}

/// One with what another has heard behind it.
pub open spec fn taken_over(a: Heard, b: Heard) -> Heard {
    Heard {
        spawned: a.spawned + b.spawned,
        removed: a.removed + b.removed,
        packets: ((a.packets + b.packets) % 0x1_0000_0000_0000_0000) as u64,
        records: ((a.records + b.records) % 0x1_0000_0000_0000_0000) as u64,
        gone: a.gone || b.gone,
    }
}

/// What is left of one that another has taken over.
pub open spec fn handed_over(b: Heard) -> Heard {
    Heard { spawned: Seq::empty(), removed: Seq::empty(), packets: 0, records: 0, ..b }
}

/// What the edge has said since it was last read.
pub struct Reports {
    spawned: Vec<(EntityHandle, RegionId, EntityId)>,
    removed: Vec<EntityHandle>,
    packets: u64,
    records: u64,
    gone: bool,
}

impl View for Reports {
    type V = Heard;

    closed spec fn view(&self) -> Heard {
        Heard {
            spawned: self.spawned@,
            removed: self.removed@,
            packets: self.packets,
            records: self.records,
            gone: self.gone,
        }
    }
}

impl Default for Reports {
    /// Nothing said.
    fn default() -> (r: Reports)
        ensures
            r@ == (Heard {
                spawned: Seq::empty(),
                removed: Seq::empty(),
                packets: 0,
                records: 0,
                gone: false,
            }),
    {
        Reports { spawned: Vec::new(), removed: Vec::new(), packets: 0, records: 0, gone: false }
    }
}

impl Reports {
    /// Entities the regions have now allocated ids for.
    pub fn take_spawned(&mut self) -> (spawned: Vec<(EntityHandle, RegionId, EntityId)>)
        ensures
            spawned@ == old(self)@.spawned,
            final(self)@ == (Heard { spawned: Seq::empty(), ..old(self)@ }),
    {
        let mut spawned: Vec<(EntityHandle, RegionId, EntityId)> = Vec::new();
        std::mem::swap(&mut spawned, &mut self.spawned);
        spawned
    }

    /// Entities that have gone, however they went.
    pub fn take_removed(&mut self) -> (removed: Vec<EntityHandle>)
        ensures
            removed@ == old(self)@.removed,
            final(self)@ == (Heard { removed: Seq::empty(), ..old(self)@ }),
    {
        let mut removed: Vec<EntityHandle> = Vec::new();
        std::mem::swap(&mut removed, &mut self.removed);
        removed
    }

    /// Packets and records since this was last asked.
    pub fn take_traffic(&mut self) -> (traffic: (u64, u64))
        ensures
            traffic == (old(self)@.packets, old(self)@.records),
            final(self)@ == (Heard { packets: 0, records: 0, ..old(self)@ }),
    {
        let traffic: (u64, u64) = (self.packets, self.records);
        self.packets = 0;
        self.records = 0;
        traffic
    }

    /// Whether the connection has gone.
    pub fn gone(&self) -> (gone: bool)
        ensures
            gone == self@.gone,
    {
        self.gone
    }

    /// A region has allocated an id for an entity.
    pub fn saw_spawned(&mut self, handle: EntityHandle, region: RegionId, entity: EntityId)
        ensures
            final(self)@ == (Heard {
                spawned: old(self)@.spawned.push((handle, region, entity)),
                ..old(self)@
            }),
    {
        self.spawned.push((handle, region, entity));
    }

    /// An entity has gone.
    pub fn saw_removed(&mut self, handle: EntityHandle)
        ensures
            final(self)@ == (Heard { removed: old(self)@.removed.push(handle), ..old(self)@ }),
    {
        self.removed.push(handle);
    }

    /// A packet has come, with that many records. The counts go round at 64 bits.
    pub fn saw_packet(&mut self, records: u64)
        ensures
            final(self)@ == with_packet(old(self)@, records),
    {
        self.packets = self.packets.wrapping_add(1);
        self.records = self.records.wrapping_add(records);
    }

    /// Takes over what another has heard, after what was here. Whether the
    /// connection has gone is left there too.
    pub fn absorb(&mut self, other: &mut Reports)
        ensures
            final(self)@ == taken_over(old(self)@, old(other)@),
            final(other)@ == handed_over(old(other)@),
    {
        let mut spawned: Vec<(EntityHandle, RegionId, EntityId)> = other.take_spawned();
        let mut removed: Vec<EntityHandle> = other.take_removed();
        let (packets, records) = other.take_traffic();
        self.spawned.append(&mut spawned);
        self.removed.append(&mut removed);
        self.packets = self.packets.wrapping_add(packets);
        self.records = self.records.wrapping_add(records);
        self.gone = self.gone || other.gone;
    }

    /// The connection has gone.
    pub fn saw_disconnected(&mut self)
        ensures
            final(self)@ == (Heard { gone: true, ..old(self)@ }),
    {
        self.gone = true;
    }
}

/// A packet is one packet more, and its records as many records more; the counts go
/// round where 64 bits end. Nothing else that waits is touched.
pub proof fn a_packet_is_counted_once(h: Heard, records: u64)
    ensures
        ({
            let after = with_packet(h, records);
            &&& h.packets < u64::MAX ==> after.packets == h.packets + 1
            &&& h.packets == u64::MAX ==> after.packets == 0
            &&& h.records + records <= u64::MAX ==> after.records == h.records + records
            &&& h.records + records > u64::MAX ==> after.records == h.records + records
                - 0x1_0000_0000_0000_0000
            &&& after.spawned == h.spawned
            &&& after.removed == h.removed
            &&& after.gone == h.gone
        }),
{
}

/// What is taken over comes behind what was here, in the order it was heard, and is
/// then no longer there, so that taking over again adds nothing. A connection that
/// has gone is known to have gone on both sides.
pub proof fn what_is_taken_over_comes_behind(a: Heard, b: Heard, i: int)
    requires
        0 <= i,
    ensures
        ({
            let here = taken_over(a, b);
            let there = handed_over(b);
            let m = a.spawned.len() as int;
            let n = a.removed.len() as int;
            &&& here.spawned.len() == m + b.spawned.len()
            &&& i < m ==> here.spawned[i] == a.spawned[i]
            &&& i < b.spawned.len() ==> here.spawned[m + i] == b.spawned[i]
            &&& here.removed.len() == n + b.removed.len()
            &&& i < n ==> here.removed[i] == a.removed[i]
            &&& i < b.removed.len() ==> here.removed[n + i] == b.removed[i]
            &&& a.packets + b.packets <= u64::MAX ==> here.packets == a.packets + b.packets
            &&& a.packets + b.packets > u64::MAX ==> here.packets == a.packets + b.packets
                - 0x1_0000_0000_0000_0000
            &&& a.records + b.records <= u64::MAX ==> here.records == a.records + b.records
            &&& a.records + b.records > u64::MAX ==> here.records == a.records + b.records
                - 0x1_0000_0000_0000_0000
            &&& here.gone <==> a.gone || b.gone
            &&& there.gone == b.gone
            &&& there.packets == 0
            &&& there.records == 0
            &&& taken_over(here, there) == here
        }),
{
    let here = taken_over(a, b);
    assert(here.spawned + Seq::empty() =~= here.spawned);
    assert(here.removed + Seq::empty() =~= here.removed);
}

} // verus!
