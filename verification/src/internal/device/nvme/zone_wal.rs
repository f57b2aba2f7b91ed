//! A write-ahead log on one zone.
//!
//! The device assigns the blocks of each append, so writers share no offset:
//! they build commands against the start of the zone, and completions say
//! where the data went.
use super::zns_append::ZoneAppendSqe;
use vstd::prelude::*;

verus! {

/// One completed append.
#[derive(Debug, Clone, Copy, PartialEq, Eq, Structural)]
pub struct ZoneAppendCompletion {
    /// The identifier of the command.
    pub command_id: u16,
    /// The first block that the controller assigned.
    pub assigned_lba: u64,
    /// The number of blocks less one.
    pub nlb: u16,
}

impl ZoneAppendCompletion {
    /// The block after the last one of the append, at most `u64::MAX`.
    pub open spec fn end(self) -> u64 {
        if self.assigned_lba + self.nlb + 1 > u64::MAX {
            u64::MAX
        } else {
            (self.assigned_lba + self.nlb + 1) as u64
        }
    }
}

/// The larger of two blocks.
pub open spec fn later(a: u64, b: u64) -> u64 {
    if a < b {
        b
    } else {
        a
    }
}

/// The highest end of a number of appends, from `start` on.
pub open spec fn highest_end(start: u64, appends: Seq<ZoneAppendCompletion>) -> u64
    decreases appends.len(),
{
    if appends.len() == 0 {
        start
    } else {
        later(highest_end(start, appends.drop_last()), appends.last().end())
    }
}

/// State of the log on one open zone.
#[derive(Debug)]
pub struct ZoneAppendWal {
    /// Namespace.
    pub nsid: u32,
    /// First block of the zone.
    pub zone_start_lba: u64,
    /// The identifier of the next command.
    pub next_cid: u16,
    /// The highest end of the completed appends.
    pub high_water: u64,
}

impl ZoneAppendWal {
    /// Opens a log on the zone that starts at `zone_start_lba`.
    pub fn new(nsid: u32, zone_start_lba: u64) -> (wal: Self)
        ensures
            wal.nsid == nsid,
            wal.zone_start_lba == zone_start_lba,
            wal.next_cid == 1,
            wal.high_water == zone_start_lba,
            wal.high_water == highest_end(zone_start_lba, Seq::empty()),
    {
        ZoneAppendWal { nsid, zone_start_lba, next_cid: 1, high_water: zone_start_lba }
    }

    /// Takes a command identifier and builds a Zone Append of `nlb + 1` blocks.
    /// After identifier 65535 comes 0.
    pub fn prepare_append(&mut self, nlb: u16, prp1: u64, prp2: u64) -> (r: (u16, ZoneAppendSqe))
        ensures
            r.0 == old(self).next_cid,
            r.1.appends(old(self).nsid, r.0, old(self).zone_start_lba, nlb, prp1, prp2),
            final(self).next_cid == (old(self).next_cid + 1) % 0x1_0000,
            final(self).nsid == old(self).nsid,
            final(self).zone_start_lba == old(self).zone_start_lba,
            final(self).high_water == old(self).high_water,
    {
        let cid: u16 = self.next_cid;
        self.next_cid = if cid == 0xffff {
            0
        } else {
            cid + 1
        };
        (cid, ZoneAppendSqe::new(self.nsid, cid, self.zone_start_lba, nlb, prp1, prp2))
    }

    /// Records a completion: the high water rises to its end.
    pub fn complete(&mut self, cqe: ZoneAppendCompletion)
        ensures
            final(self).high_water == later(old(self).high_water, cqe.end()),
            final(self).next_cid == old(self).next_cid,
            final(self).nsid == old(self).nsid,
            final(self).zone_start_lba == old(self).zone_start_lba,
    {
        let blocks: u64 = cqe.nlb as u64 + 1;
        let end: u64 = if cqe.assigned_lba > u64::MAX - blocks {
            u64::MAX
        } else {
            cqe.assigned_lba + blocks
        };
        if end > self.high_water {
            self.high_water = end;
        }
    }

    /// The block after the highest completed append.
    pub fn durable_high_water(&self) -> (lba: u64)
        ensures
            lba == self.high_water,
    {
        self.high_water
    }
}

/// One more completion moves the high water as `complete` does, and never down.
pub proof fn law_high_water_grows(
    start: u64,
    appends: Seq<ZoneAppendCompletion>,
    cqe: ZoneAppendCompletion,
)
    ensures
        highest_end(start, appends.push(cqe)) == later(highest_end(start, appends), cqe.end()),
        highest_end(start, appends) <= highest_end(start, appends.push(cqe)),
        cqe.end() <= highest_end(start, appends.push(cqe)),
{
    assert(appends.push(cqe).drop_last() =~= appends);
}

/// The high water covers every append, and nothing lies behind it that no append
/// wrote.
pub proof fn law_high_water_is_the_highest_end(start: u64, appends: Seq<ZoneAppendCompletion>)
    ensures
        forall|i: int|
            0 <= i < appends.len() ==> (#[trigger] appends[i]).end() <= highest_end(start, appends),
        start <= highest_end(start, appends),
        highest_end(start, appends) == start || exists|i: int|
            0 <= i < appends.len() && (#[trigger] appends[i]).end() == highest_end(start, appends),
    decreases appends.len(),
{
    if appends.len() > 0 {
        let rest = appends.drop_last();
        let n = appends.len() - 1;
        law_high_water_is_the_highest_end(start, rest);
        assert forall|i: int| 0 <= i < appends.len() implies (#[trigger] appends[i]).end()
            <= highest_end(start, appends) by {
            if i < n {
                assert(rest[i] == appends[i]);
            }
        }
        let h = highest_end(start, appends);
        if h != start {
            if h == appends.last().end() {
                assert(appends[n].end() == h);
            } else {
                assert(highest_end(start, rest) == h);
                let i = choose|i: int| 0 <= i < rest.len() && (#[trigger] rest[i]).end() == h;
                assert(appends[i] == rest[i]);
            }
        }
    }
}

/// The order in which completions come in does not matter to the high water.
pub proof fn law_completions_commute(water: u64, a: ZoneAppendCompletion, b: ZoneAppendCompletion)
    ensures
        later(later(water, a.end()), b.end()) == later(later(water, b.end()), a.end()),
{
}

/// An append ends behind the block that it was given and the further blocks that
/// it counts, or at the last address there is.
pub proof fn law_append_ends_behind_its_blocks(cqe: ZoneAppendCompletion, a: u64, b: u64)
    ensures
        cqe.assigned_lba + cqe.nlb + 1 <= u64::MAX ==> cqe.end() == cqe.assigned_lba + cqe.nlb + 1,
        cqe.assigned_lba + cqe.nlb + 1 > u64::MAX ==> cqe.end() == u64::MAX,
        later(a, b) >= a && later(a, b) >= b,
        later(a, b) == a || later(a, b) == b,
{
}

} // verus!
