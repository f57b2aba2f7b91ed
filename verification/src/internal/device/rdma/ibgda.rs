//! A queue of RDMA READs whose producers ring a doorbell record.
//!
//! Entries stand 64 bytes apart. Producer and completion indices are counted
//! modulo 2^16, and the doorbell record never goes back.
use super::mlx5_wqe::{law_wqe_wire, Mlx5RdmaReadWqe, ReadRequest, MAX_QPN, WQE_BYTES};
use crate::internal::powers::{is_power_of_two, law_powers_divide, power_of_two};
use vstd::prelude::*;

verus! {

/// Distance of two entries in a ring, in bytes.
pub const MLX5_WQE_BB: usize = 64;

/// How far `to` is ahead of `from`, counted modulo 2^16.
pub open spec fn ahead(from: u16, to: u16) -> int {
    if to >= from {
        to - from
    } else {
        to - from + 0x1_0000
    }
}

/// The index `n` places after `i`, modulo 2^16.
pub open spec fn index_after(i: u16, n: u16) -> u16 {
    if i + n >= 0x1_0000 {
        (i + n - 0x1_0000) as u16
    } else {
        (i + n) as u16
    }
}

/// How far `to` is ahead of `from`, counted modulo 2^16.
fn distance(from: u16, to: u16) -> (d: u16)
    ensures
        d == ahead(from, to),
{
    if to >= from {
        to - from
    } else {
        (0x1_0000 - (from as u32 - to as u32)) as u16
    }
}

/// The indices of a queue that its device reads.
#[derive(Debug)]
pub struct Mlx5DoorbellRecord {
    /// Index of the receive queue.
    pub recv_db: u16,
    /// Index of the send queue.
    pub send_db: u16,
}

impl Default for Mlx5DoorbellRecord {
    fn default() -> (dbr: Self)
        ensures
            dbr == (Mlx5DoorbellRecord { recv_db: 0, send_db: 0 }),
    {
        Mlx5DoorbellRecord { recv_db: 0, send_db: 0 }
    }
}

impl Mlx5DoorbellRecord {
    /// The record after `index` was rung.
    pub open spec fn rung(self, index: u16) -> Mlx5DoorbellRecord {
        if 1 <= ahead(self.send_db, index) <= 0x8000 {
            Mlx5DoorbellRecord { send_db: index, ..self }
        } else {
            self
        }
    }

    /// Moves the send index on to `wqe_index`. An index that is not ahead, by half of
    /// the indices at most, is stale and changes nothing.
    pub fn ring_send_monotonic(&mut self, wqe_index: u16)
        ensures
            *final(self) == old(self).rung(wqe_index),
    {
        let d: u16 = distance(self.send_db, wqe_index);
        if d == 0 || d > 0x8000 {
            return;
        }
        self.send_db = wqe_index;
    }

    /// The send index.
    pub fn send_index(&self) -> (index: u16)
        ensures
            index == self.send_db,
    {
        self.send_db
    }

    /// The send index with its two bytes exchanged, as the device expects it from a
    /// little-endian host.
    pub fn send_db_be(&self) -> (word: u16)
        ensures
            word == 0x100 * (self.send_db % 0x100) + self.send_db / 0x100,
    {
        0x100 * (self.send_db % 0x100) + self.send_db / 0x100
    }
}

/// Ringing never moves the send index back: it stays, or goes on by half of the
/// indices at most. An index from the half behind is ignored.
pub proof fn law_doorbell_never_goes_back(dbr: Mlx5DoorbellRecord, index: u16)
    ensures
        ahead(dbr.send_db, dbr.rung(index).send_db) <= 0x8000,
        dbr.rung(index).recv_db == dbr.recv_db,
        0 <= ahead(index, dbr.send_db) < 0x8000 ==> dbr.rung(index) == dbr,
        1 <= ahead(dbr.send_db, index) <= 0x8000 ==> dbr.rung(index).send_db == index,
{
}

/// What can go wrong on a post.
#[derive(Debug, Clone, Copy, PartialEq, Eq, Structural)]
pub enum IbgdaError {
    /// As many entries are outstanding as the queue has slots.
    QueueFull,
}

/// A queue of RDMA READs.
#[derive(Debug)]
pub struct IbgdaQueue {
    /// The queue pair.
    pub qpn: u32,
    /// Slots.
    pub depth: u16,
    /// Index of the next entry.
    pub next_wqe: u16,
    /// Index of the first entry that is not complete.
    pub cq_head: u16,
    /// The doorbell record.
    pub dbr: Mlx5DoorbellRecord,
}

/// The ring with `entry` written at `at`.
pub open spec fn written(ring: Seq<u8>, at: int, entry: Seq<u8>) -> Seq<u8> {
    Seq::new(
        ring.len(),
        |i: int|
            if at <= i < at + entry.len() {
                entry[i - at]
            } else {
                ring[i]
            },
    )
}

impl IbgdaQueue {
    /// The depth is a power of two, and the queue pair has a number of 24 bits.
    pub open spec fn wf(self) -> bool {
        power_of_two(self.depth as nat) && self.qpn <= MAX_QPN
    }

    /// The entries that are not complete.
    pub open spec fn outstanding(self) -> int {
        ahead(self.cq_head, self.next_wqe)
    }

    /// The slot of an index.
    pub open spec fn slot(self, index: u16) -> int {
        index as int % self.depth as int
    }

    /// The queue after the next index was posted.
    pub open spec fn posted(self) -> IbgdaQueue {
        IbgdaQueue {
            next_wqe: index_after(self.next_wqe, 1),
            dbr: self.dbr.rung(index_after(self.next_wqe, 1)),
            ..self
        }
    }

    /// An empty queue, where the depth is a power of two and `qpn` has 24 bits.
    pub fn new(qpn: u32, depth: u16) -> (r: Option<Self>)
        ensures
            r is Some <==> power_of_two(depth as nat) && qpn <= MAX_QPN,
            r matches Some(q) ==> q.wf() && q == (IbgdaQueue {
                qpn,
                depth,
                next_wqe: 0,
                cq_head: 0,
                dbr: (Mlx5DoorbellRecord { recv_db: 0, send_db: 0 }),
            }),
    {
        if depth == 0 || !is_power_of_two(depth as u64) || qpn > MAX_QPN {
            return None;
        }
        Some(
            IbgdaQueue {
                qpn,
                depth,
                next_wqe: 0,
                cq_head: 0,
                dbr: Mlx5DoorbellRecord { recv_db: 0, send_db: 0 },
            },
        )
    }

    /// The entries that are not complete.
    pub fn in_flight(&self) -> (n: u16)
        ensures
            n == self.outstanding(),
    {
        distance(self.cq_head, self.next_wqe)
    }

    /// Notes that `n` more entries are complete.
    pub fn retire(&mut self, n: u16)
        ensures
            *final(self) == (IbgdaQueue {
                cq_head: index_after(old(self).cq_head, n),
                ..*old(self)
            }),
    {
        let head: u32 = self.cq_head as u32 + n as u32;
        self.cq_head = (head % 0x1_0000) as u16;
    }

    /// Writes an RDMA READ to its slot of `ring`, rings the doorbell record, and
    /// returns the index of the entry. A full queue changes nothing.
    pub fn post_rdma_read(
        &mut self,
        ring: &mut [u8],
        local_address: u64,
        lkey: u32,
        byte_count: u32,
        remote_address: u64,
        rkey: u32,
    ) -> (r: Result<u16, IbgdaError>)
        requires
            old(self).wf(),
            old(ring)@.len() >= old(self).depth * MLX5_WQE_BB,
        ensures
            final(self).wf(),
            old(self).outstanding() >= old(self).depth ==> r == Err::<u16, IbgdaError>(
                IbgdaError::QueueFull,
            ) && *final(self) == *old(self) && final(ring)@ == old(ring)@,
            old(self).outstanding() < old(self).depth ==> {
                &&& r == Ok::<u16, IbgdaError>(old(self).next_wqe)
                &&& *final(self) == old(self).posted()
                &&& final(ring)@ == written(
                    old(ring)@,
                    MLX5_WQE_BB * old(self).slot(old(self).next_wqe),
                    (ReadRequest {
                        qpn: old(self).qpn,
                        counter: old(self).next_wqe,
                        local_address,
                        lkey,
                        byte_count,
                        remote_address,
                        rkey,
                    }).wire(),
                )
            },
    {
        if self.in_flight() >= self.depth {
            return Err(IbgdaError::QueueFull);
        }
        let idx: u16 = self.next_wqe;
        let next: u16 = if idx == 0xffff {
            0
        } else {
            idx + 1
        };
        self.next_wqe = next;
        let slot: usize = (idx % self.depth) as usize;
        let ghost req = ReadRequest {
            qpn: self.qpn,
            counter: idx,
            local_address,
            lkey,
            byte_count,
            remote_address,
            rkey,
        };
        let wqe = Mlx5RdmaReadWqe::new(
            self.qpn,
            idx,
            local_address,
            lkey,
            byte_count,
            remote_address,
            rkey,
        );
        proof {
            law_wqe_wire(wqe, req);
        }
        let bytes = wqe.to_bytes();
        let at: usize = slot * MLX5_WQE_BB;
        let len: usize = ring.len();
        let mut i: usize = 0;
        while i < WQE_BYTES
            invariant
                i <= WQE_BYTES,
                bytes@.len() == WQE_BYTES,
                at + MLX5_WQE_BB <= len == old(ring)@.len(),
                ring@ == written(old(ring)@, at as int, bytes@.take(i as int)),
            decreases WQE_BYTES - i,
        {
            ring[at + i] = bytes[i];
            i += 1;
            assert(ring@ =~= written(old(ring)@, at as int, bytes@.take(i as int)));
        }
        assert(bytes@.take(i as int) =~= bytes@);
        self.dbr.ring_send_monotonic(next);
        Ok(idx)
    }
}

/// A post takes one slot more and a retirement frees as many as it names, so no
/// more entries than slots are ever outstanding.
pub proof fn law_outstanding_is_bounded(q: IbgdaQueue, n: u16)
    requires
        q.wf(),
        q.outstanding() <= q.depth,
        n <= q.outstanding(),
    ensures
        q.outstanding() < q.depth ==> q.posted().outstanding() == q.outstanding() + 1,
        (IbgdaQueue { cq_head: index_after(q.cq_head, n), ..q }).outstanding()
            == q.outstanding() - n,
{
    lemma_depth(q);
}

proof fn lemma_depth(q: IbgdaQueue)
    requires
        q.wf(),
    ensures
        q.depth <= 0x8000,
        0x1_0000int % q.depth as int == 0,
{
    assert(power_of_two(0x1_0000)) by {
        reveal_with_fuel(power_of_two, 18);
    }
    law_powers_divide(q.depth as nat, 0x1_0000);
    if q.depth > 0x8000 {
        let d = q.depth as int;
        assert(0x1_0000int % d == 0x1_0000 - d) by {
            vstd::arithmetic::div_mod::lemma_fundamental_div_mod_converse(
                0x1_0000,
                d,
                1,
                0x1_0000 - d,
            );
        }
    }
}

/// Two indices that are outstanding together have different slots.
pub proof fn law_outstanding_slots_differ(q: IbgdaQueue, a: u16, b: u16)
    requires
        q.wf(),
        0 < ahead(a, b) < q.depth,
    ensures
        q.slot(a) != q.slot(b),
{
    lemma_depth(q);
    let d = q.depth as int;
    let k = 0x1_0000int / d;
    vstd::arithmetic::div_mod::lemma_fundamental_div_mod(0x1_0000, d);
    if q.slot(a) == q.slot(b) {
        vstd::arithmetic::div_mod::lemma_fundamental_div_mod(a as int, d);
        vstd::arithmetic::div_mod::lemma_fundamental_div_mod(b as int, d);
        let m = b as int / d - a as int / d;
        assert(b - a == d * m) by (nonlinear_arith)
            requires
                a as int == d * (a as int / d) + a as int % d,
                b as int == d * (b as int / d) + b as int % d,
                a as int % d == b as int % d,
                m == b as int / d - a as int / d,
        ;
        if b >= a {
            assert(ahead(a, b) == d * m);
            assert(false) by (nonlinear_arith)
                requires
                    0 < d * m < d,
            ;
        } else {
            assert(ahead(a, b) == d * m + 0x1_0000);
            let n = m + k;
            assert(d * n == d * m + d * k) by (nonlinear_arith)
                requires
                    n == m + k,
            ;
            assert(false) by (nonlinear_arith)
                requires
                    0 < d * n < d,
            ;
        }
    }
}

/// An entry is written into its stretch of the ring, and the rest of the ring
/// stays. Indices count on and start over after the largest.
pub proof fn law_posting_writes_one_entry(
    q: IbgdaQueue,
    ring: Seq<u8>,
    at: int,
    entry: Seq<u8>,
    i: int,
)
    requires
        0 <= at,
        at + entry.len() <= ring.len(),
        0 <= i < ring.len(),
    ensures
        written(ring, at, entry).len() == ring.len(),
        written(ring, at, entry).subrange(at, at + entry.len()) == entry,
        i < at || i >= at + entry.len() ==> written(ring, at, entry)[i] == ring[i],
        q.next_wqe < u16::MAX ==> q.posted().next_wqe == q.next_wqe + 1,
        q.next_wqe == u16::MAX ==> q.posted().next_wqe == 0,
        q.posted().cq_head == q.cq_head,
        q.posted().qpn == q.qpn,
        q.posted().depth == q.depth,
        q.dbr.send_db == q.next_wqe ==> q.posted().dbr.send_db == q.posted().next_wqe,
{
    assert(written(ring, at, entry).subrange(at, at + entry.len()) =~= entry);
}

} // verus!
