//! Submission of NVMe commands by ringing a doorbell in mapped device memory.
//!
//! The caller maps the controller's registers and owns the queue memory. This
//! module says which slot a command takes, how the tail moves, and where the
//! doorbell is and what is stored there.
use super::sqe::NvmeRwSqe;
use crate::internal::powers::{is_power_of_two, law_powers_divide, power_of_two};
use vstd::prelude::*;

verus! {

/// Where the doorbells of a controller are.
#[derive(Debug, Clone, Copy, PartialEq, Eq, Structural)]
pub struct NvmeDoorbellLayout {
    /// Offset of the tail doorbell of submission queue 0, in bytes.
    pub sq0_tdbl_bytes: u32,
    /// Distance of two doorbells, in bytes.
    pub stride_bytes: u32,
}

impl NvmeDoorbellLayout {
    /// Offset of the tail doorbell of a submission queue.
    pub open spec fn sq_offset(self, qid: u16) -> int {
        self.sq0_tdbl_bytes + 2 * qid * self.stride_bytes
    }

    /// Offset of the head doorbell of a completion queue.
    pub open spec fn cq_offset(self, qid: u16) -> int {
        self.sq_offset(qid) + self.stride_bytes
    }

    /// The layout that most controllers have: from 0x1000 on, four bytes apart.
    pub fn legacy() -> (layout: Self)
        ensures
            layout.sq0_tdbl_bytes == 0x1000,
            layout.stride_bytes == 4,
    {
        NvmeDoorbellLayout { sq0_tdbl_bytes: 0x1000, stride_bytes: 4 }
    }

    /// Offset of the tail doorbell of submission queue `qid`.
    pub fn sq_tdbl_offset(self, qid: u16) -> (offset: u32)
        requires
            self.sq_offset(qid) <= u32::MAX,
        ensures
            offset == self.sq_offset(qid),
    {
        proof {
            assert(0 <= 2 * qid * self.stride_bytes) by (nonlinear_arith);
            assert((2 * qid) * self.stride_bytes == 2 * qid * self.stride_bytes)
                by (nonlinear_arith);
        }
        self.sq0_tdbl_bytes + 2 * (qid as u32) * self.stride_bytes
    }

    /// Offset of the head doorbell of completion queue `qid`.
    pub fn cq_hdbl_offset(self, qid: u16) -> (offset: u32)
        requires
            self.cq_offset(qid) <= u32::MAX,
        ensures
            offset == self.cq_offset(qid),
    {
        self.sq_tdbl_offset(qid) + self.stride_bytes
    }
}

/// Doorbells of different queues lie apart by the stride or more.
pub proof fn law_doorbells_are_apart(layout: NvmeDoorbellLayout, a: u16, b: u16)
    requires
        a < b,
    ensures
        layout.sq_offset(a) + layout.stride_bytes == layout.cq_offset(a),
        layout.cq_offset(a) + layout.stride_bytes <= layout.sq_offset(b),
{
    assert(2 * a * layout.stride_bytes + 2 * layout.stride_bytes <= 2 * b * layout.stride_bytes)
        by (nonlinear_arith)
        requires
            a < b,
    ;
}

/// A pair of queues, of a power of two of slots.
#[derive(Debug)]
pub struct BamQueuePair {
    /// Number of the queues.
    pub qid: u16,
    /// Slots of each queue.
    pub depth: u32,
    /// Commands that were written, counted modulo 2^32.
    pub sq_tail: u32,
    /// Completions that were read, counted modulo 2^32.
    pub cq_head: u32,
    /// Phase of the next completion.
    pub phase: u32,
}

impl BamQueuePair {
    /// The depth is a power of two.
    pub open spec fn wf(self) -> bool {
        power_of_two(self.depth as nat)
    }

    /// The slot of the next command.
    pub open spec fn slot(self) -> int {
        self.sq_tail as int % self.depth as int
    }

    /// The pair after one more command was written.
    pub open spec fn advanced(self) -> BamQueuePair {
        BamQueuePair { sq_tail: ((self.sq_tail + 1) % 0x1_0000_0000) as u32, ..self }
    }

    /// Empty queues, where `depth` is a power of two.
    pub fn new(qid: u16, depth: u32) -> (r: Option<Self>)
        ensures
            r is Some <==> power_of_two(depth as nat),
            r matches Some(qp) ==> qp == (BamQueuePair {
                qid,
                depth,
                sq_tail: 0,
                cq_head: 0,
                phase: 1,
            }) && qp.wf(),
    {
        if depth == 0 || !is_power_of_two(depth as u64) {
            return None;
        }
        Some(BamQueuePair { qid, depth, sq_tail: 0, cq_head: 0, phase: 1 })
    }

    /// The slot of the next command.
    pub fn sq_slot(&self) -> (slot: u32)
        requires
            self.wf(),
        ensures
            slot == self.slot(),
            slot < self.depth,
    {
        self.sq_tail % self.depth
    }

    /// Moves the tail on after a command was written, and returns it.
    pub fn advance_sq_tail(&mut self) -> (tail: u32)
        ensures
            *final(self) == old(self).advanced(),
            tail == final(self).sq_tail,
    {
        self.sq_tail = if self.sq_tail == u32::MAX {
            0
        } else {
            self.sq_tail + 1
        };
        self.sq_tail
    }

    /// What the doorbell gets: the low half of the tail.
    pub fn doorbell_tail(&self) -> (tail: u16)
        ensures
            tail == self.sq_tail % 0x1_0000,
    {
        (self.sq_tail % 0x1_0000) as u16
    }
}

/// Successive commands go to successive slots, round the queue.
pub proof fn law_slots_go_round(qp: BamQueuePair)
    requires
        qp.wf(),
    ensures
        qp.advanced().wf(),
        qp.advanced().slot() == (qp.slot() + 1) % qp.depth as int,
{
    let d = qp.depth as int;
    let t = qp.sq_tail as int;
    assert(power_of_two(0x1_0000_0000)) by {
        reveal_with_fuel(power_of_two, 34);
    }
    law_powers_divide(qp.depth as nat, 0x1_0000_0000);
    vstd::arithmetic::div_mod::lemma_add_mod_noop(t, 1, d);
    if t + 1 == 0x1_0000_0000 {
        assert((t + 1) % d == 0);
        assert((t + 1) % d == (t % d + 1int % d) % d);
    }
    if d == 1 {
        assert(qp.slot() == 0);
    } else {
        assert(1int % d == 1) by {
            vstd::arithmetic::div_mod::lemma_small_mod(1, d as nat);
        }
    }
    assert(0int % d == 0) by {
        vstd::arithmetic::div_mod::lemma_small_mod(0, d as nat);
    }
}

/// What can go wrong on submission.
#[derive(Debug, Clone, Copy, PartialEq, Eq, Structural)]
pub enum BamError {
    /// No registers are mapped.
    BarNotMapped,
    /// The doorbell lies outside of the mapped registers.
    DoorbellOob,
    /// No slot is free.
    QueueFull,
}

/// A store of four bytes to the mapped registers.
#[derive(Debug, Clone, Copy, PartialEq, Eq, Structural)]
pub struct DoorbellWrite {
    /// Offset from the start of the registers.
    pub offset: u32,
    /// The value.
    pub value: u32,
}

/// A controller: doorbells, one pair of queues, and what is mapped.
#[derive(Debug)]
pub struct BamController {
    /// Where the doorbells are.
    pub doorbells: NvmeDoorbellLayout,
    /// The queues.
    pub qp: BamQueuePair,
    /// How many bytes of registers are mapped, if any.
    pub bar0_len: Option<usize>,
}

impl BamController {
    /// The queues are sound, and the doorbell has an offset of 32 bits.
    pub open spec fn wf(self) -> bool {
        self.qp.wf() && self.doorbells.sq_offset(self.qp.qid) <= u32::MAX
    }

    /// What ringing the doorbell with `tail` gives.
    pub open spec fn rung(self, tail: u16) -> Result<DoorbellWrite, BamError> {
        match self.bar0_len {
            None => Err(BamError::BarNotMapped),
            Some(len) => if self.doorbells.sq_offset(self.qp.qid) + 4 > len {
                Err(BamError::DoorbellOob)
            } else {
                Ok(
                    DoorbellWrite {
                        offset: self.doorbells.sq_offset(self.qp.qid) as u32,
                        value: tail as u32,
                    },
                )
            },
        }
    }

    /// A controller with nothing mapped, where `depth` is a power of two.
    pub fn new(qid: u16, depth: u32, doorbells: NvmeDoorbellLayout) -> (r: Option<Self>)
        ensures
            r is Some <==> power_of_two(depth as nat),
            r matches Some(c) ==> c.doorbells == doorbells && c.qp == (BamQueuePair {
                qid,
                depth,
                sq_tail: 0,
                cq_head: 0,
                phase: 1,
            }) && c.bar0_len is None && c.qp.wf(),
    {
        match BamQueuePair::new(qid, depth) {
            None => None,
            Some(qp) => Some(BamController { doorbells, qp, bar0_len: None }),
        }
    }

    /// Notes that `len` bytes of registers are mapped.
    pub fn attach_bar0(&mut self, len: usize)
        ensures
            final(self).bar0_len == Some(len),
            final(self).doorbells == old(self).doorbells,
            final(self).qp == old(self).qp,
    {
        self.bar0_len = Some(len);
    }

    /// Writes a command to its slot of `sq_ring` and moves the tail on. Returns the
    /// tail and the store that rings the doorbell, which the caller makes after the
    /// command is visible to the device. Where the doorbell is out of reach, the
    /// command stays written.
    pub fn submit_sqe(&mut self, sq_ring: &mut [NvmeRwSqe], sqe: NvmeRwSqe) -> (r: Result<
        (u16, DoorbellWrite),
        BamError,
    >)
        requires
            old(self).wf(),
            old(sq_ring)@.len() >= old(self).qp.depth,
        ensures
            old(self).bar0_len is None ==> r == Err::<(u16, DoorbellWrite), BamError>(
                BamError::BarNotMapped,
            ) && *final(self) == *old(self) && final(sq_ring)@ == old(sq_ring)@,
            old(self).bar0_len is Some ==> {
                &&& final(sq_ring)@ == old(sq_ring)@.update(old(self).qp.slot(), sqe)
                &&& final(self).qp == old(self).qp.advanced()
                &&& final(self).doorbells == old(self).doorbells
                &&& final(self).bar0_len == old(self).bar0_len
                &&& match final(self).rung((final(self).qp.sq_tail % 0x1_0000) as u16) {
                    Ok(store) => r == Ok::<(u16, DoorbellWrite), BamError>(
                        ((final(self).qp.sq_tail % 0x1_0000) as u16, store),
                    ),
                    Err(e) => r == Err::<(u16, DoorbellWrite), BamError>(e),
                }
            },
            final(self).wf(),
    {
        if self.bar0_len.is_none() {
            return Err(BamError::BarNotMapped);
        }
        let slot: usize = self.qp.sq_slot() as usize;
        sq_ring[slot] = sqe;
        let tail: u32 = self.qp.advance_sq_tail();
        let low: u16 = (tail % 0x1_0000) as u16;
        match self.ring_sq_doorbell(low) {
            Ok(store) => Ok((low, store)),
            Err(e) => Err(e),
        }
    }

    /// The store that rings the doorbell of the submission queue with `tail`.
    pub fn ring_sq_doorbell(&self, tail: u16) -> (r: Result<DoorbellWrite, BamError>)
        requires
            self.wf(),
        ensures
            r == self.rung(tail),
    {
        match self.bar0_len {
            None => Err(BamError::BarNotMapped),
            Some(len) => {
                let offset: u32 = self.doorbells.sq_tdbl_offset(self.qp.qid);
                if offset as u64 + 4 > len as u64 {
                    Err(BamError::DoorbellOob)
                } else {
                    Ok(DoorbellWrite { offset, value: tail as u32 })
                }
            },
        }
    }
}

/// The submission doorbell of a queue stands two strides per queue behind the
/// first one, and its completion doorbell one stride further.
pub proof fn law_doorbell_places(layout: NvmeDoorbellLayout, qid: u16)
    ensures
        layout.sq_offset(qid) == layout.sq0_tdbl_bytes + 2 * qid * layout.stride_bytes,
        layout.cq_offset(qid) == layout.sq0_tdbl_bytes + (2 * qid + 1) * layout.stride_bytes,
{
    assert((2 * qid + 1) * layout.stride_bytes == 2 * qid * layout.stride_bytes
        + layout.stride_bytes) by (nonlinear_arith);
}

/// A doorbell is rung only where the register file is mapped and holds its four
/// bytes; the tail is stored there. The tail goes up by one and starts over after
/// the largest.
pub proof fn law_doorbell_is_rung_inside_the_bar(c: BamController, tail: u16)
    requires
        c.wf(),
    ensures
        ({
            let at = c.doorbells.sq0_tdbl_bytes + 2 * c.qp.qid * c.doorbells.stride_bytes;
            &&& c.bar0_len is None <==> c.rung(tail) == Err::<DoorbellWrite, BamError>(
                BamError::BarNotMapped,
            )
            &&& c.bar0_len matches Some(len) ==> (at + 4 > len <==> c.rung(tail) == Err::<
                DoorbellWrite,
                BamError,
            >(BamError::DoorbellOob))
            &&& c.rung(tail) matches Ok(w) ==> w.offset == at && w.value == tail
        }),
        c.qp.sq_tail < u32::MAX ==> c.qp.advanced().sq_tail == c.qp.sq_tail + 1,
        c.qp.sq_tail == u32::MAX ==> c.qp.advanced().sq_tail == 0,
        c.qp.advanced().cq_head == c.qp.cq_head,
        c.qp.advanced().phase == c.qp.phase,
{
}

} // verus!
