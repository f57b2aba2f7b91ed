//! Geometry of aligned buffers for direct transfers.
//!
//! Direct transfers need buffers that start at a multiple of a block and are made up
//! of whole blocks. These types say how much to allocate and where each slot lies;
//! the memory itself belongs to whoever transfers.
use vstd::prelude::*;
use vstd::string::StringExecFns;
use crate::text::{decimal, label_pair, lemma_tells_two, tells};
use super::powers::{is_power_of_two, law_rounding, power_of_two, up_to};

verus! {

/// Alignment that every device takes.
pub const DIRECT_IO_ALIGNMENT: usize = 4096;

/// Why a buffer cannot be had.
#[derive(Debug, Clone, Copy, PartialEq, Eq, Structural)]
pub enum AlignedError {
    /// The buffer would be empty.
    ZeroLength,
    /// The pool would have no slots, or empty ones.
    ZeroSlots,
    /// A buffer has more bytes than the machine can count.
    LengthOverflow { len: usize, extra: usize },
    /// A slot has more bytes than the machine can count.
    SlotOverflow { len: usize, extra: usize },
    /// All slots have more bytes than the machine can count.
    PoolOverflow { slots: usize, bytes: usize },
    /// The alignment is no power of two, or the buffer is too large for any
    /// allocator.
    InvalidLayout,
}

impl AlignedError {
    /// The text of the message.
    pub open spec fn text(self) -> Seq<char> {
        match self {
            AlignedError::ZeroLength => "cannot allocate zero-length buffer"@,
            AlignedError::ZeroSlots =>
                "AlignedBufferPool requires non-zero num_slots and slot_size"@,
            AlignedError::LengthOverflow { len, extra } => "buffer size overflow: "@ + decimal(
                len as nat,
            ) + " + "@ + decimal(extra as nat),
            AlignedError::SlotOverflow { len, extra } => "slot size overflow: "@ + decimal(
                len as nat,
            ) + " + "@ + decimal(extra as nat),
            AlignedError::PoolOverflow { slots, bytes } => "AlignedBufferPool size overflow: "@
                + decimal(slots as nat) + " slots * "@ + decimal(bytes as nat) + " bytes"@,
            AlignedError::InvalidLayout => "invalid layout"@,
        }
    }

    /// Describes the error.
    pub fn message(&self) -> (s: String)
        ensures
            s@ == self.text(),
    {
        match *self {
            AlignedError::ZeroLength => String::from_str("cannot allocate zero-length buffer"),
            AlignedError::ZeroSlots => String::from_str(
                "AlignedBufferPool requires non-zero num_slots and slot_size",
            ),
            AlignedError::LengthOverflow { len, extra } => label_pair(
                "buffer size overflow: ",
                len as u64,
                " + ",
                extra as u64,
            ),
            AlignedError::SlotOverflow { len, extra } => label_pair(
                "slot size overflow: ",
                len as u64,
                " + ",
                extra as u64,
            ),
            AlignedError::PoolOverflow { slots, bytes } => {
                let mut s = label_pair(
                    "AlignedBufferPool size overflow: ",
                    slots as u64,
                    " slots * ",
                    bytes as u64,
                );
                s.append(" bytes");
                s
            },
            AlignedError::InvalidLayout => String::from_str("invalid layout"),
        }
    }
}

/// One aligned buffer.
#[derive(Debug, Clone, Copy, PartialEq, Eq, Structural)]
pub struct AlignedBuffer {
    len: usize,
    alignment: usize,
}

/// The length of a buffer for `len` bytes, or why there is none.
pub open spec fn buffer_len(len: usize, alignment: usize) -> Result<usize, AlignedError> {
    if len == 0 {
        Err(AlignedError::ZeroLength)
    } else if len + alignment - 1 > usize::MAX {
        Err(AlignedError::LengthOverflow { len, extra: (alignment - 1) as usize })
    } else if !power_of_two(alignment as nat) || up_to(len as int, alignment as int)
        > isize::MAX {
        Err(AlignedError::InvalidLayout)
    } else {
        Ok(up_to(len as int, alignment as int) as usize)
    }
}

impl AlignedBuffer {
    /// Bytes of the buffer.
    pub closed spec fn size(self) -> nat {
        self.len as nat
    }

    /// Where the buffer may start.
    pub closed spec fn align(self) -> nat {
        self.alignment as nat
    }

    /// A buffer for `len` bytes, rounded up to the alignment.
    pub fn try_new(len: usize, alignment: usize) -> (r: Result<AlignedBuffer, AlignedError>)
        requires
            alignment > 0,
        ensures
            match r {
                Ok(b) => {
                    &&& buffer_len(len, alignment) == Ok::<usize, AlignedError>(b.size() as usize)
                    &&& b.size() == up_to(len as int, alignment as int)
                    &&& b.align() == alignment
                },
                Err(e) => buffer_len(len, alignment) == Err::<usize, AlignedError>(e),
            },
    {
        if len == 0 {
            return Err(AlignedError::ZeroLength);
        }
        let padded: usize = match len.checked_add(alignment - 1) {
            Some(n) => n,
            None => {
                return Err(AlignedError::LengthOverflow { len, extra: alignment - 1 });
            },
        };
        proof {
            law_rounding(len as int, alignment as int);
        }
        let rounded: usize = padded - padded % alignment;
        if !is_power_of_two(alignment as u64) || rounded > isize::MAX as usize {
            return Err(AlignedError::InvalidLayout);
        }
        Ok(AlignedBuffer { len: rounded, alignment })
    }

    /// A buffer for `len` bytes with the alignment that every device takes.
    pub fn try_new_default(len: usize) -> (r: Result<AlignedBuffer, AlignedError>)
        ensures
            match r {
                Ok(b) => {
                    &&& buffer_len(len, DIRECT_IO_ALIGNMENT) == Ok::<usize, AlignedError>(
                        b.size() as usize,
                    )
                    &&& b.size() == up_to(len as int, DIRECT_IO_ALIGNMENT as int)
                    &&& b.align() == DIRECT_IO_ALIGNMENT
                },
                Err(e) => buffer_len(len, DIRECT_IO_ALIGNMENT) == Err::<usize, AlignedError>(e),
            },
    {
        AlignedBuffer::try_new(len, DIRECT_IO_ALIGNMENT)
    }

    /// A buffer for `len` bytes with the alignment that every device takes, where
    /// there is one.
    pub fn new_default(len: usize) -> (b: AlignedBuffer)
        requires
            buffer_len(len, DIRECT_IO_ALIGNMENT) is Ok,
        ensures
            b.size() == up_to(len as int, DIRECT_IO_ALIGNMENT as int),
            b.align() == DIRECT_IO_ALIGNMENT,
    {
        match AlignedBuffer::try_new_default(len) {
            Ok(b) => b,
            Err(_) => vstd::pervasive::unreached(),
        }
    }

    /// Bytes of the buffer.
    pub fn len(&self) -> (n: usize)
        ensures
            n == self.size(),
    {
        self.len
    }

    /// Where the buffer may start: at multiples of this.
    pub fn alignment(&self) -> (n: usize)
        ensures
            n == self.align(),
    {
        self.alignment
    }
}

/// Slots of one aligned region.
#[derive(Debug, Clone, Copy, PartialEq, Eq, Structural)]
pub struct AlignedBufferPool {
    buffer: AlignedBuffer,
    slot_size: usize,
    num_slots: usize,
}

/// Bytes of a slot for `len` bytes.
pub open spec fn slot_bytes(len: usize) -> int {
    up_to(len as int, DIRECT_IO_ALIGNMENT as int)
}

/// Bytes of the region of a pool, or why there is none.
pub open spec fn pool_len(num_slots: usize, slot_size: usize) -> Result<usize, AlignedError> {
    if num_slots == 0 || slot_size == 0 {
        Err(AlignedError::ZeroSlots)
    } else if slot_size + DIRECT_IO_ALIGNMENT - 1 > usize::MAX {
        Err(
            AlignedError::SlotOverflow {
                len: slot_size,
                extra: (DIRECT_IO_ALIGNMENT - 1) as usize,
            },
        )
    } else if num_slots * slot_bytes(slot_size) > usize::MAX {
        Err(
            AlignedError::PoolOverflow {
                slots: num_slots,
                bytes: slot_bytes(slot_size) as usize,
            },
        )
    } else {
        buffer_len((num_slots * slot_bytes(slot_size)) as usize, DIRECT_IO_ALIGNMENT)
    }
}

impl AlignedBufferPool {
    /// Bytes from one slot to the next.
    pub closed spec fn stride(self) -> nat {
        self.slot_size as nat
    }

    /// Number of slots.
    pub closed spec fn slots(self) -> nat {
        self.num_slots as nat
    }

    /// Bytes of the region.
    pub closed spec fn region(self) -> nat {
        self.buffer.size()
    }

    /// The slots fill the region and are made up of whole blocks.
    pub closed spec fn wf(self) -> bool {
        &&& self.slot_size > 0
        &&& self.num_slots > 0
        &&& self.slot_size % DIRECT_IO_ALIGNMENT == 0
        &&& self.num_slots * self.slot_size == self.buffer.size()
        &&& self.buffer.size() <= usize::MAX
    }

    /// A pool of `num_slots` slots of at least `slot_size` bytes.
    pub fn try_new(num_slots: usize, slot_size: usize) -> (r: Result<
        AlignedBufferPool,
        AlignedError,
    >)
        ensures
            match r {
                Ok(p) => {
                    &&& pool_len(num_slots, slot_size) == Ok::<usize, AlignedError>(
                        p.region() as usize,
                    )
                    &&& p.wf()
                    &&& p.slots() == num_slots
                    &&& p.stride() == slot_bytes(slot_size)
                    &&& p.region() == num_slots * slot_bytes(slot_size)
                },
                Err(e) => pool_len(num_slots, slot_size) == Err::<usize, AlignedError>(e),
            },
    {
        if num_slots == 0 || slot_size == 0 {
            return Err(AlignedError::ZeroSlots);
        }
        let padded: usize = match slot_size.checked_add(DIRECT_IO_ALIGNMENT - 1) {
            Some(n) => n,
            None => {
                return Err(
                    AlignedError::SlotOverflow { len: slot_size, extra: DIRECT_IO_ALIGNMENT - 1 },
                );
            },
        };
        proof {
            law_rounding(slot_size as int, DIRECT_IO_ALIGNMENT as int);
        }
        let stride: usize = padded - padded % DIRECT_IO_ALIGNMENT;
        let total: usize = match num_slots.checked_mul(stride) {
            Some(n) => n,
            None => {
                return Err(AlignedError::PoolOverflow { slots: num_slots, bytes: stride });
            },
        };
        proof {
            lemma_multiple(num_slots as int, stride as int);
        }
        match AlignedBuffer::try_new_default(total) {
            Ok(buffer) => {
                proof {
                    law_rounding(total as int, DIRECT_IO_ALIGNMENT as int);
                    lemma_up_to_multiple(total as int);
                }
                Ok(AlignedBufferPool { buffer, slot_size: stride, num_slots })
            },
            Err(e) => Err(e),
        }
    }

    /// A pool of `num_slots` slots of at least `slot_size` bytes, where there is one.
    pub fn new(num_slots: usize, slot_size: usize) -> (p: AlignedBufferPool)
        requires
            pool_len(num_slots, slot_size) is Ok,
        ensures
            p.wf(),
            p.slots() == num_slots,
            p.stride() == slot_bytes(slot_size),
            p.region() == num_slots * slot_bytes(slot_size),
    {
        match AlignedBufferPool::try_new(num_slots, slot_size) {
            Ok(p) => p,
            Err(_) => vstd::pervasive::unreached(),
        }
    }

    /// Where slot `index` starts in the region.
    pub fn slot_offset(&self, index: usize) -> (at: usize)
        requires
            self.wf(),
            index < self.slots(),
        ensures
            at == index * self.stride(),
    {
        proof {
            lemma_slot_inside(index as int, self.num_slots as int, self.slot_size as int);
        }
        index * self.slot_size
    }

    /// The first `len` bytes of slot `index`, out of the bytes of the region.
    pub fn slot_slice<'a>(&self, region: &'a [u8], index: usize, len: usize) -> (slot: &'a [u8])
        requires
            self.wf(),
            index < self.slots(),
            len <= self.stride(),
            region@.len() >= self.region(),
        ensures
            slot@ == region@.subrange(
                (index * self.stride()) as int,
                (index * self.stride() + len) as int,
            ),
    {
        let (from, to) = self.slot_range(index, len);
        vstd::slice::slice_subrange(region, from, to)
    }

    /// Where the first `len` bytes of slot `index` start and end in the region.
    pub fn slot_range(&self, index: usize, len: usize) -> (r: (usize, usize))
        requires
            self.wf(),
            index < self.slots(),
            len <= self.stride(),
        ensures
            r.0 == index * self.stride(),
            r.1 == index * self.stride() + len,
            r.1 <= self.region(),
    {
        proof {
            lemma_slot_inside(index as int, self.num_slots as int, self.slot_size as int);
        }
        let at: usize = index * self.slot_size;
        (at, at + len)
    }

    /// Bytes of the region that holds every slot.
    pub fn region_len(&self) -> (n: usize)
        requires
            self.wf(),
        ensures
            n == self.region(),
    {
        self.buffer.len
    }

    /// Bytes of a slot, which may be more than were asked for.
    pub fn slot_size(&self) -> (n: usize)
        ensures
            n == self.stride(),
    {
        self.slot_size
    }

    /// Number of slots.
    pub fn num_slots(&self) -> (n: usize)
        ensures
            n == self.slots(),
    {
        self.num_slots
    }

    /// Every slot starts at a multiple of the alignment, lies inside the region, and
    /// overlaps no other.
    pub proof fn law_slots_are_aligned_and_disjoint(self, i: int, j: int)
        requires
            self.wf(),
            0 <= i < self.slots(),
            0 <= j < self.slots(),
        ensures
            (i * self.stride()) % DIRECT_IO_ALIGNMENT as int == 0,
            0 <= i * self.stride(),
            i * self.stride() + self.stride() <= self.region(),
            i < j ==> i * self.stride() + self.stride() <= j * self.stride(),
            j < i ==> j * self.stride() + self.stride() <= i * self.stride(),
    {
        lemma_multiple(i, self.slot_size as int);
        lemma_slot_inside(i, self.num_slots as int, self.slot_size as int);
        if i < j {
            lemma_slot_inside(i, j, self.slot_size as int);
        }
        if j < i {
            lemma_slot_inside(j, i, self.slot_size as int);
        }
    }
}

proof fn lemma_slot_inside(i: int, n: int, size: int)
    requires
        0 <= i < n,
        0 <= size,
    ensures
        0 <= i * size,
        i * size + size <= n * size,
{
    assert(0 <= i * size && i * size + size <= n * size) by (nonlinear_arith)
        requires
            0 <= i,
            i + 1 <= n,
            0 <= size,
    ;
}

/// A multiple of whole blocks is made up of whole blocks.
proof fn lemma_multiple(i: int, size: int)
    requires
        size % DIRECT_IO_ALIGNMENT as int == 0,
    ensures
        (i * size) % DIRECT_IO_ALIGNMENT as int == 0,
{
    let q = size / DIRECT_IO_ALIGNMENT as int;
    assert(i * size == (i * q) * 4096) by (nonlinear_arith)
        requires
            size == q * 4096,
    ;
    vstd::arithmetic::div_mod::lemma_mod_multiples_basic(i * q, DIRECT_IO_ALIGNMENT as int);
}

/// Rounding leaves whole blocks alone.
proof fn lemma_up_to_multiple(n: int)
    requires
        0 <= n,
        n % DIRECT_IO_ALIGNMENT as int == 0,
    ensures
        up_to(n, DIRECT_IO_ALIGNMENT as int) == n,
{
}

/// A buffer is given for every length from one on that, rounded up to the
/// alignment, fits; the alignment is a power of two. The buffer is the least
/// multiple of the alignment that holds the length.
pub proof fn law_buffer_is_the_least_multiple(len: usize, alignment: usize)
    requires
        alignment > 0,
    ensures
        buffer_len(len, alignment) matches Ok(n) ==> {
            &&& len > 0
            &&& len <= n < len + alignment
            &&& n as int % alignment as int == 0
            &&& n <= isize::MAX
            &&& power_of_two(alignment as nat)
        },
        len == 0 <==> buffer_len(len, alignment) == Err::<usize, AlignedError>(
            AlignedError::ZeroLength,
        ),
        len > 0 && len + alignment - 1 <= isize::MAX && power_of_two(alignment as nat)
            ==> buffer_len(len, alignment) is Ok,
        !power_of_two(alignment as nat) ==> buffer_len(len, alignment) is Err,
{
    law_rounding(len as int, alignment as int);
}

/// A pool of slots is one buffer; every slot is its size rounded up to 4096
/// bytes.
pub proof fn law_pool_is_all_its_slots(num_slots: usize, slot_size: usize)
    ensures
        slot_size <= slot_bytes(slot_size) < slot_size + 4096,
        slot_bytes(slot_size) % 4096 == 0,
        pool_len(num_slots, slot_size) matches Ok(n) ==> {
            &&& num_slots > 0
            &&& slot_size > 0
            &&& n == num_slots * slot_bytes(slot_size)
        },
        num_slots == 0 || slot_size == 0 <==> pool_len(num_slots, slot_size) == Err::<
            usize,
            AlignedError,
        >(AlignedError::ZeroSlots),
        num_slots > 0 && slot_size > 0 && slot_size + 4095 <= usize::MAX && num_slots * slot_bytes(
            slot_size,
        ) + 4095 <= isize::MAX ==> pool_len(num_slots, slot_size) is Ok,
{
    law_rounding(slot_size as int, 4096);
    if num_slots > 0 && slot_size > 0 && num_slots * slot_bytes(slot_size) <= usize::MAX {
        let total = num_slots * slot_bytes(slot_size);
        lemma_multiple(num_slots as int, slot_bytes(slot_size));
        law_rounding(total, 4096);
        assert(total > 0) by (nonlinear_arith)
            requires
                total == num_slots * slot_bytes(slot_size),
                num_slots > 0,
                slot_bytes(slot_size) > 0,
        ;
        assert(power_of_two(4096)) by {
            reveal_with_fuel(power_of_two, 14);
        }
        law_buffer_is_the_least_multiple(total as usize, 4096);
    }
}

/// A message tells the numbers of its error, in this order.
pub proof fn law_aligned_messages_tell_their_numbers(e: AlignedError)
    ensures
        match e {
            AlignedError::LengthOverflow { len, extra } => tells(
                e.text(),
                seq![decimal(len as nat), decimal(extra as nat)],
            ),
            AlignedError::SlotOverflow { len, extra } => tells(
                e.text(),
                seq![decimal(len as nat), decimal(extra as nat)],
            ),
            AlignedError::PoolOverflow { slots, bytes } => tells(
                e.text(),
                seq![decimal(slots as nat), decimal(bytes as nat)],
            ),
            _ => true,
        },
{
    match e {
        AlignedError::LengthOverflow { len, extra } => {
            lemma_tells_two(
                e.text(),
                "buffer size overflow: "@,
                decimal(len as nat),
                " + "@,
                decimal(extra as nat),
                Seq::<char>::empty(),
            );
        },
        AlignedError::SlotOverflow { len, extra } => {
            lemma_tells_two(
                e.text(),
                "slot size overflow: "@,
                decimal(len as nat),
                " + "@,
                decimal(extra as nat),
                Seq::<char>::empty(),
            );
        },
        AlignedError::PoolOverflow { slots, bytes } => {
            lemma_tells_two(
                e.text(),
                "AlignedBufferPool size overflow: "@,
                decimal(slots as nat),
                " slots * "@,
                decimal(bytes as nat),
                " bytes"@,
            );
        },
        _ => {},
    }
}

} // verus!
