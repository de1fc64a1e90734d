use vstd::prelude::*;
use vstd::set_lib::{lemma_int_range, lemma_len_subset, lemma_set_disjoint_lens, set_int_range};
use std::collections::VecDeque;
use crate::error::CopyError;
use crate::plan::{blocks_for, CopyPlan};

verus! {

/// `p` lies in the `len` bytes that start at `start`.
pub open spec fn in_span(p: int, start: int, len: int) -> bool {
    start <= p < start + len
}

/// Owner tag of a byte that has been written to the destination.
pub open spec fn committed_tag() -> int {
    -1
}

/// Owner tag of a byte waiting in the read backlog.
pub open spec fn queued_tag() -> int {
    -2
}

/// `m` with every position of the span given the owner `v`.
pub open spec fn assign(m: Map<int, int>, start: int, len: int, v: int) -> Map<int, int> {
    Map::new(
        |p: int| m.contains_key(p) || in_span(p, start, len),
        |p: int|
            if in_span(p, start, len) {
                v
            } else {
                m[p]
            },
    )
}

/// A byte range of the copy, as an offset from the start of the range and a length.
#[derive(Clone, Copy, Debug, PartialEq, Eq, Structural)]
pub struct Extent {
    pub offset: u64,
    pub size: u64,
}

/// Where a buffer stands in its read-then-write cycle.
#[derive(Clone, Copy, Debug, PartialEq, Eq, Structural)]
pub enum Phase {
    Idle,
    Reading,
    Writing,
}

/// The direction of a submitted operation.
#[derive(Clone, Copy, Debug, PartialEq, Eq, Structural)]
pub enum OpKind {
    Read,
    Write,
}

/// One operation for the ring to carry out on a buffer.
#[derive(Clone, Copy, Debug, PartialEq, Eq, Structural)]
pub struct IoOp {
    pub buffer: u64,
    pub kind: OpKind,
    /// Absolute offset in the input (reads) or the output (writes).
    pub file_offset: u64,
    /// Position in the buffer where the transfer starts.
    pub buffer_offset: u64,
    pub len: u64,
    /// Whether the buffer is registered, so the fixed-buffer opcode applies.
    pub fixed: bool,
}

/// What a completion led to.
#[derive(Clone, Copy, Debug, PartialEq, Eq, Structural)]
pub struct Completion {
    /// Bytes that this completion wrote to the destination.
    pub committed: u64,
    /// The operation to submit next on the same buffer, if any.
    pub follow_up: Option<IoOp>,
}

/// Ledger entry of one buffer: its phase and the range it holds in each direction.
#[derive(Clone, Copy, Debug, PartialEq, Eq, Structural)]
pub struct Slot {
    pub phase: Phase,
    pub read: Extent,
    pub write: Extent,
}

/// The copy state machine: buffer pool, transfer ledger and read backlog.
///
/// Every byte of the range that has been handed out is owned by exactly one
/// of: the destination (committed), the backlog, or one buffer.
pub struct Engine {
    input_base: u64,
    output_base: u64,
    total_size: u64,
    block_size: u64,
    registered: u64,
    slots: Vec<Slot>,
    free: VecDeque<usize>,
    backlog: VecDeque<Extent>,
    consumed: u64,
    blocks_issued: u64,
    committed_bytes: u64,
    owner: Ghost<Map<int, int>>,
}

impl Engine {
    pub closed spec fn total(&self) -> int {
        self.total_size as int
    }

    pub closed spec fn block(&self) -> int {
        self.block_size as int
    }

    pub closed spec fn in_base(&self) -> int {
        self.input_base as int
    }

    pub closed spec fn out_base(&self) -> int {
        self.output_base as int
    }

    pub closed spec fn buffer_count(&self) -> int {
        self.slots@.len() as int
    }

    pub closed spec fn registered_count(&self) -> int {
        self.registered as int
    }

    /// Bytes of the range already handed out as fresh reads.
    pub closed spec fn consumed_bytes(&self) -> int {
        self.consumed as int
    }

    /// Fresh block-sized ranges handed out so far.
    pub closed spec fn issued_blocks(&self) -> int {
        self.blocks_issued as int
    }

    pub closed spec fn free_queue(&self) -> Seq<usize> {
        self.free@
    }

    pub closed spec fn pending_reads(&self) -> Seq<Extent> {
        self.backlog@
    }

    pub closed spec fn slot(&self, b: int) -> Slot {
        self.slots@[b]
    }

    /// The byte at offset `p` of the range has been written to the destination.
    pub closed spec fn is_committed(&self, p: int) -> bool {
        self.owner@.contains_key(p) && self.owner@[p] == committed_tag()
    }

    /// Offsets of the range whose bytes have been written to the destination.
    pub closed spec fn committed_set(&self) -> Set<int> {
        Set::new(|p: int| self.is_committed(p))
    }

    /// Bytes written to the destination so far.
    pub closed spec fn committed_total(&self) -> int {
        self.committed_bytes as int
    }

    /// The span a busy buffer is responsible for right now.
    pub closed spec fn active_span(&self, b: int, p: int) -> bool {
        let s = self.slots@[b];
        match s.phase {
            Phase::Idle => false,
            Phase::Reading => in_span(p, s.read.offset as int, s.read.size as int),
            Phase::Writing => in_span(p, s.write.offset as int, s.write.size as int),
        }
    }

    /// Buffer `b` waits in the free queue.
    pub closed spec fn in_free(&self, b: int) -> bool {
        exists|i: int| 0 <= i < self.free@.len() && self.free@[i] as int == b
    }

    pub closed spec fn queued_at(&self, k: int, p: int) -> bool {
        0 <= k < self.backlog@.len() && in_span(
            p,
            self.backlog@[k].offset as int,
            self.backlog@[k].size as int,
        )
    }

    /// The same run: the fixed totals and the pool size are unchanged.
    pub open spec fn same_run(&self, other: Engine) -> bool {
        &&& self.in_base() == other.in_base()
        &&& self.out_base() == other.out_base()
        &&& self.total() == other.total()
        &&& self.block() == other.block()
        &&& self.registered_count() == other.registered_count()
        &&& self.buffer_count() == other.buffer_count()
    }

    closed spec fn slot_ok(&self, b: int) -> bool {
        let s = self.slots@[b];
        match s.phase {
            Phase::Idle => true,
            Phase::Reading => {
                &&& 0 < s.read.size <= self.block_size
                &&& s.read.offset + s.read.size <= self.consumed
            },
            Phase::Writing => {
                &&& s.read.size <= self.block_size
                &&& s.read.offset <= s.write.offset
                &&& s.write.offset + s.write.size <= s.read.offset + s.read.size
                &&& s.read.offset + s.read.size <= self.consumed
            },
        }
    }

    /// The engine's invariant.
    pub closed spec fn wf(&self) -> bool {
        &&& self.block_size > 0
        &&& self.input_base + self.total_size <= u64::MAX
        &&& self.output_base + self.total_size <= u64::MAX
        &&& 0 < self.slots@.len() <= u64::MAX
        &&& self.slots@.len() <= usize::MAX
        &&& self.registered <= self.slots@.len()
        &&& self.consumed <= self.total_size
        &&& self.consumed == if self.blocks_issued * self.block_size <= self.total_size {
            self.blocks_issued * self.block_size
        } else {
            self.total_size as int
        }
        &&& self.blocks_issued == 0 || (self.blocks_issued - 1) * self.block_size < self.total_size
        &&& self.committed_set().finite()
        &&& self.committed_set().len() == self.committed_bytes
        &&& self.free@.no_duplicates()
        &&& forall|i: int| 0 <= i < self.free@.len() ==> #[trigger] self.free@[i] < self.slots@.len()
        &&& forall|b: int|
            0 <= b < self.slots@.len() ==> (#[trigger] self.slots@[b].phase == Phase::Idle
                <==> self.in_free(b))
        &&& forall|b: int| 0 <= b < self.slots@.len() ==> #[trigger] self.slot_ok(b)
        &&& forall|k: int|
            0 <= k < self.backlog@.len() ==> {
                &&& (#[trigger] self.backlog@[k]).size > 0
                &&& self.backlog@[k].size <= self.block_size
                &&& self.backlog@[k].offset + self.backlog@[k].size <= self.consumed
            }
        &&& forall|i: int, j: int, p: int|
            0 <= i < j && #[trigger] self.queued_at(i, p) ==> !#[trigger] self.queued_at(j, p)
        &&& forall|p: int| #[trigger] self.owner@.contains_key(p) <==> 0 <= p < self.consumed
        &&& forall|b: int, p: int|
            0 <= b < self.slots@.len() && #[trigger] self.active_span(b, p) ==> self.owner@[p] == b
        &&& forall|k: int, p: int| #[trigger] self.queued_at(k, p) ==> self.owner@[p] == queued_tag()
        &&& forall|p: int|
            #[trigger] self.owner@.contains_key(p) ==> {
                let o = self.owner@[p];
                &&& o >= queued_tag()
                &&& o >= 0 ==> o < self.slots@.len() && self.active_span(o, p)
                &&& o == queued_tag() ==> exists|k: int| #[trigger] self.queued_at(k, p)
            }
    }

    /// Every buffer is idle.
    pub open spec fn all_idle(&self) -> bool {
        forall|b: int| 0 <= b < self.buffer_count() ==> #[trigger] self.slot(b).phase == Phase::Idle
    }

    /// The run is over: the whole range was handed out, nothing waits in the
    /// backlog and no operation is outstanding.
    pub open spec fn finished(&self) -> bool {
        &&& self.consumed_bytes() == self.total()
        &&& self.pending_reads().len() == 0
        &&& self.all_idle()
    }

    /// There is a free buffer and read work for it.
    pub open spec fn can_read(&self) -> bool {
        &&& self.free_queue().len() > 0
        &&& (self.pending_reads().len() > 0 || self.consumed_bytes() < self.total())
    }
}


impl Engine {
    /// A pool of `num_buffers` idle buffers for the run described by `plan`;
    /// buffers below `registered` use fixed-buffer operations.
    pub fn new(plan: &CopyPlan, num_buffers: usize, registered: u64) -> (r: Engine)
        requires
            plan.wf(),
            0 < num_buffers <= u64::MAX,
            registered <= num_buffers,
        ensures
            r.wf(),
            r.total() == plan.total_size,
            r.block() == plan.block_size,
            r.in_base() == plan.input_base,
            r.out_base() == plan.output_base,
            r.buffer_count() == num_buffers,
            r.registered_count() == registered,
            r.consumed_bytes() == 0,
            r.issued_blocks() == 0,
            r.committed_total() == 0,
            r.pending_reads().len() == 0,
            r.all_idle(),
            r.free_queue().len() == num_buffers,
            forall|i: int| 0 <= i < num_buffers ==> r.free_queue()[i] == i,
            forall|p: int| !r.is_committed(p),
            plan.total_size == 0 ==> r.finished() && !r.can_read(),
    {
        let mut slots: Vec<Slot> = Vec::new();
        let mut free: VecDeque<usize> = VecDeque::new();
        let idle = Slot {
            phase: Phase::Idle,
            read: Extent { offset: 0, size: 0 },
            write: Extent { offset: 0, size: 0 },
        };
        let mut i: usize = 0;
        while i < num_buffers
            invariant
                i <= num_buffers,
                slots@.len() == i,
                free@.len() == i,
                forall|j: int| 0 <= j < i ==> #[trigger] slots@[j] == idle,
                forall|j: int| 0 <= j < i ==> #[trigger] free@[j] == j,
            decreases num_buffers - i,
        {
            slots.push(idle);
            free.push_back(i);
            i = i + 1;
        }
        let r = Engine {
            input_base: plan.input_base,
            output_base: plan.output_base,
            total_size: plan.total_size,
            block_size: plan.block_size,
            registered,
            slots,
            free,
            backlog: VecDeque::new(),
            consumed: 0,
            blocks_issued: 0,
            committed_bytes: 0,
            owner: Ghost(Map::empty()),
        };
        proof {
            assert(r.committed_set() =~= Set::empty());
            assert(r.free@.no_duplicates());
            assert forall|b: int| 0 <= b < r.slots@.len() implies (#[trigger] r.slots@[b].phase == Phase::Idle
                <==> r.free@.contains(b as usize)) by {
                assert(r.free@[b] as int == b);
            }
            assert forall|b: int| 0 <= b < r.slots@.len() implies #[trigger] r.slot_ok(b) by {}
            assert forall|b: int, p: int| 0 <= b < r.slots@.len() implies !#[trigger] r.active_span(b, p) by {}
        }
        r
    }
}


impl Engine {
    /// Fill step: takes the buffer at the head of the free queue and hands it
    /// the next read, from the backlog first, else a fresh block of the range.
    pub fn next_read(&mut self) -> (r: Option<IoOp>)
        requires
            old(self).wf(),
        ensures
            final(self).wf(),
            final(self).same_run(*old(self)),
            r is Some <==> old(self).can_read(),
            r is None ==> *final(self) == *old(self),
            r matches Some(op) ==> {
                let b = old(self).free_queue()[0] as int;
                let q = old(self).pending_reads();
                &&& op.kind == OpKind::Read
                &&& op.buffer == b
                &&& op.buffer_offset == 0
                &&& op.fixed == (b < old(self).registered_count())
                &&& final(self).free_queue() == old(self).free_queue().drop_first()
                &&& final(self).slot(b).phase == Phase::Reading
                &&& final(self).slot(b).read.offset + old(self).in_base() == op.file_offset
                &&& final(self).slot(b).read.size == op.len
                &&& 0 < op.len <= old(self).block()
                &&& if q.len() > 0 {
                    &&& final(self).slot(b).read == q[0]
                    &&& final(self).pending_reads() == q.drop_first()
                    &&& final(self).consumed_bytes() == old(self).consumed_bytes()
                    &&& final(self).issued_blocks() == old(self).issued_blocks()
                } else {
                    &&& op.file_offset == old(self).in_base() + old(self).consumed_bytes()
                    &&& op.len == if old(self).block() <= old(self).total() - old(self).consumed_bytes() {
                        old(self).block()
                    } else {
                        old(self).total() - old(self).consumed_bytes()
                    }
                    &&& final(self).pending_reads() == q
                    &&& final(self).consumed_bytes() == old(self).consumed_bytes() + op.len
                    &&& final(self).issued_blocks() == old(self).issued_blocks() + 1
                }
                &&& forall|c: int| 0 <= c < old(self).buffer_count() && c != b
                    ==> #[trigger] final(self).slot(c) == old(self).slot(c)
            },
            forall|p: int| #[trigger] final(self).is_committed(p) == old(self).is_committed(p),
            final(self).committed_total() == old(self).committed_total(),
    {
        if self.free.len() == 0 || (self.backlog.len() == 0 && self.consumed >= self.total_size) {
            return None;
        }
        let ghost pre = *self;
        let b = self.free.pop_front().unwrap();
        proof {
            assert(pre.in_free(b as int));
            assert(pre.slots@[b as int].phase == Phase::Idle);
        }
        let range = if self.backlog.len() > 0 {
            let e = self.backlog.pop_front().unwrap();
            proof {
                assert(pre.backlog@[0].size > 0);
                assert(pre.backlog@[0].size <= pre.block_size);
            }
            e
        } else {
            let remaining = self.total_size - self.consumed;
            let size = if self.block_size <= remaining { self.block_size } else { remaining };
            let e = Extent { offset: self.consumed, size };
            proof {
                assert(self.blocks_issued * self.block_size < self.total_size);
                assert(self.blocks_issued < self.total_size) by (nonlinear_arith)
                    requires self.blocks_issued * self.block_size < self.total_size, self.block_size > 0;
                assert((self.blocks_issued + 1) * self.block_size == self.blocks_issued * self.block_size
                    + self.block_size) by (nonlinear_arith);
            }
            self.consumed = self.consumed + size;
            self.blocks_issued = self.blocks_issued + 1;
            e
        };
        let old_slot = self.slots[b];
        self.slots.set(b, Slot { phase: Phase::Reading, read: range, write: old_slot.write });
        self.owner = Ghost(assign(self.owner@, range.offset as int, range.size as int, b as int));
        proof {
            self.lemma_after_read_start(pre, b as int, range);
        }
        Some(IoOp {
            buffer: b as u64,
            kind: OpKind::Read,
            file_offset: self.input_base + range.offset,
            buffer_offset: 0,
            len: range.size,
            fixed: (b as u64) < self.registered,
        })
    }

    proof fn lemma_after_read_start(&self, pre: Engine, b: int, range: Extent)
        requires
            pre.wf(),
            0 <= b < pre.slots@.len(),
            pre.free@.len() > 0,
            pre.free@[0] == b,
            pre.slots@[b].phase == Phase::Idle,
            self.same_run(pre),
            self.committed_bytes == pre.committed_bytes,
            self.free@ == pre.free@.drop_first(),
            self.slots@ == pre.slots@.update(b, Slot { phase: Phase::Reading, read: range, write: pre.slots@[b].write }),
            self.owner@ == assign(pre.owner@, range.offset as int, range.size as int, b),
            0 < range.size <= pre.block_size,
            if pre.backlog@.len() > 0 {
                &&& range == pre.backlog@[0]
                &&& self.backlog@ == pre.backlog@.drop_first()
                &&& self.consumed == pre.consumed
                &&& self.blocks_issued == pre.blocks_issued
            } else {
                &&& pre.consumed < pre.total_size
                &&& range.offset == pre.consumed
                &&& range.size == if pre.block_size <= pre.total_size - pre.consumed {
                    pre.block_size as int
                } else {
                    pre.total_size - pre.consumed
                }
                &&& self.backlog@ == pre.backlog@
                &&& self.consumed == pre.consumed + range.size
                &&& self.blocks_issued == pre.blocks_issued + 1
                &&& (pre.blocks_issued + 1) * pre.block_size == pre.blocks_issued * pre.block_size + pre.block_size
            },
        ensures
            self.wf(),
            forall|p: int| #[trigger] self.is_committed(p) == pre.is_committed(p),
    {
        let from_backlog = pre.backlog@.len() > 0;
        assert forall|p: int| #[trigger] self.is_committed(p) == pre.is_committed(p) by {
            if in_span(p, range.offset as int, range.size as int) && from_backlog {
                assert(pre.queued_at(0, p));
            }
        }
        assert(self.committed_set() =~= pre.committed_set());
        assert(self.free@.no_duplicates());
        assert forall|i: int| 0 <= i < self.free@.len() implies #[trigger] self.free@[i] < self.slots@.len() by {
            assert(self.free@[i] == pre.free@[i + 1]);
        }
        assert forall|c: int| 0 <= c < self.slots@.len() implies (#[trigger] self.slots@[c].phase == Phase::Idle
            <==> self.in_free(c)) by {
            if c != b {
                if pre.in_free(c) {
                    let i = choose|i: int| 0 <= i < pre.free@.len() && pre.free@[i] as int == c;
                    assert(i != 0);
                    assert(self.free@[i - 1] as int == c);
                }
                if self.in_free(c) {
                    let i = choose|i: int| 0 <= i < self.free@.len() && self.free@[i] as int == c;
                    assert(pre.free@[i + 1] as int == c);
                }
            } else {
                if self.in_free(c) {
                    let i = choose|i: int| 0 <= i < self.free@.len() && self.free@[i] as int == c;
                    assert(pre.free@[i + 1] == pre.free@[0]);
                }
            }
        }
        assert forall|c: int| 0 <= c < self.slots@.len() implies #[trigger] self.slot_ok(c) by {
            assert(pre.slot_ok(c));
        }
        assert forall|k: int| 0 <= k < self.backlog@.len() implies {
            &&& (#[trigger] self.backlog@[k]).size > 0
            &&& self.backlog@[k].size <= self.block_size
            &&& self.backlog@[k].offset + self.backlog@[k].size <= self.consumed
        } by {
            if from_backlog {
                assert(self.backlog@[k] == pre.backlog@[k + 1]);
            } else {
                assert(self.backlog@[k] == pre.backlog@[k]);
            }
        }
        assert forall|i: int, j: int, p: int| 0 <= i < j && #[trigger] self.queued_at(i, p)
            implies !#[trigger] self.queued_at(j, p) by {
            if from_backlog {
                assert(pre.queued_at(i + 1, p));
                if self.queued_at(j, p) {
                    assert(pre.queued_at(j + 1, p));
                }
            } else {
                assert(pre.queued_at(i, p));
                if self.queued_at(j, p) {
                    assert(pre.queued_at(j, p));
                }
            }
        }
        assert forall|p: int| #[trigger] self.owner@.contains_key(p) <==> 0 <= p < self.consumed by {
            if from_backlog && in_span(p, range.offset as int, range.size as int) {
                assert(pre.queued_at(0, p));
            }
        }
        assert forall|c: int, p: int| 0 <= c < self.slots@.len() && #[trigger] self.active_span(c, p)
            implies self.owner@[p] == c by {
            if c != b {
                assert(pre.active_span(c, p));
                assert(pre.slot_ok(c));
                assert(pre.owner@[p] == c);
                if in_span(p, range.offset as int, range.size as int) {
                    if from_backlog {
                        assert(pre.queued_at(0, p));
                    } else {
                        assert(pre.owner@.contains_key(p));
                    }
                }
            }
        }
        assert forall|k: int, p: int| #[trigger] self.queued_at(k, p) implies self.owner@[p] == queued_tag() by {
            if from_backlog {
                assert(pre.queued_at(k + 1, p));
                if in_span(p, range.offset as int, range.size as int) {
                    assert(pre.queued_at(0, p));
                }
            } else {
                assert(pre.queued_at(k, p));
                assert(pre.owner@.contains_key(p));
            }
        }
        assert forall|p: int| #[trigger] self.owner@.contains_key(p) implies {
            let o = self.owner@[p];
            &&& o >= queued_tag()
            &&& o >= 0 ==> o < self.slots@.len() && self.active_span(o, p)
            &&& o == queued_tag() ==> exists|k: int| #[trigger] self.queued_at(k, p)
        } by {
            if !in_span(p, range.offset as int, range.size as int) {
                assert(pre.owner@.contains_key(p));
                let o = pre.owner@[p];
                if o >= 0 {
                    assert(pre.active_span(o, p));
                    if o == b {
                        assert(false);
                    }
                    assert(self.active_span(o, p));
                }
                if o == queued_tag() {
                    let k = choose|k: int| #[trigger] pre.queued_at(k, p);
                    if from_backlog {
                        assert(k != 0);
                        assert(self.queued_at(k - 1, p));
                    } else {
                        assert(self.queued_at(k, p));
                    }
                }
            }
        }
    }
}


impl Engine {
    /// Buffer `b` has an operation of this kind outstanding.
    pub open spec fn awaits(&self, b: int, kind: OpKind) -> bool {
        &&& 0 <= b < self.buffer_count()
        &&& self.slot(b).phase == match kind {
            OpKind::Read => Phase::Reading,
            OpKind::Write => Phase::Writing,
        }
    }

    /// Bytes asked for by the operation outstanding on buffer `b`.
    pub open spec fn requested(&self, b: int, kind: OpKind) -> int {
        match kind {
            OpKind::Read => self.slot(b).read.size as int,
            OpKind::Write => self.slot(b).write.size as int,
        }
    }

    /// Drain step: takes the completion of an operation on `buffer` that
    /// transferred `result` bytes (a negative `result` is an OS error code).
    /// A read moves the buffer to writing what arrived and queues the rest of
    /// its range; a write commits what it wrote and either continues with the
    /// rest or returns the buffer to the free queue.
    pub fn complete(&mut self, buffer: u64, kind: OpKind, result: i32) -> (r: Result<Completion, CopyError>)
        requires
            old(self).wf(),
        ensures
            final(self).wf(),
            final(self).same_run(*old(self)),
            r is Err ==> *final(self) == *old(self),
            !old(self).awaits(buffer as int, kind) ==> r == Err::<Completion, CopyError>(CopyError::InvariantViolation),
            old(self).awaits(buffer as int, kind) && result < 0 ==> r == Err::<Completion, CopyError>(
                CopyError::Io((0 - result) as i64),
            ),
            old(self).awaits(buffer as int, kind) && result > old(self).requested(buffer as int, kind) ==> r
                == Err::<Completion, CopyError>(CopyError::InvariantViolation),
            old(self).awaits(buffer as int, kind) && 0 <= result <= old(self).requested(buffer as int, kind)
                ==> r is Ok,
            r is Ok ==> forall|c: int| 0 <= c < old(self).buffer_count() && c != buffer
                ==> #[trigger] final(self).slot(c) == old(self).slot(c),
            r is Ok ==> final(self).consumed_bytes() == old(self).consumed_bytes()
                && final(self).issued_blocks() == old(self).issued_blocks(),
            kind == OpKind::Read ==> (r matches Ok(c) ==> {
                let s = old(self).slot(buffer as int);
                &&& c.committed == 0
                &&& c.follow_up == Some((IoOp {
                    buffer,
                    kind: OpKind::Write,
                    file_offset: (old(self).out_base() + s.read.offset) as u64,
                    buffer_offset: 0,
                    len: result as u64,
                    fixed: buffer < old(self).registered_count(),
                }))
                &&& final(self).slot(buffer as int) == (Slot {
                    phase: Phase::Writing,
                    read: s.read,
                    write: Extent { offset: s.read.offset, size: result as u64 },
                })
                &&& final(self).pending_reads() == if result < s.read.size {
                    old(self).pending_reads().push(
                        Extent { offset: (s.read.offset + result) as u64, size: (s.read.size - result) as u64 },
                    )
                } else {
                    old(self).pending_reads()
                }
                &&& final(self).free_queue() == old(self).free_queue()
                &&& forall|p: int| #[trigger] final(self).is_committed(p) == old(self).is_committed(p)
                &&& final(self).committed_total() == old(self).committed_total()
            }),
            kind == OpKind::Write ==> (r matches Ok(c) ==> {
                let s = old(self).slot(buffer as int);
                &&& c.committed == result
                &&& final(self).committed_total() == old(self).committed_total() + result
                &&& forall|p: int| in_span(p, s.write.offset as int, result as int)
                    ==> !old(self).is_committed(p)
                &&& forall|p: int| #[trigger] final(self).is_committed(p) == (old(self).is_committed(p)
                    || in_span(p, s.write.offset as int, result as int))
                &&& final(self).pending_reads() == old(self).pending_reads()
                &&& if result < s.write.size {
                    &&& c.follow_up == Some((IoOp {
                        buffer,
                        kind: OpKind::Write,
                        file_offset: (old(self).out_base() + s.write.offset + result) as u64,
                        buffer_offset: (s.write.offset + result - s.read.offset) as u64,
                        len: (s.write.size - result) as u64,
                        fixed: buffer < old(self).registered_count(),
                    }))
                    &&& final(self).slot(buffer as int) == (Slot {
                        phase: Phase::Writing,
                        read: s.read,
                        write: Extent { offset: (s.write.offset + result) as u64, size: (s.write.size - result) as u64 },
                    })
                    &&& final(self).free_queue() == old(self).free_queue()
                } else {
                    &&& c.follow_up is None
                    &&& final(self).slot(buffer as int).phase == Phase::Idle
                    &&& final(self).free_queue() == old(self).free_queue().push(buffer as usize)
                }
            }),
    {
        if buffer >= self.slots.len() as u64 {
            return Err(CopyError::InvariantViolation);
        }
        let b = buffer as usize;
        let slot = self.slots[b];
        let expected = match kind {
            OpKind::Read => slot.phase == Phase::Reading,
            OpKind::Write => slot.phase == Phase::Writing,
        };
        if !expected {
            return Err(CopyError::InvariantViolation);
        }
        if result < 0 {
            return Err(CopyError::Io(0 - (result as i64)));
        }
        let done = result as u64;
        let ghost pre = *self;
        proof {
            assert(pre.slot_ok(b as int));
        }
        match kind {
            OpKind::Read => {
                if done > slot.read.size {
                    return Err(CopyError::InvariantViolation);
                }
                if done < slot.read.size {
                    self.backlog.push_back(Extent { offset: slot.read.offset + done, size: slot.read.size - done });
                    self.owner = Ghost(
                        assign(self.owner@, slot.read.offset + done, slot.read.size - done, queued_tag()),
                    );
                }
                let w = Extent { offset: slot.read.offset, size: done };
                self.slots.set(b, Slot { phase: Phase::Writing, read: slot.read, write: w });
                proof {
                    self.lemma_after_read_done(pre, b as int, done as int);
                }
                Ok(Completion {
                    committed: 0,
                    follow_up: Some(IoOp {
                        buffer,
                        kind: OpKind::Write,
                        file_offset: self.output_base + slot.read.offset,
                        buffer_offset: 0,
                        len: done,
                        fixed: buffer < self.registered,
                    }),
                })
            },
            OpKind::Write => {
                if done > slot.write.size {
                    return Err(CopyError::InvariantViolation);
                }
                proof {
                    Self::lemma_commit_count(pre, b as int, done as int);
                }
                self.committed_bytes = self.committed_bytes + done;
                self.owner = Ghost(assign(self.owner@, slot.write.offset as int, done as int, committed_tag()));
                let follow_up = if done < slot.write.size {
                    let w = Extent { offset: slot.write.offset + done, size: slot.write.size - done };
                    self.slots.set(b, Slot { phase: Phase::Writing, read: slot.read, write: w });
                    Some(IoOp {
                        buffer,
                        kind: OpKind::Write,
                        file_offset: self.output_base + w.offset,
                        buffer_offset: w.offset - slot.read.offset,
                        len: w.size,
                        fixed: buffer < self.registered,
                    })
                } else {
                    self.slots.set(b, Slot { phase: Phase::Idle, read: slot.read, write: slot.write });
                    self.free.push_back(b);
                    None
                };
                proof {
                    self.lemma_after_write_done(pre, b as int, done as int);
                }
                Ok(Completion { committed: done, follow_up })
            },
        }
    }

    proof fn lemma_after_read_done(&self, pre: Engine, b: int, done: int)
        requires
            pre.wf(),
            pre.awaits(b, OpKind::Read),
            0 <= done <= pre.slots@[b].read.size,
            self.same_run(pre),
            self.consumed == pre.consumed,
            self.committed_bytes == pre.committed_bytes,
            self.blocks_issued == pre.blocks_issued,
            self.free@ == pre.free@,
            self.slots@ == pre.slots@.update(b, Slot {
                phase: Phase::Writing,
                read: pre.slots@[b].read,
                write: Extent { offset: pre.slots@[b].read.offset, size: done as u64 },
            }),
            done < pre.slots@[b].read.size ==> {
                &&& self.backlog@ == pre.backlog@.push(Extent {
                    offset: (pre.slots@[b].read.offset + done) as u64,
                    size: (pre.slots@[b].read.size - done) as u64,
                })
                &&& self.owner@ == assign(
                    pre.owner@,
                    pre.slots@[b].read.offset + done,
                    pre.slots@[b].read.size - done,
                    queued_tag(),
                )
            },
            done == pre.slots@[b].read.size ==> self.backlog@ == pre.backlog@ && self.owner@ == pre.owner@,
        ensures
            self.wf(),
            forall|p: int| #[trigger] self.is_committed(p) == pre.is_committed(p),
    {
        let rd = pre.slots@[b].read;
        let short = done < rd.size;
        let n = pre.backlog@.len() as int;
        assert(pre.slot_ok(b));
        assert forall|p: int| #[trigger] self.is_committed(p) == pre.is_committed(p) by {
            if in_span(p, rd.offset + done, rd.size - done) {
                assert(pre.active_span(b, p));
            }
        }
        assert(self.committed_set() =~= pre.committed_set());
        assert forall|c: int| 0 <= c < self.slots@.len() implies (#[trigger] self.slots@[c].phase == Phase::Idle
            <==> self.in_free(c)) by {
            assert(pre.slots@[c].phase == Phase::Idle <==> pre.in_free(c));
        }
        assert forall|c: int| 0 <= c < self.slots@.len() implies #[trigger] self.slot_ok(c) by {
            assert(pre.slot_ok(c));
        }
        assert forall|k: int| 0 <= k < self.backlog@.len() implies {
            &&& (#[trigger] self.backlog@[k]).size > 0
            &&& self.backlog@[k].size <= self.block_size
            &&& self.backlog@[k].offset + self.backlog@[k].size <= self.consumed
        } by {
            if k < n {
                assert(self.backlog@[k] == pre.backlog@[k]);
            }
        }
        assert forall|k: int, p: int| #[trigger] self.queued_at(k, p) implies (k < n ==> pre.queued_at(k, p))
            && (k >= n ==> short && k == n && in_span(p, rd.offset + done, rd.size - done)) by {
            if k < n {
                assert(self.backlog@[k] == pre.backlog@[k]);
            }
        }
        assert forall|i: int, j: int, p: int| 0 <= i < j && #[trigger] self.queued_at(i, p)
            implies !#[trigger] self.queued_at(j, p) by {
            if self.queued_at(j, p) {
                assert(pre.queued_at(i, p));
                if j < n {
                    assert(pre.queued_at(j, p));
                } else {
                    assert(pre.active_span(b, p));
                    assert(pre.owner@[p] == b);
                }
            }
        }
        assert forall|p: int| #[trigger] self.owner@.contains_key(p) <==> 0 <= p < self.consumed by {}
        assert forall|c: int, p: int| 0 <= c < self.slots@.len() && #[trigger] self.active_span(c, p)
            implies self.owner@[p] == c by {
            if c != b {
                assert(pre.active_span(c, p));
                assert(pre.slot_ok(c));
                assert(pre.owner@[p] == c);
                if short && in_span(p, rd.offset + done, rd.size - done) {
                    assert(pre.active_span(b, p));
                }
            } else {
                assert(pre.active_span(b, p));
            }
        }
        assert forall|k: int, p: int| #[trigger] self.queued_at(k, p) implies self.owner@[p] == queued_tag() by {
            if k < n {
                assert(pre.queued_at(k, p));
            }
        }
        assert forall|p: int| #[trigger] self.owner@.contains_key(p) implies {
            let o = self.owner@[p];
            &&& o >= queued_tag()
            &&& o >= 0 ==> o < self.slots@.len() && self.active_span(o, p)
            &&& o == queued_tag() ==> exists|k: int| #[trigger] self.queued_at(k, p)
        } by {
            if short && in_span(p, rd.offset + done, rd.size - done) {
                assert(self.queued_at(n, p));
            } else {
                let o = pre.owner@[p];
                if o >= 0 {
                    assert(pre.active_span(o, p));
                    assert(self.active_span(o, p));
                }
                if o == queued_tag() {
                    let k = choose|k: int| #[trigger] pre.queued_at(k, p);
                    assert(self.queued_at(k, p));
                }
            }
        }
    }

    /// Committing the first `done` bytes of buffer `b`'s write adds exactly
    /// those offsets to the committed set, none of which was there before.
    proof fn lemma_commit_count(pre: Engine, b: int, done: int)
        requires
            pre.wf(),
            pre.awaits(b, OpKind::Write),
            0 <= done <= pre.slots@[b].write.size,
        ensures
            ({
                let span = set_int_range(pre.slots@[b].write.offset as int, pre.slots@[b].write.offset + done);
                &&& pre.committed_set().disjoint(span)
                &&& (pre.committed_set() + span).finite()
                &&& (pre.committed_set() + span).len() == pre.committed_bytes + done
                &&& pre.committed_bytes + done <= pre.consumed
            }),
    {
        let wr = pre.slots@[b].write;
        let span = set_int_range(wr.offset as int, wr.offset + done);
        assert(pre.slot_ok(b));
        assert forall|p: int| span.contains(p) implies !pre.committed_set().contains(p) by {
            assert(pre.active_span(b, p));
        }
        lemma_int_range(wr.offset as int, wr.offset + done);
        lemma_set_disjoint_lens(pre.committed_set(), span);
        lemma_int_range(0, pre.consumed as int);
        assert forall|p: int| (pre.committed_set() + span).contains(p) implies set_int_range(0, pre.consumed as int).contains(p) by {
            if pre.committed_set().contains(p) {
                assert(pre.owner@.contains_key(p));
            }
        }
        lemma_len_subset(pre.committed_set() + span, set_int_range(0, pre.consumed as int));
    }

    proof fn lemma_after_write_done(&self, pre: Engine, b: int, done: int)
        requires
            pre.wf(),
            pre.awaits(b, OpKind::Write),
            0 <= done <= pre.slots@[b].write.size,
            self.same_run(pre),
            self.consumed == pre.consumed,
            self.committed_bytes == pre.committed_bytes + done,
            self.blocks_issued == pre.blocks_issued,
            self.backlog@ == pre.backlog@,
            self.owner@ == assign(pre.owner@, pre.slots@[b].write.offset as int, done, committed_tag()),
            done < pre.slots@[b].write.size ==> {
                &&& self.free@ == pre.free@
                &&& self.slots@ == pre.slots@.update(b, Slot {
                    phase: Phase::Writing,
                    read: pre.slots@[b].read,
                    write: Extent {
                        offset: (pre.slots@[b].write.offset + done) as u64,
                        size: (pre.slots@[b].write.size - done) as u64,
                    },
                })
            },
            done == pre.slots@[b].write.size ==> {
                &&& self.free@ == pre.free@.push(b as usize)
                &&& self.slots@ == pre.slots@.update(b, Slot {
                    phase: Phase::Idle,
                    read: pre.slots@[b].read,
                    write: pre.slots@[b].write,
                })
            },
        ensures
            self.wf(),
            forall|p: int| in_span(p, pre.slots@[b].write.offset as int, done) ==> !pre.is_committed(p),
            forall|p: int| #[trigger] self.is_committed(p) == (pre.is_committed(p)
                || in_span(p, pre.slots@[b].write.offset as int, done)),
    {
        let wr = pre.slots@[b].write;
        let partial = done < wr.size;
        assert(pre.slot_ok(b));
        assert forall|p: int| in_span(p, wr.offset as int, done) implies !pre.is_committed(p) by {
            assert(pre.active_span(b, p));
        }
        assert forall|p: int| #[trigger] self.is_committed(p) == (pre.is_committed(p)
            || in_span(p, wr.offset as int, done)) by {
            if in_span(p, wr.offset as int, done) {
                assert(pre.active_span(b, p));
            }
        }
        Self::lemma_commit_count(pre, b, done);
        assert(self.committed_set() =~= pre.committed_set() + set_int_range(wr.offset as int, wr.offset + done));
        if !partial {
            assert(!pre.in_free(b));
            assert(self.free@.no_duplicates()) by {
                assert forall|i: int, j: int| 0 <= i < j < self.free@.len() implies self.free@[i] != self.free@[j] by {
                    if j == self.free@.len() - 1 {
                        assert(self.free@[j] as int == b);
                        if self.free@[i] as int == b {
                            assert(pre.free@[i] as int == b);
                        }
                    }
                }
            }
        }
        assert forall|i: int| 0 <= i < self.free@.len() implies #[trigger] self.free@[i] < self.slots@.len() by {
            if i < pre.free@.len() {
                assert(self.free@[i] == pre.free@[i]);
            }
        }
        assert forall|c: int| 0 <= c < self.slots@.len() implies (#[trigger] self.slots@[c].phase == Phase::Idle
            <==> self.in_free(c)) by {
            if c != b {
                assert(pre.slots@[c].phase == Phase::Idle <==> pre.in_free(c));
                if pre.in_free(c) {
                    let i = choose|i: int| 0 <= i < pre.free@.len() && pre.free@[i] as int == c;
                    assert(self.free@[i] as int == c);
                }
                if self.in_free(c) {
                    let i = choose|i: int| 0 <= i < self.free@.len() && self.free@[i] as int == c;
                    if i < pre.free@.len() {
                        assert(pre.free@[i] as int == c);
                    }
                }
            } else if !partial {
                assert(self.free@[pre.free@.len() as int] as int == b);
            } else {
                if self.in_free(b) {
                    let i = choose|i: int| 0 <= i < self.free@.len() && self.free@[i] as int == b;
                    assert(pre.free@[i] as int == b);
                }
            }
        }
        assert forall|c: int| 0 <= c < self.slots@.len() implies #[trigger] self.slot_ok(c) by {
            assert(pre.slot_ok(c));
        }
        assert forall|k: int, p: int| #[trigger] self.queued_at(k, p) == pre.queued_at(k, p) by {}
        assert forall|i: int, j: int, p: int| 0 <= i < j && #[trigger] self.queued_at(i, p)
            implies !#[trigger] self.queued_at(j, p) by {
            assert(pre.queued_at(i, p));
        }
        assert forall|p: int| #[trigger] self.owner@.contains_key(p) <==> 0 <= p < self.consumed by {
            if in_span(p, wr.offset as int, done) {
                assert(pre.active_span(b, p));
            }
        }
        assert forall|c: int, p: int| 0 <= c < self.slots@.len() && #[trigger] self.active_span(c, p)
            implies self.owner@[p] == c by {
            if c != b {
                assert(pre.active_span(c, p));
                assert(pre.slot_ok(c));
                assert(pre.owner@[p] == c);
                if in_span(p, wr.offset as int, done) {
                    assert(pre.active_span(b, p));
                }
            } else {
                assert(pre.active_span(b, p));
            }
        }
        assert forall|k: int, p: int| #[trigger] self.queued_at(k, p) implies self.owner@[p] == queued_tag() by {
            assert(pre.queued_at(k, p));
            if in_span(p, wr.offset as int, done) {
                assert(pre.active_span(b, p));
            }
        }
        assert forall|p: int| #[trigger] self.owner@.contains_key(p) implies {
            let o = self.owner@[p];
            &&& o >= queued_tag()
            &&& o >= 0 ==> o < self.slots@.len() && self.active_span(o, p)
            &&& o == queued_tag() ==> exists|k: int| #[trigger] self.queued_at(k, p)
        } by {
            if !in_span(p, wr.offset as int, done) {
                let o = pre.owner@[p];
                if o >= 0 {
                    assert(pre.active_span(o, p));
                    assert(self.active_span(o, p));
                }
                if o == queued_tag() {
                    let k = choose|k: int| #[trigger] pre.queued_at(k, p);
                    assert(self.queued_at(k, p));
                }
            }
        }
    }
}


impl Engine {
    /// Bytes the run copies.
    pub fn total_size(&self) -> (r: u64)
        ensures
            r == self.total(),
    {
        self.total_size
    }

    /// Number of buffers in the pool.
    pub fn num_buffers(&self) -> (r: usize)
        ensures
            r == self.buffer_count(),
    {
        self.slots.len()
    }

    /// Fresh block-sized ranges handed out so far; once the run is finished,
    /// the number of blocks copied.
    pub fn blocks_issued(&self) -> (r: u64)
        ensures
            r == self.issued_blocks(),
    {
        self.blocks_issued
    }

    /// Bytes written to the destination so far: the progress count.
    pub fn bytes_committed(&self) -> (r: u64)
        ensures
            r == self.committed_total(),
    {
        self.committed_bytes
    }

    /// Loop condition of the drive loop: whether the whole range is committed
    /// and every buffer is back in the pool.
    pub fn is_finished(&self) -> (r: bool)
        requires
            self.wf(),
        ensures
            r == self.finished(),
    {
        if self.consumed < self.total_size || self.backlog.len() > 0 {
            return false;
        }
        let mut b: usize = 0;
        while b < self.slots.len()
            invariant
                b <= self.slots@.len(),
                forall|c: int| 0 <= c < b ==> #[trigger] self.slots@[c].phase == Phase::Idle,
            decreases self.slots@.len() - b,
        {
            if self.slots[b].phase != Phase::Idle {
                assert(self.slot(b as int).phase != Phase::Idle);
                return false;
            }
            b = b + 1;
        }
        true
    }
}

/// When the run is finished, every byte of the range has been committed to
/// the destination, the bytes committed add up to the size of the range, and
/// the number of blocks handed out is the number of blocks that cover it.
pub proof fn lemma_finished_copies_range(e: Engine)
    requires
        e.wf(),
        e.finished(),
    ensures
        forall|p: int| 0 <= p < e.total() ==> #[trigger] e.is_committed(p),
        e.committed_total() == e.total(),
        e.issued_blocks() == blocks_for(e.total(), e.block()),
{
    assert forall|p: int| 0 <= p < e.total() implies #[trigger] e.is_committed(p) by {
        assert(e.owner@.contains_key(p));
        let o = e.owner@[p];
        if o >= 0 {
            assert(e.active_span(o, p));
            assert(e.slot(o).phase == Phase::Idle);
        }
        if o == queued_tag() {
            let k = choose|k: int| #[trigger] e.queued_at(k, p);
            assert(false);
        }
    }
    assert(e.committed_set() =~= set_int_range(0, e.total()));
    lemma_int_range(0, e.total());
    let k = e.blocks_issued as int;
    let bs = e.block_size as int;
    let t = e.total_size as int;
    if k == 0 {
        assert(e.blocks_issued * e.block_size == 0) by (nonlinear_arith)
            requires e.blocks_issued == 0;
        assert(t == 0);
    } else {
        assert(k * bs >= t);
        assert((k - 1) * bs < t);
        assert(blocks_for(t, bs) == k) by (nonlinear_arith)
            requires k * bs >= t, (k - 1) * bs < t, bs > 0, k >= 1, t >= 0;
    }
}

/// A run that is not finished always has something to do: a free buffer with
/// read work for it, or an operation outstanding whose completion will come.
pub proof fn lemma_unfinished_has_work(e: Engine)
    requires
        e.wf(),
        !e.finished(),
    ensures
        e.can_read() || exists|b: int| #[trigger] e.awaits(b, OpKind::Read) || e.awaits(b, OpKind::Write),
{
    if e.consumed < e.total_size || e.backlog@.len() > 0 {
        if e.free@.len() == 0 {
            assert(!e.in_free(0));
            assert(e.slots@[0].phase != Phase::Idle);
            assert(e.awaits(0, OpKind::Read) || e.awaits(0, OpKind::Write));
        }
    } else {
        let b = choose|b: int| 0 <= b < e.slots@.len() && #[trigger] e.slots@[b].phase != Phase::Idle;
        assert(e.awaits(b, OpKind::Read) || e.awaits(b, OpKind::Write));
    }
}

} // verus!
