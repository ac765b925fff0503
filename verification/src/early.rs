//! The dual-region bump allocator.
//!
//! One contiguous region `[start, end)` serves two cursors that grow toward
//! each other: `byte_pos` moves forward for byte-granularity allocations,
//! `page_pos` moves backward for page allocations. The region layout is
//!
//! ```text
//! [ bytes-used | available | pages-used ]
//! start      byte_pos    page_pos     end
//! ```
//!
//! Byte allocations are reclaimed in bulk: `count` tracks outstanding byte
//! allocations, and when it returns to zero the whole byte area is reset.
//! Pages are never reclaimed.

use vstd::prelude::*;

verus! {

/// Everything the allocator does is stated over this mathematical model of
/// its state: five unbounded integers standing for the five fields.
pub struct RegionModel {
    pub start: int,
    pub end: int,
    pub count: int,
    pub byte_pos: int,
    pub page_pos: int,
}

/// The region invariant: the two cursors sit inside the region and never
/// cross each other.
pub open spec fn region_wf(m: RegionModel) -> bool {
    m.start <= m.byte_pos <= m.page_pos <= m.end && 0 <= m.count
}

/// `addr` rounded up to the next multiple of `align` (for `align > 0`).
pub open spec fn spec_align_up(addr: int, align: int) -> int {
    if addr % align == 0 {
        addr
    } else {
        addr + align - addr % align
    }
}

/// `addr` rounded down to a multiple of `align` (for `align > 0`).
pub open spec fn spec_align_down(addr: int, align: int) -> int {
    addr - addr % align
}

/// A power of two, stated arithmetically.
pub open spec fn is_pow2(n: int) -> bool
    decreases n,
{
    if n <= 0 {
        false
    } else if n == 1 {
        true
    } else {
        n % 2 == 0 && is_pow2(n / 2)
    }
}

/// The one recoverable error: a request does not fit between the two
/// converging cursors. Every other misuse is a precondition violation.
#[derive(Clone, Copy, Debug, PartialEq, Eq, Structural)]
pub enum AllocError {
    OutOfMemory,
}

/// Whether a byte allocation of `size` aligned to `align` fits in `m`.
pub open spec fn spec_alloc_fits(m: RegionModel, size: int, align: int) -> bool {
    spec_align_up(m.byte_pos, align) + size <= m.page_pos
}

/// The address a fitting byte allocation returns.
pub open spec fn spec_alloc_addr(m: RegionModel, align: int) -> int {
    spec_align_up(m.byte_pos, align)
}

/// The state after a byte allocation: the byte cursor advances past the new
/// block and the live count grows by one; a failing request changes nothing.
pub open spec fn spec_alloc_step(m: RegionModel, size: int, align: int) -> RegionModel {
    if spec_alloc_fits(m, size, align) {
        RegionModel {
            start: m.start,
            end: m.end,
            count: m.count + 1,
            byte_pos: spec_alloc_addr(m, align) + size,
            page_pos: m.page_pos,
        }
    } else {
        m
    }
}

/// The state after a byte deallocation: the live count drops by one, and
/// when it reaches zero the whole byte area is reclaimed at once.
pub open spec fn spec_dealloc_step(m: RegionModel) -> RegionModel {
    if m.count == 1 {
        RegionModel { start: m.start, end: m.end, count: 0, byte_pos: m.start, page_pos: m.page_pos }
    } else {
        RegionModel {
            start: m.start,
            end: m.end,
            count: m.count - 1,
            byte_pos: m.byte_pos,
            page_pos: m.page_pos,
        }
    }
}

/// Whether a page allocation of `num` pages at alignment `align` fits in `m`.
pub open spec fn spec_pages_fits(m: RegionModel, num: int, align: int, page_size: int) -> bool {
    spec_align_down(m.page_pos, align) - num * page_size >= m.byte_pos
}

/// The base address a fitting page allocation returns: the low bound of the
/// newly carved block.
pub open spec fn spec_pages_addr(m: RegionModel, num: int, align: int, page_size: int) -> int {
    spec_align_down(m.page_pos, align) - num * page_size
}

/// The state after a page allocation: the page cursor drops to the new
/// block's base; a failing request changes nothing.
pub open spec fn spec_pages_step(m: RegionModel, num: int, align: int, page_size: int) -> RegionModel {
    if spec_pages_fits(m, num, align, page_size) {
        RegionModel {
            start: m.start,
            end: m.end,
            count: m.count,
            byte_pos: m.byte_pos,
            page_pos: spec_pages_addr(m, num, align, page_size),
        }
    } else {
        m
    }
}

/// A power of two is at least one.
pub proof fn lemma_pow2_pos(n: int)
    requires
        is_pow2(n),
    ensures
        n >= 1,
{
}

pub struct EarlyAllocator<const PAGE_SIZE: usize> {
    start: usize,
    end: usize,
    count: usize,
    byte_pos: usize,
    page_pos: usize,
}

impl<const PAGE_SIZE: usize> View for EarlyAllocator<PAGE_SIZE> {
    type V = RegionModel;

    closed spec fn view(&self) -> RegionModel {
        RegionModel {
            start: self.start as int,
            end: self.end as int,
            count: self.count as int,
            byte_pos: self.byte_pos as int,
            page_pos: self.page_pos as int,
        }
    }
}

impl<const PAGE_SIZE: usize> EarlyAllocator<PAGE_SIZE> {
    /// A fresh, uninitialized allocator: every field zero.
    pub fn new() -> (r: Self)
        ensures
            r@ == (RegionModel { start: 0, end: 0, count: 0, byte_pos: 0, page_pos: 0 }),
            region_wf(r@),
    {
        Self { start: 0, end: 0, count: 0, byte_pos: 0, page_pos: 0 }
    }

    /// Hand the allocator its region: `[start, start + size)`. Both cursors
    /// are reset, so any bookkeeping from an earlier region is discarded.
    pub fn init(&mut self, start: usize, size: usize)
        requires
            size >= 1,
            start + size <= usize::MAX,
        ensures
            final(self)@ == (RegionModel {
                start: start as int,
                end: start + size,
                count: 0,
                byte_pos: start as int,
                page_pos: start + size,
            }),
            region_wf(final(self)@),
    {
        self.start = start;
        self.end = start + size;
        self.count = 0;
        self.byte_pos = start;
        self.page_pos = self.end;
    }

    /// Accepted for interface compatibility only: it always succeeds and
    /// never grows the managed region. Callers must not rely on it to
    /// enlarge capacity.
    pub fn add_memory(&mut self, _start: usize, _size: usize) -> (r: Result<(), AllocError>)
        ensures
            r == Ok::<(), AllocError>(()),
            final(self)@ == old(self)@,
    {
        Ok(())
    }

    /// `addr` rounded up to the next multiple of `align`.
    fn align_up(&self, addr: usize, align: usize) -> (r: usize)
        requires
            is_pow2(align as int),
            spec_align_up(addr as int, align as int) <= usize::MAX,
        ensures
            r as int == spec_align_up(addr as int, align as int),
    {
        proof {
            lemma_pow2_pos(align as int);
            vstd::arithmetic::div_mod::lemma_mod_decreases(addr as nat, align as nat);
        }
        let rem = addr % align;
        if rem == 0 {
            addr
        } else {
            addr - rem + align
        }
    }

    /// `addr` rounded down to a multiple of `align`.
    fn align_down(&self, addr: usize, align: usize) -> (r: usize)
        requires
            is_pow2(align as int),
        ensures
            r as int == spec_align_down(addr as int, align as int),
    {
        proof {
            lemma_pow2_pos(align as int);
            vstd::arithmetic::div_mod::lemma_mod_decreases(addr as nat, align as nat);
        }
        addr - addr % align
    }

    /// Carve `size` bytes at alignment `align` off the low end.
    ///
    /// Exactly when the aligned candidate block fits below the page cursor,
    /// the byte cursor advances past it, the live count grows by one and the
    /// block's address comes back; otherwise nothing changes and the call
    /// reports `OutOfMemory`.
    pub fn alloc_bytes(&mut self, size: usize, align: usize) -> (r: Result<usize, AllocError>)
        requires
            region_wf(old(self)@),
            is_pow2(align as int),
            old(self)@.count < usize::MAX,
        ensures
            region_wf(final(self)@),
            final(self)@ == spec_alloc_step(old(self)@, size as int, align as int),
            spec_alloc_fits(old(self)@, size as int, align as int) ==> r == Ok::<usize, AllocError>(
                spec_alloc_addr(old(self)@, align as int) as usize,
            ),
            !spec_alloc_fits(old(self)@, size as int, align as int) ==> r == Err::<
                usize,
                AllocError,
            >(AllocError::OutOfMemory) && final(self)@ == old(self)@,
    {
        proof {
            lemma_pow2_pos(align as int);
        }
        let rem = self.byte_pos % align;
        let pad = if rem == 0 {
            0
        } else {
            align - rem
        };
        if pad > self.page_pos - self.byte_pos {
            return Err(AllocError::OutOfMemory);
        }
        let cand = self.align_up(self.byte_pos, align);
        if size > self.page_pos - cand {
            return Err(AllocError::OutOfMemory);
        }
        self.byte_pos = cand + size;
        self.count = self.count + 1;
        Ok(cand)
    }

    /// Give back one byte allocation.
    ///
    /// Individual addresses are not tracked: only the live count drops, and
    /// when it reaches zero the whole byte area is reclaimed in one step by
    /// resetting the byte cursor to `start`. The arguments of the matching
    /// allocation are accepted but play no role.
    pub fn dealloc(&mut self, _addr: usize, _size: usize, _align: usize)
        requires
            region_wf(old(self)@),
            old(self)@.count >= 1,
        ensures
            region_wf(final(self)@),
            final(self)@ == spec_dealloc_step(old(self)@),
    {
        self.count = self.count - 1;
        if self.count == 0 {
            self.byte_pos = self.start;
        }
    }

    /// The size of the whole managed region in bytes.
    pub fn total_bytes(&self) -> (r: usize)
        requires
            region_wf(self@),
        ensures
            r as int == self@.end - self@.start,
    {
        self.end - self.start
    }

    /// How many bytes the byte side has consumed so far.
    pub fn used_bytes(&self) -> (r: usize)
        requires
            region_wf(self@),
        ensures
            r as int == self@.byte_pos - self@.start,
    {
        self.byte_pos - self.start
    }

    /// How many bytes are still free between the two cursors.
    pub fn available_bytes(&self) -> (r: usize)
        requires
            region_wf(self@),
        ensures
            r as int == self@.page_pos - self@.byte_pos,
    {
        self.page_pos - self.byte_pos
    }

    /// Carve `num_pages` whole pages at alignment `align_pow2` off the high
    /// end.
    ///
    /// The page cursor is rounded down to `align_pow2` and the block laid
    /// out right below that boundary. Exactly when the block's base stays at
    /// or above the byte cursor, the page cursor drops to that base and the
    /// base address comes back; otherwise nothing changes and the call
    /// reports `OutOfMemory`.
    pub fn alloc_pages(&mut self, num_pages: usize, align_pow2: usize) -> (r: Result<
        usize,
        AllocError,
    >)
        requires
            region_wf(old(self)@),
            PAGE_SIZE >= 1,
            is_pow2(align_pow2 as int),
            align_pow2 as int % PAGE_SIZE as int == 0,
        ensures
            region_wf(final(self)@),
            final(self)@ == spec_pages_step(
                old(self)@,
                num_pages as int,
                align_pow2 as int,
                PAGE_SIZE as int,
            ),
            spec_pages_fits(old(self)@, num_pages as int, align_pow2 as int, PAGE_SIZE as int)
                ==> r == Ok::<usize, AllocError>(
                spec_pages_addr(
                    old(self)@,
                    num_pages as int,
                    align_pow2 as int,
                    PAGE_SIZE as int,
                ) as usize,
            ),
            !spec_pages_fits(old(self)@, num_pages as int, align_pow2 as int, PAGE_SIZE as int)
                ==> r == Err::<usize, AllocError>(AllocError::OutOfMemory) && final(self)@ == old(
                self,
            )@,
            spec_pages_fits(old(self)@, num_pages as int, align_pow2 as int, PAGE_SIZE as int)
                && num_pages >= 1 ==> final(self)@.page_pos < old(self)@.page_pos,
    {
        proof {
            lemma_pow2_pos(align_pow2 as int);
            vstd::arithmetic::div_mod::lemma_mod_decreases(
                old(self).page_pos as nat,
                align_pow2 as nat,
            );
        }
        let high = self.align_down(self.page_pos, align_pow2);
        if high < self.byte_pos {
            return Err(AllocError::OutOfMemory);
        }
        let avail = high - self.byte_pos;
        if num_pages > avail / PAGE_SIZE {
            proof {
                assert(num_pages as int * PAGE_SIZE as int > avail as int) by (nonlinear_arith)
                    requires
                        num_pages as int > avail as int / PAGE_SIZE as int,
                        PAGE_SIZE as int >= 1,
                        avail as int >= 0,
                ;
            }
            return Err(AllocError::OutOfMemory);
        }
        proof {
            assert(num_pages as int * PAGE_SIZE as int <= avail as int) by (nonlinear_arith)
                requires
                    num_pages as int <= avail as int / PAGE_SIZE as int,
                    PAGE_SIZE as int >= 1,
                    avail as int >= 0,
            ;
            if num_pages >= 1 {
                assert(num_pages as int * PAGE_SIZE as int >= PAGE_SIZE as int)
                    by (nonlinear_arith)
                    requires
                        num_pages as int >= 1,
                        PAGE_SIZE as int >= 1,
                ;
            }
        }
        let sz = num_pages * PAGE_SIZE;
        self.page_pos = high - sz;
        Ok(high - sz)
    }

    /// Pages are never reclaimed in this bootstrap allocator: the call is a
    /// no-op by design, and the page cursor never moves back toward `end`.
    pub fn dealloc_pages(&mut self, _addr: usize, _num_pages: usize)
        ensures
            final(self)@ == old(self)@,
    {
    }

    /// The size of the whole managed region in pages.
    pub fn total_pages(&self) -> (r: usize)
        requires
            region_wf(self@),
            PAGE_SIZE >= 1,
        ensures
            r as int == (self@.end - self@.start) / PAGE_SIZE as int,
    {
        (self.end - self.start) / PAGE_SIZE
    }

    /// How many pages the page side has consumed so far.
    pub fn used_pages(&self) -> (r: usize)
        requires
            region_wf(self@),
            PAGE_SIZE >= 1,
        ensures
            r as int == (self@.end - self@.page_pos) / PAGE_SIZE as int,
    {
        (self.end - self.page_pos) / PAGE_SIZE
    }

    /// How many whole pages still fit between the two cursors.
    pub fn available_pages(&self) -> (r: usize)
        requires
            region_wf(self@),
            PAGE_SIZE >= 1,
        ensures
            r as int == (self@.page_pos - self@.byte_pos) / PAGE_SIZE as int,
    {
        (self.page_pos - self.byte_pos) / PAGE_SIZE
    }

    /// How many byte allocations are outstanding.
    pub fn live_count(&self) -> (r: usize)
        ensures
            r as int == self@.count,
    {
        self.count
    }
}

/// One allocator operation after initialization, at the model level. A
/// sequence of these stands for everything a caller can do to a ready
/// allocator short of re-initializing it.
pub enum RegionOp {
    AllocBytes { size: int, align: int },
    DeallocBytes,
    AllocPages { num: int, align: int },
    DeallocPages,
    AddMemory,
}

/// The caller obligations of one operation: exactly the `requires` of the
/// corresponding method, restated over the model.
pub open spec fn op_enabled(m: RegionModel, op: RegionOp, page_size: int) -> bool {
    match op {
        RegionOp::AllocBytes { size, align } => is_pow2(align) && size >= 0,
        RegionOp::DeallocBytes => m.count >= 1,
        RegionOp::AllocPages { num, align } => is_pow2(align) && align % page_size == 0 && num
            >= 0,
        RegionOp::DeallocPages => true,
        RegionOp::AddMemory => true,
    }
}

/// The state one operation leaves behind.
pub open spec fn region_step(m: RegionModel, op: RegionOp, page_size: int) -> RegionModel {
    match op {
        RegionOp::AllocBytes { size, align } => spec_alloc_step(m, size, align),
        RegionOp::DeallocBytes => spec_dealloc_step(m),
        RegionOp::AllocPages { num, align } => spec_pages_step(m, num, align, page_size),
        RegionOp::DeallocPages => m,
        RegionOp::AddMemory => m,
    }
}

/// The state a whole sequence of operations leaves behind.
pub open spec fn region_run(m: RegionModel, ops: Seq<RegionOp>, page_size: int) -> RegionModel
    decreases ops.len(),
{
    if ops.len() == 0 {
        m
    } else {
        region_step(region_run(m, ops.drop_last(), page_size), ops.last(), page_size)
    }
}

/// Every operation of the sequence meets its obligations in the state it
/// runs from.
pub open spec fn ops_enabled(m: RegionModel, ops: Seq<RegionOp>, page_size: int) -> bool
    decreases ops.len(),
{
    if ops.len() == 0 {
        true
    } else {
        ops_enabled(m, ops.drop_last(), page_size) && op_enabled(
            region_run(m, ops.drop_last(), page_size),
            ops.last(),
            page_size,
        )
    }
}

/// One operation keeps the region invariant.
pub proof fn lemma_step_preserves_wf(m: RegionModel, op: RegionOp, page_size: int)
    requires
        region_wf(m),
        op_enabled(m, op, page_size),
        page_size >= 1,
    ensures
        region_wf(region_step(m, op, page_size)),
{
    broadcast use vstd::arithmetic::div_mod::lemma_mod_bound;
    broadcast use vstd::arithmetic::mul::lemma_mul_nonnegative;

    match op {
        RegionOp::AllocBytes { size, align } => {
            lemma_pow2_pos(align);
        },
        RegionOp::AllocPages { num, align } => {
            lemma_pow2_pos(align);
            assert(num * page_size >= 0);
        },
        _ => {},
    }
}

/// The invariant of reachable states: whatever a caller does to a
/// well-formed allocator, `start <= byte_cursor <= page_cursor <= end`
/// still holds afterwards.
pub proof fn lemma_invariant_reachable(m: RegionModel, ops: Seq<RegionOp>, page_size: int)
    requires
        region_wf(m),
        ops_enabled(m, ops, page_size),
        page_size >= 1,
    ensures
        region_wf(region_run(m, ops, page_size)),
    decreases ops.len(),
{
    if ops.len() > 0 {
        lemma_invariant_reachable(m, ops.drop_last(), page_size);
        lemma_step_preserves_wf(region_run(m, ops.drop_last(), page_size), ops.last(), page_size);
    }
}

/// No operation ever moves the page cursor up.
pub proof fn lemma_step_page_pos_monotone(m: RegionModel, op: RegionOp, page_size: int)
    requires
        region_wf(m),
        op_enabled(m, op, page_size),
        page_size >= 1,
    ensures
        region_step(m, op, page_size).page_pos <= m.page_pos,
{
    broadcast use vstd::arithmetic::div_mod::lemma_mod_bound;
    broadcast use vstd::arithmetic::mul::lemma_mul_nonnegative;

    match op {
        RegionOp::AllocPages { num, align } => {
            lemma_pow2_pos(align);
            assert(num * page_size >= 0);
        },
        _ => {},
    }
}

/// Over a whole run, the page cursor only ever moves down.
pub proof fn lemma_run_page_pos_monotone(m: RegionModel, ops: Seq<RegionOp>, page_size: int)
    requires
        region_wf(m),
        ops_enabled(m, ops, page_size),
        page_size >= 1,
    ensures
        region_run(m, ops, page_size).page_pos <= m.page_pos,
    decreases ops.len(),
{
    if ops.len() > 0 {
        lemma_run_page_pos_monotone(m, ops.drop_last(), page_size);
        lemma_invariant_reachable(m, ops.drop_last(), page_size);
        lemma_step_page_pos_monotone(
            region_run(m, ops.drop_last(), page_size),
            ops.last(),
            page_size,
        );
    }
}

/// As long as no byte deallocation happens, the byte cursor only ever moves
/// up: nothing below it is handed out again.
pub proof fn lemma_run_byte_pos_monotone(m: RegionModel, ops: Seq<RegionOp>, page_size: int)
    requires
        region_wf(m),
        ops_enabled(m, ops, page_size),
        page_size >= 1,
        forall|i: int| 0 <= i < ops.len() ==> !(ops[i] is DeallocBytes),
    ensures
        region_run(m, ops, page_size).byte_pos >= m.byte_pos,
    decreases ops.len(),
{
    broadcast use vstd::arithmetic::div_mod::lemma_mod_bound;

    if ops.len() > 0 {
        lemma_run_byte_pos_monotone(m, ops.drop_last(), page_size);
        lemma_invariant_reachable(m, ops.drop_last(), page_size);
        assert(ops.last() == ops[ops.len() - 1]);
        match ops.last() {
            RegionOp::AllocBytes { size, align } => {
                lemma_pow2_pos(align);
            },
            _ => {},
        }
    }
}

/// Monotonic page growth: a successful page allocation of at least one page
/// strictly lowers the page cursor, and a page deallocation never changes
/// it.
pub proof fn lemma_pages_strictly_decrease(
    m: RegionModel,
    num: int,
    align: int,
    page_size: int,
)
    requires
        region_wf(m),
        is_pow2(align),
        page_size >= 1,
        num >= 1,
        spec_pages_fits(m, num, align, page_size),
    ensures
        spec_pages_step(m, num, align, page_size).page_pos < m.page_pos,
        region_step(m, RegionOp::DeallocPages, page_size).page_pos == m.page_pos,
{
    broadcast use vstd::arithmetic::div_mod::lemma_mod_bound;

    lemma_pow2_pos(align);
    assert(num * page_size >= page_size) by (nonlinear_arith)
        requires
            num >= 1,
            page_size >= 1,
    ;
}

/// No overlap, page block first: a page block carved at some point lies
/// entirely above every byte block allocated afterwards, whatever else
/// happens in between.
pub proof fn lemma_no_overlap_page_then_byte(
    m0: RegionModel,
    num: int,
    align_pages: int,
    ops: Seq<RegionOp>,
    size: int,
    align_bytes: int,
    page_size: int,
)
    requires
        region_wf(m0),
        page_size >= 1,
        is_pow2(align_pages),
        align_pages % page_size == 0,
        num >= 0,
        spec_pages_fits(m0, num, align_pages, page_size),
        ops_enabled(spec_pages_step(m0, num, align_pages, page_size), ops, page_size),
        is_pow2(align_bytes),
        size >= 0,
        spec_alloc_fits(
            region_run(spec_pages_step(m0, num, align_pages, page_size), ops, page_size),
            size,
            align_bytes,
        ),
    ensures
        ({
            let m2 = region_run(spec_pages_step(m0, num, align_pages, page_size), ops, page_size);
            spec_alloc_addr(m2, align_bytes) + size <= spec_pages_addr(
                m0,
                num,
                align_pages,
                page_size,
            )
        }),
{
    let m1 = spec_pages_step(m0, num, align_pages, page_size);
    lemma_step_preserves_wf(m0, RegionOp::AllocPages { num, align: align_pages }, page_size);
    lemma_run_page_pos_monotone(m1, ops, page_size);
}

/// No overlap, byte block first: a byte block stays below every page block
/// carved afterwards, as long as no byte deallocation invalidates it in
/// between.
pub proof fn lemma_no_overlap_byte_then_page(
    m0: RegionModel,
    size: int,
    align_bytes: int,
    ops: Seq<RegionOp>,
    num: int,
    align_pages: int,
    page_size: int,
)
    requires
        region_wf(m0),
        page_size >= 1,
        is_pow2(align_bytes),
        size >= 0,
        spec_alloc_fits(m0, size, align_bytes),
        ops_enabled(spec_alloc_step(m0, size, align_bytes), ops, page_size),
        forall|i: int| 0 <= i < ops.len() ==> !(ops[i] is DeallocBytes),
        is_pow2(align_pages),
        align_pages % page_size == 0,
        num >= 0,
        spec_pages_fits(
            region_run(spec_alloc_step(m0, size, align_bytes), ops, page_size),
            num,
            align_pages,
            page_size,
        ),
    ensures
        ({
            let m2 = region_run(spec_alloc_step(m0, size, align_bytes), ops, page_size);
            spec_alloc_addr(m0, align_bytes) + size <= spec_pages_addr(
                m2,
                num,
                align_pages,
                page_size,
            )
        }),
{
    let m1 = spec_alloc_step(m0, size, align_bytes);
    lemma_step_preserves_wf(m0, RegionOp::AllocBytes { size, align: align_bytes }, page_size);
    lemma_run_byte_pos_monotone(m1, ops, page_size);
}

/// `k` byte deallocations in a row.
pub open spec fn dealloc_seq(k: nat) -> Seq<RegionOp> {
    Seq::new(k, |i: int| RegionOp::DeallocBytes)
}

/// Every operation of the sequence is a byte allocation that succeeds in
/// the state it runs from.
pub open spec fn allocs_all_fit(m: RegionModel, ops: Seq<RegionOp>, page_size: int) -> bool
    decreases ops.len(),
{
    if ops.len() == 0 {
        true
    } else {
        allocs_all_fit(m, ops.drop_last(), page_size) && (ops.last() matches RegionOp::AllocBytes {
            size,
            align,
        } && spec_alloc_fits(region_run(m, ops.drop_last(), page_size), size, align))
    }
}

/// Running a concatenation is running the two halves in turn.
pub proof fn lemma_region_run_concat(
    m: RegionModel,
    a: Seq<RegionOp>,
    b: Seq<RegionOp>,
    page_size: int,
)
    ensures
        region_run(m, a + b, page_size) == region_run(region_run(m, a, page_size), b, page_size),
    decreases b.len(),
{
    if b.len() == 0 {
        assert(a + b =~= a);
    } else {
        assert((a + b).drop_last() =~= a + b.drop_last());
        lemma_region_run_concat(m, a, b.drop_last(), page_size);
    }
}

/// A run of successful byte allocations raises the live count by its
/// length and touches nothing on the page side.
pub proof fn lemma_allocs_raise_count(m: RegionModel, ops: Seq<RegionOp>, page_size: int)
    requires
        allocs_all_fit(m, ops, page_size),
    ensures
        region_run(m, ops, page_size).count == m.count + ops.len(),
        region_run(m, ops, page_size).start == m.start,
        region_run(m, ops, page_size).end == m.end,
        region_run(m, ops, page_size).page_pos == m.page_pos,
    decreases ops.len(),
{
    if ops.len() > 0 {
        lemma_allocs_raise_count(m, ops.drop_last(), page_size);
    }
}

/// Draining `k` of `count` outstanding byte allocations: the count drops by
/// `k`, and exactly when the last one goes, the byte cursor snaps back to
/// `start`.
pub proof fn lemma_deallocs_drain(m: RegionModel, k: nat, page_size: int)
    requires
        k <= m.count,
    ensures
        ({
            let mf = region_run(m, dealloc_seq(k), page_size);
            mf.count == m.count - k && mf.start == m.start && mf.end == m.end && mf.page_pos
                == m.page_pos && mf.byte_pos == (if k >= 1 && m.count == k {
                m.start
            } else {
                m.byte_pos
            })
        }),
        ops_enabled(m, dealloc_seq(k), page_size),
    decreases k,
{
    if k > 0 {
        assert(dealloc_seq(k).drop_last() =~= dealloc_seq((k - 1) as nat));
        lemma_deallocs_drain(m, (k - 1) as nat, page_size);
    }
}

/// The bulk reclamation law: from a state with no outstanding byte
/// allocation, any number of successful byte allocations followed by
/// exactly as many byte deallocations brings the byte cursor back to
/// `start`, so a subsequent byte allocation hands out addresses from
/// `start` again.
pub proof fn lemma_bulk_reclamation(m: RegionModel, ops: Seq<RegionOp>, page_size: int)
    requires
        region_wf(m),
        m.count == 0,
        ops.len() >= 1,
        allocs_all_fit(m, ops, page_size),
    ensures
        ({
            let mf = region_run(m, ops + dealloc_seq(ops.len()), page_size);
            mf.count == 0 && mf.byte_pos == m.start && forall|align: int|
                is_pow2(align) ==> #[trigger] spec_alloc_addr(mf, align) == spec_align_up(
                    m.start,
                    align,
                )
        }),
{
    let m1 = region_run(m, ops, page_size);
    lemma_region_run_concat(m, ops, dealloc_seq(ops.len()), page_size);
    lemma_allocs_raise_count(m, ops, page_size);
    lemma_deallocs_drain(m1, ops.len(), page_size);
}

} // verus!
