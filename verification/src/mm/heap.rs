//! The kernel heap: a fixed region behind the kernel image, managed by a first-fit
//! allocator that merges neighbouring free blocks.
use vstd::prelude::*;
use crate::mm::physmem::{word_at, PhysMem};
use crate::mm::pmm::{reserve_range, Frames, FramesView};
use crate::mm::vmm::{after_map, install_not_present_guard, ADDR_MASK};

verus! {

/// Size of the kernel heap, in bytes.
pub const HEAP_SIZE: u64 = 0x800_0000;

/// Lowest physical address at which the heap may start.
pub const HEAP_START_MIN_PHYS: u64 = 0x80_0000;

/// Size of a huge page; the heap starts on such a boundary.
pub const HUGE_PAGE_SIZE: u64 = 0x20_0000;

/// Offset of the direct map of physical memory.
pub const PHYS_OFF: u64 = 0xFFFF_8000_0000_0000;

/// Physical address at which the heap starts: the first huge-page boundary that
/// leaves at least a page behind the kernel image, and not below the lowest start.
pub open spec fn heap_phys_start(kernel_end_va: u64) -> int {
    let end = kernel_end_va.saturating_sub(PHYS_OFF) as int;
    let up = (end + 0x1000 + 0x1F_FFFF) / 0x20_0000 * 0x20_0000;
    if up >= HEAP_START_MIN_PHYS {
        up
    } else {
        HEAP_START_MIN_PHYS as int
    }
}

/// Virtual start, physical start and physical end of the heap of a kernel whose image
/// ends at the virtual address `kernel_end_va`.
pub fn compute_heap_layout(kernel_end_va: u64) -> (r: (u64, u64, u64))
    requires
        kernel_end_va + 0x20_0FFF <= u64::MAX,
    ensures
        r.0 == heap_phys_start(kernel_end_va) + PHYS_OFF,
        r.1 == heap_phys_start(kernel_end_va),
        r.2 == heap_phys_start(kernel_end_va) + HEAP_SIZE,
        r.1 % HUGE_PAGE_SIZE == 0,
        kernel_end_va >= PHYS_OFF ==> r.0 >= kernel_end_va + 0x1000,
{
    let kernel_end_phys: u64 = kernel_end_va.saturating_sub(PHYS_OFF);
    let candidate_phys: u64 = (kernel_end_phys + 0x1000 + (HUGE_PAGE_SIZE - 1)) / HUGE_PAGE_SIZE
        * HUGE_PAGE_SIZE;
    let phys_start: u64 = if candidate_phys >= HEAP_START_MIN_PHYS {
        candidate_phys
    } else {
        HEAP_START_MIN_PHYS
    };
    let phys_end: u64 = phys_start + HEAP_SIZE;
    let va_start: u64 = phys_start + PHYS_OFF;
    (va_start, phys_start, phys_end)
}

/// Physical addresses of the guard frames below and above the heap.
pub fn compute_guard_phys(kernel_end_va: u64) -> (r: (u64, u64))
    requires
        kernel_end_va + 0x20_0FFF <= u64::MAX,
    ensures
        r.0 == heap_phys_start(kernel_end_va) - 0x1000,
        r.1 == heap_phys_start(kernel_end_va) + HEAP_SIZE,
{
    let (_va, phys_start, phys_end) = compute_heap_layout(kernel_end_va);
    (phys_start.saturating_sub(0x1000), phys_end)
}

/// Alignment of every block.
pub const BLOCK_ALIGN: u64 = 8;

/// Size of the smallest block: room for its own header.
pub const MIN_BLOCK_SIZE: u64 = 16;

/// Number of blocks after which a walk gives up: more than the heap can hold.
pub const MAX_WALK_ITERS: u64 = 0x80_0010;

/// Word in front of an allocation that shows an underflow.
pub const CANARY_FRONT: u64 = 0xA5A5_5A5A_C0DE_F00D;

/// Word behind an allocation that shows an overflow.
pub const CANARY_REAR: u64 = 0x5A5A_A5A5_DEAD_BEEF;

/// `v` rounded up to a multiple of `a`.
#[verifier::opaque]
pub open spec fn round_up(v: int, a: int) -> int {
    (v + a - 1) / a * a
}

/// `value` rounded up to a multiple of `align`.
fn align_up(value: u64, align: u64) -> (r: u64)
    requires
        align > 0,
        value + align - 1 <= u64::MAX,
    ensures
        r == round_up(value as int, align as int),
        value <= r < value + align,
{
    let v: u64 = value + (align - 1);
    proof {
        reveal(round_up);
        let (x, y) = (v as int, align as int);
        vstd::arithmetic::div_mod::lemma_fundamental_div_mod(x, y);
        vstd::arithmetic::div_mod::lemma_mod_bound(x, y);
        vstd::arithmetic::mul::lemma_mul_is_commutative(x / y, y);
    }
    v / align * align
}

/// What is wrong with the heap.
#[derive(Clone, Copy, PartialEq, Eq, Structural, Debug)]
pub enum Corruption {
    /// A link to a block is not aligned.
    Unaligned,
    /// There is a link though the heap was not set up.
    NotSetUp,
    /// A link leads out of the heap.
    OutOfRange,
    /// The list of free blocks does not end.
    Endless,
    /// The word in front of an allocation was overwritten.
    FrontCanary,
    /// The word behind an allocation was overwritten.
    RearCanary,
}

/// What is wrong with the heap, and where: a reason to stop the machine.
#[derive(Clone, Copy, PartialEq, Eq, Structural, Debug)]
pub struct HeapCorrupt {
    pub reason: Corruption,
    pub block: u64,
    pub found: u64,
}

/// What is wrong with a link to a block, if anything.  The null link ends the list.
pub open spec fn link_fault(start: u64, p: u64) -> Option<Corruption> {
    if p == 0 {
        None
    } else if p % 8 != 0 {
        Some(Corruption::Unaligned)
    } else if start == 0 {
        Some(Corruption::NotSetUp)
    } else if p < start || p > start + HEAP_SIZE - MIN_BLOCK_SIZE {
        Some(Corruption::OutOfRange)
    } else {
        None
    }
}

/// Checks a link to a block of the heap that starts at `start`.
pub fn validate_block_ptr(start: u64, p: u64) -> (r: Result<(), Corruption>)
    requires
        start + HEAP_SIZE <= u64::MAX,
    ensures
        r matches Err(e) ==> link_fault(start, p) == Some(e),
        r is Ok ==> link_fault(start, p) is None,
{
    if p == 0 {
        return Ok(());
    }
    if p % BLOCK_ALIGN != 0 {
        return Err(Corruption::Unaligned);
    }
    if start == 0 {
        return Err(Corruption::NotSetUp);
    }
    let end: u64 = start + HEAP_SIZE;
    if p < start || p > end - MIN_BLOCK_SIZE {
        return Err(Corruption::OutOfRange);
    }
    Ok(())
}

/// The word at the virtual address `va` of the direct map.
#[verifier::opaque]
pub open spec fn at(mem: Seq<u64>, va: int) -> u64 {
    word_at(mem, (va - PHYS_OFF) / 8)
}

/// Memory with the word at the virtual address `va` of the direct map replaced.  Outside
/// of installed memory nothing changes.
#[verifier::opaque]
pub open spec fn put(mem: Seq<u64>, va: int, v: u64) -> Seq<u64> {
    let k = (va - PHYS_OFF) / 8;
    if 0 <= k < mem.len() {
        mem.update(k, v)
    } else {
        mem
    }
}

fn read_word(mem: &PhysMem, va: u64) -> (v: u64)
    ensures
        v == at(mem@, va as int),
{
    proof {
        reveal(at);
    }
    if va < PHYS_OFF {
        return 0;
    }
    let k: u64 = (va - PHYS_OFF) / 8;
    if k < mem.words.len() as u64 {
        mem.words[k as usize]
    } else {
        0
    }
}

fn write_word(mem: &mut PhysMem, va: u64, v: u64)
    ensures
        final(mem)@ == put(old(mem)@, va as int, v),
{
    proof {
        reveal(put);
    }
    if va < PHYS_OFF {
        return;
    }
    let k: u64 = (va - PHYS_OFF) / 8;
    if k < mem.words.len() as u64 {
        mem.words.set(k as usize, v);
    }
}

/// The allocator of the heap.
#[derive(Clone, Copy, PartialEq, Eq, Structural, Debug)]
pub struct LinkedListAllocator {
    /// First free block; zero where there is none.
    pub head: u64,
    pub initialized: bool,
    /// Bytes that the allocator manages.
    pub total_bytes: u64,
    /// Bytes that are handed out, with what goes with them.
    pub allocated_bytes: u64,
    /// Whether allocations carry guard words.
    pub canary: bool,
    /// Where the heap starts; zero before it is set up.
    pub start: u64,
}

impl LinkedListAllocator {
    /// Bytes in front of every allocation.
    pub open spec fn header(self) -> int {
        if self.canary {
            32
        } else {
            16
        }
    }

    /// Bytes behind every allocation.
    pub open spec fn tail(self) -> int {
        if self.canary {
            8
        } else {
            0
        }
    }

    /// Where the data of an allocation from the block at `block` starts.
    pub open spec fn data_start(self, block: int, align: int) -> int {
        round_up(block + self.header(), align)
    }

    /// Bytes that an allocation takes from the block at `block`.
    pub open spec fn needed(self, block: int, size: int, align: int) -> int {
        round_up(self.data_start(block, align) + size + self.tail() - block, 8)
    }

    /// The heap lies at the end of the address space at worst, and every sum that an
    /// allocation of `size` bytes needs fits.
    pub open spec fn fits(self, size: int, align: int) -> bool {
        self.start + HEAP_SIZE + size + align + 64 <= u64::MAX
    }
}

/// Where a search through the free blocks ends.
pub enum Search {
    /// At a fault in the list.
    Fault(HeapCorrupt),
    /// At a block that will do, with the block before it.
    Found { prev: u64, block: u64 },
    /// At the end of the list.
    Nothing,
}

/// Alignment that an allocation gets: at least that of a block.
pub open spec fn eff_align(align: int) -> int {
    if align > 8 {
        align
    } else {
        8
    }
}

/// The first block, from `cur` on, that is big enough for `size` bytes.
pub open spec fn search(
    a: LinkedListAllocator,
    mem: Seq<u64>,
    prev: u64,
    cur: u64,
    iters: int,
    size: int,
    align: int,
) -> Search
    decreases MAX_WALK_ITERS - iters,
{
    if cur == 0 {
        Search::Nothing
    } else if iters >= MAX_WALK_ITERS {
        Search::Fault(HeapCorrupt { reason: Corruption::Endless, block: cur, found: cur })
    } else {
        let next = at(mem, cur + 8);
        match link_fault(a.start, next) {
            Some(reason) => Search::Fault(HeapCorrupt { reason, block: cur, found: next }),
            None => if at(mem, cur as int) >= a.needed(cur as int, size, align) {
                Search::Found { prev, block: cur }
            } else {
                search(a, mem, cur, next, iters + 1, size, align)
            },
        }
    }
}

/// Memory with the guard words of an allocation of `size` bytes at `data` in place.
pub open spec fn with_canaries(a: LinkedListAllocator, mem: Seq<u64>, data: int, size: u64) -> Seq<
    u64,
> {
    if a.canary {
        put_bytes(put(put(mem, data - 8, CANARY_FRONT), data - 16, size), data + size, CANARY_REAR)
    } else {
        mem
    }
}

/// 256 to the power of `k`.
pub open spec fn bytes_unit(k: int) -> int {
    if k <= 0 {
        1
    } else if k == 1 {
        0x100
    } else if k == 2 {
        0x1_0000
    } else if k == 3 {
        0x100_0000
    } else if k == 4 {
        0x1_0000_0000
    } else if k == 5 {
        0x100_0000_0000
    } else if k == 6 {
        0x1_0000_0000_0000
    } else {
        0x100_0000_0000_0000
    }
}

/// The eight bytes from the address `va` on, as a word.
pub open spec fn get_bytes(mem: Seq<u64>, va: int) -> u64 {
    let k = va % 8;
    if k == 0 {
        at(mem, va)
    } else {
        (at(mem, va) as int / bytes_unit(k) + at(mem, va + 8) as int % bytes_unit(k) * bytes_unit(
            8 - k,
        )) as u64
    }
}

/// Memory with the eight bytes from the address `va` on replaced by those of `v`.
pub open spec fn put_bytes(mem: Seq<u64>, va: int, v: u64) -> Seq<u64> {
    let k = va % 8;
    if k == 0 {
        put(mem, va, v)
    } else {
        let lo = at(mem, va) as int % bytes_unit(k) + v as int % bytes_unit(8 - k) * bytes_unit(k);
        let hi = at(mem, va + 8) as int / bytes_unit(k) * bytes_unit(k) + v as int / bytes_unit(
            8 - k,
        );
        put(put(mem, va, lo as u64), va + 8, hi as u64)
    }
}

fn unit(k: u64) -> (r: u64)
    ensures
        r == bytes_unit(k as int),
        r > 0,
{
    if k == 0 {
        1
    } else if k == 1 {
        0x100
    } else if k == 2 {
        0x1_0000
    } else if k == 3 {
        0x100_0000
    } else if k == 4 {
        0x1_0000_0000
    } else if k == 5 {
        0x100_0000_0000
    } else if k == 6 {
        0x1_0000_0000_0000
    } else {
        0x100_0000_0000_0000
    }
}

/// A number below `p * q`, cut at `p`: the upper part lies below `q`.
proof fn lemma_upper_part(w: int, p: int, q: int)
    requires
        0 <= w < p * q,
        p > 0,
        q > 0,
    ensures
        0 <= w / p <= q - 1,
        0 <= w / p * p <= p * q - p,
{
    assert(0 <= w / p < q) by (nonlinear_arith)
        requires
            0 <= w < p * q,
            p > 0,
    ;
    assert(0 <= w / p * p <= p * q - p) by (nonlinear_arith)
        requires
            0 <= w / p <= q - 1,
            p > 0,
    ;
}

/// The lower part of a number that is cut at `p`, moved up by `q`, stays below `p * q`.
proof fn lemma_lower_part(w: int, p: int, q: int)
    requires
        p > 0,
        q > 0,
    ensures
        0 <= w % p <= p - 1,
        0 <= w % p * q <= p * q - q,
{
    assert(0 <= w % p * q <= p * q - q) by (nonlinear_arith)
        requires
            0 <= w % p <= p - 1,
            q > 0,
    ;
}

/// Joining two parts of a word and taking it apart again stays within 64 bits.
proof fn lemma_parts(w0: u64, w1: u64, v: u64, k: int)
    requires
        0 < k < 8,
    ensures
        0 <= w0 as int / bytes_unit(k) + w1 as int % bytes_unit(k) * bytes_unit(8 - k) <= u64::MAX,
        0 <= w0 as int % bytes_unit(k) + v as int % bytes_unit(8 - k) * bytes_unit(k) <= u64::MAX,
        0 <= w1 as int / bytes_unit(k) * bytes_unit(k) + v as int / bytes_unit(8 - k) <= u64::MAX,
        0 <= w1 as int % bytes_unit(k) * bytes_unit(8 - k) <= u64::MAX,
        0 <= v as int % bytes_unit(8 - k) * bytes_unit(k) <= u64::MAX,
        0 <= w1 as int / bytes_unit(k) * bytes_unit(k) <= u64::MAX,
{
    let p = bytes_unit(k);
    let q = bytes_unit(8 - k);
    assert(p > 0 && q > 0 && p * q == 0x1_0000_0000_0000_0000 && q * p == p * q) by {
        if k == 1 {
        } else if k == 2 {
        } else if k == 3 {
        } else if k == 4 {
        } else if k == 5 {
        } else if k == 6 {
        } else {
            assert(k == 7);
        }
    }
    lemma_upper_part(w0 as int, p, q);
    lemma_upper_part(w1 as int, p, q);
    lemma_upper_part(v as int, q, p);
    lemma_lower_part(w0 as int, p, q);
    lemma_lower_part(w1 as int, p, q);
    lemma_lower_part(v as int, q, p);
}

/// The word that follows the one at the virtual address `va`.
fn read_word_after(mem: &PhysMem, va: u64) -> (v: u64)
    ensures
        v == at(mem@, va + 8),
{
    proof {
        reveal(at);
    }
    if va <= u64::MAX - 8 {
        return read_word(mem, va + 8);
    }
    let k: u64 = (va - PHYS_OFF) / 8 + 1;
    if k < mem.words.len() as u64 {
        mem.words[k as usize]
    } else {
        0
    }
}

fn read_bytes(mem: &PhysMem, va: u64) -> (v: u64)
    ensures
        v == get_bytes(mem@, va as int),
{
    let k: u64 = va % 8;
    if k == 0 {
        return read_word(mem, va);
    }
    let w0: u64 = read_word(mem, va);
    let w1: u64 = read_word_after(mem, va);
    proof {
        lemma_parts(w0, w1, 0, k as int);
        assert(w1 as int % bytes_unit(k as int) * bytes_unit(8 - k as int) <= u64::MAX);
    }
    let low: u64 = w0 / unit(k);
    let high: u64 = (w1 % unit(k)) * unit(8 - k);
    low + high
}

fn write_bytes(mem: &mut PhysMem, va: u64, v: u64)
    requires
        va <= u64::MAX - 8,
    ensures
        final(mem)@ == put_bytes(old(mem)@, va as int, v),
{
    let k: u64 = va % 8;
    if k == 0 {
        write_word(mem, va, v);
        return;
    }
    let w0: u64 = read_word(mem, va);
    let w1: u64 = read_word(mem, va + 8);
    proof {
        lemma_parts(w0, w1, v, k as int);
    }
    let lo: u64 = w0 % unit(k) + (v % unit(8 - k)) * unit(k);
    let hi: u64 = w1 / unit(k) * unit(k) + v / unit(8 - k);
    write_word(mem, va, lo);
    write_word(mem, va + 8, hi);
}

/// The search for a block of `size` bytes, from the head of the list on.
pub open spec fn search_all(a: LinkedListAllocator, mem: Seq<u64>, size: int, align: int) -> Search {
    match link_fault(a.start, a.head) {
        Some(reason) => Search::Fault(HeapCorrupt { reason, block: a.head, found: a.head }),
        None => search(a, mem, 0, a.head, 0, size, align),
    }
}

/// Whether what is left of a block of `bsize` bytes, when `total` bytes go, becomes a
/// free block of its own.
pub open spec fn splits(bsize: int, total: int) -> bool {
    bsize - total >= MIN_BLOCK_SIZE + 16
}

/// Bytes that leave the list when `total` bytes of a block of `bsize` bytes are used.
pub open spec fn taken(bsize: int, total: int) -> int {
    if splits(bsize, total) {
        total
    } else {
        bsize
    }
}

/// Memory with the link of the block `prev` set to `link`; the head of the list is not
/// in memory.
pub open spec fn linked(mem: Seq<u64>, prev: u64, link: u64) -> Seq<u64> {
    if prev == 0 {
        mem
    } else {
        put(mem, prev + 8, link)
    }
}

/// The allocator and memory after `size` bytes were cut from the free block `block`,
/// which follows `prev`.
pub open spec fn after_cut(
    a: LinkedListAllocator,
    mem: Seq<u64>,
    prev: u64,
    block: u64,
    size: u64,
    align: int,
) -> (LinkedListAllocator, Seq<u64>) {
    let bsize = at(mem, block as int) as int;
    let next = at(mem, block + 8);
    let data = a.data_start(block as int, align);
    let total = a.needed(block as int, size as int, align);
    let rest = (block + total) as u64;
    let link = if splits(bsize, total) {
        rest
    } else {
        next
    };
    let cut = if splits(bsize, total) {
        put(put(mem, rest as int, (bsize - total) as u64), rest + 8, next)
    } else {
        mem
    };
    let joined = linked(cut, prev, link);
    let headed = put(
        put(joined, data - a.header(), block),
        data - a.header() + 8,
        taken(bsize, total) as u64,
    );
    (
        LinkedListAllocator {
            head: if prev == 0 {
                link
            } else {
                a.head
            },
            allocated_bytes: a.allocated_bytes.wrapping_add(taken(bsize, total) as u64),
            ..a
        },
        with_canaries(a, headed, data, size),
    )
}

/// Where a walk to the place of a block at `addr` ends.
pub enum Gap {
    /// At a fault in the list.
    Fault(HeapCorrupt),
    /// Between two blocks; zero stands for none.
    Between { prev: u64, next: u64 },
}

/// The place of a block at `addr` in the list, from `cur` on.
pub open spec fn find_gap(
    a: LinkedListAllocator,
    mem: Seq<u64>,
    prev: u64,
    cur: u64,
    iters: int,
    addr: u64,
) -> Gap
    decreases MAX_WALK_ITERS - iters,
{
    if cur == 0 || cur >= addr {
        Gap::Between { prev, next: cur }
    } else if iters >= MAX_WALK_ITERS {
        Gap::Fault(HeapCorrupt { reason: Corruption::Endless, block: cur, found: cur })
    } else {
        let next = at(mem, cur + 8);
        match link_fault(a.start, next) {
            Some(reason) => Gap::Fault(HeapCorrupt { reason, block: cur, found: next }),
            None => find_gap(a, mem, cur, next, iters + 1, addr),
        }
    }
}

/// The place of a block at `addr` in the list.
pub open spec fn find_place(a: LinkedListAllocator, mem: Seq<u64>, addr: u64) -> Gap {
    match link_fault(a.start, a.head) {
        Some(reason) => Gap::Fault(HeapCorrupt { reason, block: addr, found: a.head }),
        None => find_gap(a, mem, 0, a.head, 0, addr),
    }
}

/// The allocator and memory after a free block was put between two others and joined to
/// those that it touches.
pub open spec fn after_join(
    a: LinkedListAllocator,
    mem: Seq<u64>,
    prev: u64,
    next: u64,
    addr: u64,
    size: u64,
) -> (LinkedListAllocator, Seq<u64>) {
    let placed = linked(put(put(mem, addr as int, size), addr + 8, next), prev, addr);
    let merged = if next != 0 && addr.wrapping_add(size) == next {
        put(
            put(placed, addr as int, size.wrapping_add(at(placed, next as int))),
            addr + 8,
            at(placed, next + 8),
        )
    } else {
        placed
    };
    let touches = prev != 0 && prev.wrapping_add(at(merged, prev as int)) == addr;
    (
        LinkedListAllocator {
            head: if prev == 0 {
                addr
            } else {
                a.head
            },
            ..a
        },
        if touches {
            put(
                put(
                    merged,
                    prev as int,
                    at(merged, prev as int).wrapping_add(at(merged, addr as int)),
                ),
                prev + 8,
                at(merged, addr + 8),
            )
        } else {
            merged
        },
    )
}

/// What is wrong with the guard words of the allocation at `ptr`, if anything.
pub open spec fn canary_fault(a: LinkedListAllocator, mem: Seq<u64>, ptr: u64) -> Option<
    HeapCorrupt,
> {
    let block = at(mem, ptr - a.header());
    let front = at(mem, ptr - 8);
    let size = at(mem, ptr - 16);
    let rear = get_bytes(mem, ptr.wrapping_add(size) as int);
    if !a.canary {
        None
    } else if front != CANARY_FRONT {
        Some(HeapCorrupt { reason: Corruption::FrontCanary, block, found: front })
    } else if rear != CANARY_REAR {
        Some(HeapCorrupt { reason: Corruption::RearCanary, block, found: rear })
    } else {
        None
    }
}

impl LinkedListAllocator {
    /// An allocator that manages nothing.
    pub fn new(canary: bool) -> (r: LinkedListAllocator)
        ensures
            r == (LinkedListAllocator {
                head: 0,
                initialized: false,
                total_bytes: 0,
                allocated_bytes: 0,
                canary,
                start: 0,
            }),
    {
        LinkedListAllocator {
            head: 0,
            initialized: false,
            total_bytes: 0,
            allocated_bytes: 0,
            canary,
            start: 0,
        }
    }

    /// Makes `heap_size` bytes from `heap_start` on one free block.
    pub fn init(&mut self, mem: &mut PhysMem, heap_start: u64, heap_size: u64)
        requires
            heap_start <= u64::MAX - 8,
        ensures
            *final(self) == (LinkedListAllocator {
                head: heap_start,
                initialized: true,
                total_bytes: heap_size,
                allocated_bytes: 0,
                ..*old(self)
            }),
            final(mem)@ == put(put(old(mem)@, heap_start as int, heap_size), heap_start + 8, 0),
    {
        write_word(mem, heap_start, heap_size);
        write_word(mem, heap_start + 8, 0);
        self.head = heap_start;
        self.total_bytes = heap_size;
        self.allocated_bytes = 0;
        self.initialized = true;
    }

    /// Puts the guard words of an allocation in place.
    fn write_alloc_canaries(&self, mem: &mut PhysMem, data: u64, user_size: u64)
        requires
            self.canary ==> data >= 32,
            data + user_size <= u64::MAX - 8,
        ensures
            final(mem)@ == with_canaries(*self, old(mem)@, data as int, user_size),
    {
        if self.canary {
            write_word(mem, data - 8, CANARY_FRONT);
            write_word(mem, data - 16, user_size);
            write_bytes(mem, data + user_size, CANARY_REAR);
        }
    }

    /// Checks the guard words of the allocation at `ptr`.
    fn check_alloc_canaries(&self, mem: &PhysMem, ptr: u64) -> (r: Result<(), HeapCorrupt>)
        requires
            ptr >= self.header(),
        ensures
            r matches Err(e) ==> canary_fault(*self, mem@, ptr) == Some(e),
            r is Ok ==> canary_fault(*self, mem@, ptr) is None,
    {
        if self.canary {
            let block: u64 = read_word(mem, ptr - 32);
            let front: u64 = read_word(mem, ptr - 8);
            let user_size: u64 = read_word(mem, ptr - 16);
            if front != CANARY_FRONT {
                return Err(
                    HeapCorrupt { reason: Corruption::FrontCanary, block, found: front },
                );
            }
            let rear: u64 = read_bytes(mem, ptr.wrapping_add(user_size));
            if rear != CANARY_REAR {
                return Err(HeapCorrupt { reason: Corruption::RearCanary, block, found: rear });
            }
        }
        Ok(())
    }

    /// Allocates `size` bytes at a multiple of `align` from the first free block that is
    /// big enough, and returns where they are; zero where no block is, and before the
    /// heap was set up.  A fault in the list is reported and changes nothing.
    pub fn allocate(&mut self, mem: &mut PhysMem, size: u64, align: u64) -> (r: Result<
        u64,
        HeapCorrupt,
    >)
        requires
            align > 0,
            old(self).fits(size as int, eff_align(align as int)),
        ensures
            !old(self).initialized ==> {
                &&& r matches Ok(p)
                &&& p == 0
                &&& *final(self) == *old(self)
                &&& final(mem)@ == old(mem)@
            },
            old(self).initialized ==> match search_all(
                *old(self),
                old(mem)@,
                size as int,
                eff_align(align as int),
            ) {
                Search::Fault(e) => {
                    &&& r matches Err(x)
                    &&& x == e
                    &&& *final(self) == *old(self)
                    &&& final(mem)@ == old(mem)@
                },
                Search::Nothing => {
                    &&& r matches Ok(p)
                    &&& p == 0
                    &&& *final(self) == *old(self)
                    &&& final(mem)@ == old(mem)@
                },
                Search::Found { prev, block } => {
                    &&& r matches Ok(p)
                    &&& p == old(self).data_start(block as int, eff_align(align as int))
                    &&& (*final(self), final(mem)@) == after_cut(
                        *old(self),
                        old(mem)@,
                        prev,
                        block,
                        size,
                        eff_align(align as int),
                    )
                },
            },
    {
        if !self.initialized {
            return Ok(0);
        }
        let al: u64 = if align > 8 {
            align
        } else {
            8
        };
        if let Err(reason) = validate_block_ptr(self.start, self.head) {
            return Err(HeapCorrupt { reason, block: self.head, found: self.head });
        }
        let hdr: u64 = if self.canary {
            32
        } else {
            16
        };
        let tail: u64 = if self.canary {
            8
        } else {
            0
        };
        let mut prev: u64 = 0;
        let mut current: u64 = self.head;
        let mut iters: u64 = 0;
        while current != 0
            invariant
                *self == *old(self),
                mem@ == old(mem)@,
                al == eff_align(align as int),
                hdr == self.header(),
                tail == self.tail(),
                self.fits(size as int, al as int),
                iters <= MAX_WALK_ITERS,
                link_fault(self.start, current) is None,
                link_fault(self.start, prev) is None,
                prev != 0 ==> prev <= self.start + HEAP_SIZE,
                search_all(*self, mem@, size as int, al as int) == search(
                    *self,
                    mem@,
                    prev,
                    current,
                    iters as int,
                    size as int,
                    al as int,
                ),
                self.initialized,
            decreases MAX_WALK_ITERS - iters,
        {
            if iters >= MAX_WALK_ITERS {
                return Err(
                    HeapCorrupt { reason: Corruption::Endless, block: current, found: current },
                );
            }
            let block_size: u64 = read_word(mem, current);
            let next: u64 = read_word(mem, current + 8);
            if let Err(reason) = validate_block_ptr(self.start, next) {
                return Err(HeapCorrupt { reason, block: current, found: next });
            }
            let data: u64 = align_up(current + hdr, al);
            let raw: u64 = (data + size + tail) - current;
            let total: u64 = align_up(raw, BLOCK_ALIGN);
            if block_size >= total {
                let rest: u64 = block_size - total;
                let link: u64;
                let used: u64;
                if rest >= MIN_BLOCK_SIZE + 16 {
                    link = current + total;
                    used = total;
                    write_word(mem, link, rest);
                    write_word(mem, link + 8, next);
                } else {
                    link = next;
                    used = block_size;
                }
                if prev == 0 {
                    self.head = link;
                } else {
                    write_word(mem, prev + 8, link);
                }
                self.allocated_bytes = self.allocated_bytes.wrapping_add(used);
                write_word(mem, data - hdr, current);
                write_word(mem, data - hdr + 8, used);
                self.write_alloc_canaries(mem, data, size);
                return Ok(data);
            }
            prev = current;
            current = next;
            iters = iters + 1;
        }
        Ok(0)
    }
}

impl LinkedListAllocator {
    /// Puts a block into the list of free blocks, in order of addresses, and joins it to
    /// the blocks that it touches.
    pub fn insert_free_block(&mut self, mem: &mut PhysMem, addr: u64, size: u64) -> (r: Result<
        (),
        HeapCorrupt,
    >)
        requires
            old(self).start + HEAP_SIZE <= u64::MAX,
            addr <= u64::MAX - 8,
        ensures
            match find_place(*old(self), old(mem)@, addr) {
                Gap::Fault(e) => {
                    &&& r matches Err(x)
                    &&& x == e
                    &&& *final(self) == *old(self)
                    &&& final(mem)@ == old(mem)@
                },
                Gap::Between { prev, next } => {
                    &&& r is Ok
                    &&& (*final(self), final(mem)@) == after_join(
                        *old(self),
                        old(mem)@,
                        prev,
                        next,
                        addr,
                        size,
                    )
                },
            },
    {
        if let Err(reason) = validate_block_ptr(self.start, self.head) {
            return Err(HeapCorrupt { reason, block: addr, found: self.head });
        }
        let mut prev: u64 = 0;
        let mut current: u64 = self.head;
        let mut iters: u64 = 0;
        while current != 0 && current < addr
            invariant
                *self == *old(self),
                mem@ == old(mem)@,
                self.start + HEAP_SIZE <= u64::MAX,
                iters <= MAX_WALK_ITERS,
                link_fault(self.start, current) is None,
                link_fault(self.start, prev) is None,
                find_place(*self, mem@, addr) == find_gap(
                    *self,
                    mem@,
                    prev,
                    current,
                    iters as int,
                    addr,
                ),
            decreases MAX_WALK_ITERS - iters,
        {
            if iters >= MAX_WALK_ITERS {
                return Err(
                    HeapCorrupt { reason: Corruption::Endless, block: current, found: current },
                );
            }
            let next: u64 = read_word(mem, current + 8);
            if let Err(reason) = validate_block_ptr(self.start, next) {
                return Err(HeapCorrupt { reason, block: current, found: next });
            }
            prev = current;
            current = next;
            iters = iters + 1;
        }
        write_word(mem, addr, size);
        write_word(mem, addr + 8, current);
        if prev == 0 {
            self.head = addr;
        } else {
            write_word(mem, prev + 8, addr);
        }
        if current != 0 && addr.wrapping_add(size) == current {
            let more: u64 = read_word(mem, current);
            let beyond: u64 = read_word(mem, current + 8);
            write_word(mem, addr, size.wrapping_add(more));
            write_word(mem, addr + 8, beyond);
        }
        if prev != 0 {
            let prev_size: u64 = read_word(mem, prev);
            if prev.wrapping_add(prev_size) == addr {
                let more: u64 = read_word(mem, addr);
                let beyond: u64 = read_word(mem, addr + 8);
                write_word(mem, prev, prev_size.wrapping_add(more));
                write_word(mem, prev + 8, beyond);
            }
        }
        Ok(())
    }

    /// Gives the allocation at `ptr` back.  The null pointer is ignored.  A fault in the
    /// guard words, in the header or in the list is reported.
    pub fn dealloc(&mut self, mem: &mut PhysMem, ptr: u64) -> (r: Result<(), HeapCorrupt>)
        requires
            old(self).start + HEAP_SIZE <= u64::MAX,
            ptr == 0 || !old(self).initialized || ptr >= old(self).header(),
        ensures
            ({
                let a = *old(self);
                let m = old(mem)@;
                let block = at(m, ptr - a.header());
                let size = at(m, ptr - a.header() + 8);
                let counted = LinkedListAllocator {
                    allocated_bytes: a.allocated_bytes.saturating_sub(size),
                    ..a
                };
                let unchanged = *final(self) == a && final(mem)@ == m;
                if ptr == 0 || !a.initialized {
                    r is Ok && unchanged
                } else if canary_fault(a, m, ptr) is Some {
                    r == Err::<(), HeapCorrupt>(canary_fault(a, m, ptr)->0) && unchanged
                } else if link_fault(a.start, block) is Some {
                    &&& r == Err::<(), HeapCorrupt>(
                        HeapCorrupt {
                            reason: link_fault(a.start, block)->0,
                            block,
                            found: block,
                        },
                    )
                    &&& unchanged
                } else {
                    match find_place(counted, m, block) {
                        Gap::Fault(e) => {
                            &&& r == Err::<(), HeapCorrupt>(e)
                            &&& *final(self) == counted
                            &&& final(mem)@ == m
                        },
                        Gap::Between { prev, next } => {
                            &&& r is Ok
                            &&& (*final(self), final(mem)@) == after_join(
                                counted,
                                m,
                                prev,
                                next,
                                block,
                                size,
                            )
                        },
                    }
                }
            }),
    {
        if ptr == 0 || !self.initialized {
            return Ok(());
        }
        let hdr: u64 = if self.canary {
            32
        } else {
            16
        };
        let block: u64 = read_word(mem, ptr - hdr);
        let size: u64 = read_word(mem, ptr - hdr + 8);
        if let Err(e) = self.check_alloc_canaries(mem, ptr) {
            return Err(e);
        }
        if let Err(reason) = validate_block_ptr(self.start, block) {
            return Err(HeapCorrupt { reason, block, found: block });
        }
        self.allocated_bytes = self.allocated_bytes.saturating_sub(size);
        self.insert_free_block(mem, block, size)
    }
}

/// Where the heap starts; zero before [`init`].
pub fn heap_start(heap: &LinkedListAllocator) -> (r: u64)
    ensures
        r == heap.start,
{
    heap.start
}

/// The guard page below the heap; zero before [`init`].
pub fn heap_guard_below_va(heap: &LinkedListAllocator) -> (r: u64)
    requires
        heap.start == 0 || heap.start >= 0x1000,
    ensures
        r == (if heap.start == 0 { 0 } else { heap.start - 0x1000 }),
        heap.start > 0 ==> r + 4096 == heap.start,
{
    if heap.start == 0 {
        0
    } else {
        heap.start - 0x1000
    }
}

/// The guard page above the heap; zero before [`init`].
pub fn heap_guard_above_va(heap: &LinkedListAllocator) -> (r: u64)
    requires
        heap.start + HEAP_SIZE <= u64::MAX,
    ensures
        r == (if heap.start == 0 { 0 } else { heap.start + HEAP_SIZE }),
        heap.start > 0 ==> r == heap.start + 0x800_0000,
{
    if heap.start == 0 {
        0
    } else {
        heap.start + HEAP_SIZE
    }
}

/// Bytes managed, handed out and left.
pub fn stats(heap: &LinkedListAllocator) -> (r: (u64, u64, u64))
    ensures
        r.0 == heap.total_bytes,
        r.1 == heap.allocated_bytes,
        r.2 == heap.total_bytes.saturating_sub(heap.allocated_bytes),
        heap.allocated_bytes <= heap.total_bytes ==> r.1 + r.2 == r.0,
{
    (
        heap.total_bytes,
        heap.allocated_bytes,
        heap.total_bytes.saturating_sub(heap.allocated_bytes),
    )
}

/// Sets the heap up behind a kernel whose image ends at `kernel_end_va`.  The heap has to
/// end in the first gigabyte.
pub fn init(heap: &mut LinkedListAllocator, mem: &mut PhysMem, kernel_end_va: u64)
    requires
        kernel_end_va + 0x20_0FFF <= u64::MAX,
        heap_phys_start(kernel_end_va) + HEAP_SIZE <= 0x4000_0000,
    ensures
        ({
            let va = heap_phys_start(kernel_end_va) + PHYS_OFF;
            &&& *final(heap) == (LinkedListAllocator {
                head: va as u64,
                initialized: true,
                total_bytes: HEAP_SIZE,
                allocated_bytes: 0,
                start: va as u64,
                ..*old(heap)
            })
            &&& final(mem)@ == with_new_heap(old(mem)@, kernel_end_va)
        }),
{
    let (va_start, _phys_start, _phys_end) = compute_heap_layout(kernel_end_va);
    heap.start = va_start;
    heap.init(mem, va_start, HEAP_SIZE);
}

/// Memory after the heap was made one free block.
pub open spec fn with_new_heap(mem: Seq<u64>, kernel_end_va: u64) -> Seq<u64> {
    let va = heap_phys_start(kernel_end_va) + PHYS_OFF;
    put(put(mem, va, HEAP_SIZE), va + 8, 0)
}

/// The frames after the two guard frames of a heap that starts at `start` were reserved.
pub open spec fn with_guards_reserved(frames: FramesView, start: u64) -> FramesView {
    let below = start - 0x1000 - PHYS_OFF;
    let above = start + HEAP_SIZE - PHYS_OFF;
    FramesView {
        pmm: frames.pmm.after_reserve(below / 4096, (below + 0x1000 + 4095) / 4096).after_reserve(
            above / 4096,
            (above + 0x1000 + 4095) / 4096,
        ),
        ..frames
    }
}

/// Whether the guards below and above a heap that starts at `start` could be put in
/// place, and memory and the frames afterwards.
pub open spec fn after_guards(
    mem: Seq<u64>,
    frames: FramesView,
    start: u64,
    root: u64,
    now: u64,
) -> (bool, bool, Seq<u64>, FramesView) {
    let reserved = with_guards_reserved(frames, start);
    let (ok1, m1, f1) = after_map(mem, reserved, root, (start - 0x1000) as u64, 0, 0, now);
    let (ok2, m2, f2) = after_map(m1, f1, root, (start + HEAP_SIZE) as u64, 0, 0, now);
    (ok1, ok2, m2, f2)
}

/// Makes the pages below and above the heap fault.  Their frames are reserved first, so
/// that nobody reaches them another way.  Says for which of the two there were tables,
/// or frames to make them; the caller drops the cached translations of those.
pub fn init_guard_pages(
    heap: &LinkedListAllocator,
    mem: &mut PhysMem,
    f: &mut Frames,
    cr3: u64,
    now: u64,
) -> (r: (bool, bool))
    requires
        old(f).wf(),
        heap.start >= PHYS_OFF + 0x1000,
        heap.start + HEAP_SIZE <= u64::MAX,
    ensures
        final(f).wf(),
        (r.0, r.1, final(mem)@, final(f)@) == after_guards(
            old(mem)@,
            old(f)@,
            heap.start,
            cr3 & ADDR_MASK,
            now,
        ),
{
    let below_va: u64 = heap_guard_below_va(heap);
    let above_va: u64 = heap_guard_above_va(heap);
    let below_phys: u64 = below_va.saturating_sub(PHYS_OFF);
    let above_phys: u64 = above_va.saturating_sub(PHYS_OFF);
    reserve_range(&mut f.pmm, below_phys, below_phys + 0x1000);
    reserve_range(&mut f.pmm, above_phys, above_phys + 0x1000);
    let ok1: bool = install_not_present_guard(mem, f, cr3, below_va, now);
    let ok2: bool = install_not_present_guard(mem, f, cr3, above_va, now);
    (ok1, ok2)
}

} // verus!
