//! What the heap guarantees while its list of free blocks is sound.
//!
//! Blocks are counted in words of eight bytes here, from the start of physical memory on.
use vstd::arithmetic::div_mod::{
    lemma_fundamental_div_mod, lemma_fundamental_div_mod_converse, lemma_mod_bound,
};
use vstd::prelude::*;
use crate::mm::heap::{
    after_cut, after_join, at, bytes_unit, canary_fault, find_gap, find_place, get_bytes,
    link_fault, linked, put, put_bytes, round_up, search, search_all, splits, taken,
    with_canaries, Gap, LinkedListAllocator, Search, CANARY_FRONT, CANARY_REAR, HEAP_SIZE,
    PHYS_OFF,
};
use crate::mm::physmem::word_at;

verus! {

/// A free block: the number of its first word, and how many words it has.
pub struct Block {
    pub w: int,
    pub n: int,
}

/// Virtual address of word `w` of physical memory.
pub open spec fn va_of(w: int) -> int {
    PHYS_OFF + 8 * w
}

/// Address of block `i`; zero where there is none.
pub open spec fn addr_of(blocks: Seq<Block>, i: int) -> int {
    if 0 <= i < blocks.len() {
        va_of(blocks[i].w)
    } else {
        0
    }
}

/// Number of the first word of the heap.
pub open spec fn start_word(a: LinkedListAllocator) -> int {
    (a.start - PHYS_OFF) / 8
}

/// A block of the heap: big enough for its header, and inside.
pub open spec fn block_ok(s: int, b: Block) -> bool {
    &&& b.n >= 2
    &&& s <= b.w
    &&& b.w + b.n <= s + 0x100_0000
}

/// The heap lies in installed memory and within 64 bits.
pub open spec fn heap_ok(a: LinkedListAllocator, mem: Seq<u64>) -> bool {
    &&& a.initialized
    &&& a.start >= PHYS_OFF
    &&& a.start % 8 == 0
    &&& a.start + HEAP_SIZE <= u64::MAX
    &&& start_word(a) + 0x100_0000 <= mem.len()
}

/// The blocks are in order, and no two of them touch.
pub open spec fn apart(blocks: Seq<Block>) -> bool {
    forall|i: int, j: int|
        0 <= i < j < blocks.len() ==> (#[trigger] blocks[i]).w + blocks[i].n < (
        #[trigger] blocks[j]).w
}

/// Block `i` of `blocks` is in memory: its size, and a link to the next one.
pub open spec fn stored(mem: Seq<u64>, blocks: Seq<Block>, i: int) -> bool {
    &&& word_at(mem, blocks[i].w) == 8 * blocks[i].n
    &&& word_at(mem, blocks[i].w + 1) == addr_of(blocks, i + 1)
}

/// The list in memory is the list `blocks`: in order, with no two blocks touching.
pub open spec fn free_list(a: LinkedListAllocator, mem: Seq<u64>, blocks: Seq<Block>) -> bool {
    &&& heap_ok(a, mem)
    &&& a.head == addr_of(blocks, 0)
    &&& forall|i: int|
        0 <= i < blocks.len() ==> block_ok(start_word(a), #[trigger] blocks[i]) && stored(
            mem,
            blocks,
            i,
        )
    &&& apart(blocks)
}

/// The first block, from number `i` on, that is big enough.
pub open spec fn first_fit(
    a: LinkedListAllocator,
    blocks: Seq<Block>,
    i: int,
    size: int,
    align: int,
) -> int
    decreases blocks.len() - i,
{
    if i >= blocks.len() {
        blocks.len() as int
    } else if 8 * blocks[i].n >= a.needed(va_of(blocks[i].w), size, align) {
        i
    } else {
        first_fit(a, blocks, i + 1, size, align)
    }
}

proof fn lemma_at(mem: Seq<u64>, w: int)
    ensures
        at(mem, va_of(w)) == word_at(mem, w),
        at(mem, va_of(w) + 8) == word_at(mem, w + 1),
{
    reveal(at);
}

/// Memory with word `w` replaced.
pub open spec fn set_word(mem: Seq<u64>, w: int, v: u64) -> Seq<u64> {
    if 0 <= w < mem.len() {
        mem.update(w, v)
    } else {
        mem
    }
}

proof fn lemma_put(mem: Seq<u64>, w: int, v: u64)
    ensures
        put(mem, va_of(w), v) == set_word(mem, w, v),
        put(mem, va_of(w) + 8, v) == set_word(mem, w + 1, v),
{
    reveal(put);
}

proof fn lemma_position(a: LinkedListAllocator, mem: Seq<u64>, blocks: Seq<Block>, i: int)
    requires
        free_list(a, mem, blocks),
        0 <= i < blocks.len(),
    ensures
        blocks[i].w >= start_word(a) + 2 * i,
        i < 0x80_0000,
    decreases i,
{
    assert(block_ok(start_word(a), blocks[i]));
    if i > 0 {
        lemma_position(a, mem, blocks, i - 1);
        assert(block_ok(start_word(a), blocks[i - 1]));
        assert(blocks[i - 1].w + blocks[i - 1].n < blocks[i].w);
    }
}

/// Every link of a sound list is a link to a block, or none.
proof fn lemma_links(a: LinkedListAllocator, mem: Seq<u64>, blocks: Seq<Block>, i: int)
    requires
        free_list(a, mem, blocks),
    ensures
        link_fault(a.start, addr_of(blocks, i) as u64) is None,
        0 <= addr_of(blocks, i) <= u64::MAX - 16,
        0 <= i < blocks.len() ==> addr_of(blocks, i) > 0 && blocks[i].w >= 0,
{
    if 0 <= i < blocks.len() {
        assert(block_ok(start_word(a), blocks[i]));
        lemma_link_ok(a, blocks[i].w, blocks[i].n);
    }
}

proof fn lemma_link_ok(a: LinkedListAllocator, w: int, n: int)
    requires
        a.start >= PHYS_OFF,
        a.start % 8 == 0,
        a.start + HEAP_SIZE <= u64::MAX,
        block_ok(start_word(a), Block { w, n }),
    ensures
        link_fault(a.start, va_of(w) as u64) is None,
        0 < va_of(w) <= u64::MAX - 16,
        w >= 0,
{
    assert(va_of(start_word(a)) == a.start);
    assert(va_of(w) % 8 == 0);
}

proof fn lemma_search(
    a: LinkedListAllocator,
    mem: Seq<u64>,
    blocks: Seq<Block>,
    i: int,
    size: int,
    align: int,
)
    requires
        free_list(a, mem, blocks),
        0 <= i <= blocks.len(),
    ensures
        ({
            let k = first_fit(a, blocks, i, size, align);
            &&& i <= k <= blocks.len()
            &&& k < blocks.len() ==> 8 * blocks[k].n >= a.needed(va_of(blocks[k].w), size, align)
            &&& search(
                a,
                mem,
                addr_of(blocks, i - 1) as u64,
                addr_of(blocks, i) as u64,
                i,
                size,
                align,
            ) == (if k < blocks.len() {
                Search::Found {
                    prev: addr_of(blocks, k - 1) as u64,
                    block: addr_of(blocks, k) as u64,
                }
            } else {
                Search::Nothing
            })
        }),
    decreases blocks.len() - i,
{
    if i < blocks.len() {
        lemma_position(a, mem, blocks, i);
        lemma_links(a, mem, blocks, i);
        lemma_links(a, mem, blocks, i + 1);
        assert(block_ok(start_word(a), blocks[i]));
        assert(stored(mem, blocks, i));
        lemma_at(mem, blocks[i].w);
        lemma_search(a, mem, blocks, i + 1, size, align);
    }
}

proof fn lemma_search_all(
    a: LinkedListAllocator,
    mem: Seq<u64>,
    blocks: Seq<Block>,
    size: int,
    align: int,
)
    requires
        free_list(a, mem, blocks),
    ensures
        ({
            let k = first_fit(a, blocks, 0, size, align);
            &&& 0 <= k <= blocks.len()
            &&& k < blocks.len() ==> 8 * blocks[k].n >= a.needed(va_of(blocks[k].w), size, align)
            &&& search_all(a, mem, size, align) == (if k < blocks.len() {
                Search::Found {
                    prev: addr_of(blocks, k - 1) as u64,
                    block: addr_of(blocks, k) as u64,
                }
            } else {
                Search::Nothing
            })
        }),
{
    lemma_links(a, mem, blocks, 0);
    lemma_search(a, mem, blocks, 0, size, align);
}

/// An allocation succeeds exactly when some free block is big enough, and a sound list is
/// never reported as faulty.
pub proof fn law_allocation_succeeds_when_a_block_fits(
    a: LinkedListAllocator,
    mem: Seq<u64>,
    blocks: Seq<Block>,
    size: int,
    align: int,
)
    requires
        free_list(a, mem, blocks),
    ensures
        !(search_all(a, mem, size, align) is Fault),
        search_all(a, mem, size, align) is Found <==> exists|k: int|
            0 <= k < blocks.len() && 8 * (#[trigger] blocks[k]).n >= a.needed(
                va_of(blocks[k].w),
                size,
                align,
            ),
{
    lemma_search_all(a, mem, blocks, size, align);
    lemma_first_fit_is_first(a, blocks, 0, size, align);
}

proof fn lemma_first_fit_is_first(
    a: LinkedListAllocator,
    blocks: Seq<Block>,
    i: int,
    size: int,
    align: int,
)
    requires
        0 <= i <= blocks.len(),
    ensures
        forall|k: int|
            i <= k < first_fit(a, blocks, i, size, align) ==> 8 * (#[trigger] blocks[k]).n
                < a.needed(va_of(blocks[k].w), size, align),
        first_fit(a, blocks, i, size, align) <= blocks.len(),
    decreases blocks.len() - i,
{
    if i < blocks.len() && 8 * blocks[i].n < a.needed(va_of(blocks[i].w), size, align) {
        lemma_first_fit_is_first(a, blocks, i + 1, size, align);
    }
}

/// Memory `m` differs from `mem` in the words from `lo` up to `hi` alone.
pub open spec fn same_outside(mem: Seq<u64>, m: Seq<u64>, lo: int, hi: int) -> bool {
    &&& m.len() == mem.len()
    &&& forall|k: int|
        k < lo || hi <= k ==> #[trigger] word_at(m, k) == word_at(mem, k)
}

proof fn lemma_put_bytes(mem: Seq<u64>, va: int, v: u64, lo: int, hi: int)
    requires
        va_of(lo) <= va,
        va + 8 <= va_of(hi),
    ensures
        same_outside(mem, put_bytes(mem, va, v), lo, hi),
        forall|k: int|
            va_of(k) + 8 <= va ==> #[trigger] word_at(put_bytes(mem, va, v), k) == word_at(mem, k),
{
    reveal(put);
    let w = (va - PHYS_OFF) / 8;
    if va % 8 != 0 {
        assert((va + 8 - PHYS_OFF) / 8 == w + 1);
    }
}

/// Rounding up moves less than the alignment, and to a multiple of eight where the
/// alignment is one.
proof fn lemma_round_up(v: int, a: int)
    requires
        a > 0,
    ensures
        v <= round_up(v, a) < v + a,
        a % 8 == 0 ==> round_up(v, a) % 8 == 0,
{
    reveal(round_up);
    let x = v + a - 1;
    lemma_fundamental_div_mod(x, a);
    lemma_mod_bound(x, a);
    vstd::arithmetic::mul::lemma_mul_is_commutative(x / a, a);
    if a % 8 == 0 {
        let q = x / a;
        let b = a / 8;
        assert(q * a == 8 * (q * b)) by (nonlinear_arith)
            requires
                a == 8 * b,
        ;
    }
}

/// Number of the word at which an allocation from the block at word `w` puts its data.
pub open spec fn data_word(a: LinkedListAllocator, w: int, align: int) -> int {
    (a.data_start(va_of(w), align) - PHYS_OFF) / 8
}

/// Words that an allocation takes from the block at word `w`.
pub open spec fn needed_words(a: LinkedListAllocator, w: int, size: int, align: int) -> int {
    a.needed(va_of(w), size, align) / 8
}

/// Where an allocation of `size` bytes lies in its block: behind its header, and with its
/// guard words in what it takes.
proof fn lemma_placement(a: LinkedListAllocator, w: int, size: int, align: int)
    requires
        align >= 8,
        align % 8 == 0,
        size >= 0,
    ensures
        ({
            let d = data_word(a, w, align);
            let t = needed_words(a, w, size, align);
            &&& a.data_start(va_of(w), align) == va_of(d)
            &&& a.needed(va_of(w), size, align) == 8 * t
            &&& 8 * w + a.header() <= 8 * d
            &&& 8 * d + size + a.tail() <= 8 * (w + t)
        }),
{
    lemma_round_up(va_of(w) + a.header(), align);
    let data = a.data_start(va_of(w), align);
    lemma_round_up(data + size + a.tail() - va_of(w), 8);
}

/// The free blocks after `t` words of block `k` were used.
pub open spec fn blocks_after_cut(blocks: Seq<Block>, k: int, t: int) -> Seq<Block> {
    if splits(8 * blocks[k].n, 8 * t) {
        blocks.update(k, Block { w: blocks[k].w + t, n: blocks[k].n - t })
    } else {
        blocks.remove(k)
    }
}

/// Words that leave the list when `t` words of a block of `n` words are used.
pub open spec fn taken_words(n: int, t: int) -> int {
    if splits(8 * n, 8 * t) {
        t
    } else {
        n
    }
}

/// Words of a header.
pub open spec fn header_words(a: LinkedListAllocator) -> int {
    if a.canary {
        4
    } else {
        2
    }
}

/// The guard words of an allocation stay within what it takes.
proof fn lemma_canaries(
    a: LinkedListAllocator,
    mem: Seq<u64>,
    lo: int,
    d: int,
    hi: int,
    size: u64,
)
    requires
        lo + header_words(a) <= d,
        8 * d + size + a.tail() <= 8 * hi,
        lo >= 0,
    ensures
        ({
            let m = with_canaries(a, mem, va_of(d), size);
            &&& same_outside(mem, m, lo, hi)
            &&& word_at(m, d - header_words(a)) == word_at(mem, d - header_words(a))
            &&& word_at(m, d - header_words(a) + 1) == word_at(mem, d - header_words(a) + 1)
        }),
{
    if a.canary {
        lemma_put(mem, d - 1, CANARY_FRONT);
        let m1 = put(mem, va_of(d) - 8, CANARY_FRONT);
        assert(m1 == set_word(mem, d - 1, CANARY_FRONT));
        lemma_put(m1, d - 2, size);
        let m2 = put(m1, va_of(d) - 16, size);
        assert(m2 == set_word(m1, d - 2, size));
        lemma_put_bytes(m2, va_of(d) + size, CANARY_REAR, d, hi);
    }
}

/// The words that a cut writes, one after the other.
pub open spec fn cut_words(
    mem: Seq<u64>,
    b: Block,
    t: int,
    left: u64,
    next: u64,
    prev: Option<int>,
    link: u64,
) -> Seq<u64> {
    let cut = if splits(8 * b.n, 8 * t) {
        set_word(set_word(mem, b.w + t, left), b.w + t + 1, next)
    } else {
        mem
    };
    match prev {
        Some(p) => set_word(cut, p + 1, link),
        None => cut,
    }
}

proof fn lemma_cut_words(
    mem: Seq<u64>,
    b: Block,
    t: int,
    left: u64,
    next: u64,
    prev: Option<int>,
    link: u64,
    h: int,
    start: u64,
    used: u64,
    m: Seq<u64>,
)
    requires
        0 <= b.w,
        b.n >= 2,
        0 < t <= b.n,
        b.w + b.n <= mem.len(),
        prev matches Some(p) ==> 0 <= p && p + 1 < b.w,
        b.w <= h,
        h + 2 <= b.w + t,
        ({
            let headed = set_word(
                set_word(cut_words(mem, b, t, left, next, prev, link), h, start),
                h + 1,
                used,
            );
            &&& same_outside(headed, m, b.w, b.w + t)
            &&& word_at(m, h) == word_at(headed, h)
            &&& word_at(m, h + 1) == word_at(headed, h + 1)
        }),
    ensures
        m.len() == mem.len(),
        prev matches Some(p) ==> word_at(m, p + 1) == link,
        splits(8 * b.n, 8 * t) ==> word_at(m, b.w + t) == left && word_at(m, b.w + t + 1) == next,
        word_at(m, h) == start,
        word_at(m, h + 1) == used,
        forall|x: int|
            (x < b.w || b.w + b.n <= x) && (prev is None || x != prev->0 + 1) ==> #[trigger] word_at(
                m,
                x,
            ) == word_at(mem, x),
{
    let joined = cut_words(mem, b, t, left, next, prev, link);
    let headed = set_word(set_word(joined, h, start), h + 1, used);
    assert forall|x: int| x < b.w || b.w + t <= x implies #[trigger] word_at(m, x) == word_at(
        joined,
        x,
    ) by {
        assert(word_at(m, x) == word_at(headed, x));
    }
    if splits(8 * b.n, 8 * t) {
        assert(word_at(m, b.w + t) == word_at(joined, b.w + t));
        assert(word_at(m, b.w + t + 1) == word_at(joined, b.w + t + 1));
    }
    if prev is Some {
        assert(word_at(m, prev->0 + 1) == word_at(joined, prev->0 + 1));
    }
}

/// The block before block `k`.
pub open spec fn prev_word(blocks: Seq<Block>, k: int) -> Option<int> {
    if k > 0 {
        Some(blocks[k - 1].w)
    } else {
        None
    }
}

/// A cut, as the words that it writes.
#[verifier::rlimit(60)]
#[verifier::spinoff_prover]
proof fn lemma_cut(
    a: LinkedListAllocator,
    mem: Seq<u64>,
    blocks: Seq<Block>,
    k: int,
    size: u64,
    align: int,
    t: int,
    d: int,
)
    requires
        free_list(a, mem, blocks),
        0 <= k < blocks.len(),
        align >= 8,
        a.data_start(va_of(blocks[k].w), align) == va_of(d),
        a.needed(va_of(blocks[k].w), size as int, align) == 8 * t,
        blocks[k].w + header_words(a) <= d,
        8 * d + size + a.tail() <= 8 * (blocks[k].w + t),
        t <= blocks[k].n,
    ensures
        ({
            let b = blocks[k];
            let (a2, m) = after_cut(
                a,
                mem,
                addr_of(blocks, k - 1) as u64,
                addr_of(blocks, k) as u64,
                size,
                align,
            );
            let sp = splits(8 * b.n, 8 * t);
            let link = if sp {
                va_of(b.w + t)
            } else {
                addr_of(blocks, k + 1)
            };
            &&& a2 == (LinkedListAllocator {
                head: if k == 0 {
                    link as u64
                } else {
                    a.head
                },
                allocated_bytes: a.allocated_bytes.wrapping_add(
                    (8 * taken_words(b.n, t)) as u64,
                ),
                ..a
            })
            &&& m.len() == mem.len()
            &&& k > 0 ==> word_at(m, blocks[k - 1].w + 1) == link
            &&& sp ==> word_at(m, b.w + t) == 8 * (b.n - t) && word_at(m, b.w + t + 1) == addr_of(
                blocks,
                k + 1,
            )
            &&& word_at(m, d - header_words(a)) == va_of(b.w)
            &&& word_at(m, d - header_words(a) + 1) == 8 * taken_words(b.n, t)
            &&& forall|x: int|
                (x < b.w || b.w + b.n <= x) && (k == 0 || x != blocks[k - 1].w + 1)
                    ==> #[trigger] word_at(m, x) == word_at(mem, x)
        }),
{
    let b = blocks[k];
    let hw = header_words(a);
    lemma_links(a, mem, blocks, k);
    lemma_links(a, mem, blocks, k - 1);
    lemma_links(a, mem, blocks, k + 1);
    assert(block_ok(start_word(a), b));
    assert(stored(mem, blocks, k));
    lemma_at(mem, b.w);
    let next = addr_of(blocks, k + 1) as u64;
    let prev = addr_of(blocks, k - 1) as u64;
    let pw = prev_word(blocks, k);
    let sp = splits(8 * b.n, 8 * t);
    let link: u64 = if sp {
        va_of(b.w + t) as u64
    } else {
        next
    };
    let left = (8 * (b.n - t)) as u64;
    let used = (8 * taken_words(b.n, t)) as u64;
    if k > 0 {
        assert(block_ok(start_word(a), blocks[k - 1]));
        assert(blocks[k - 1].w + blocks[k - 1].n < b.w);
    }
    lemma_put(mem, b.w + t, left);
    let c1 = set_word(mem, b.w + t, left);
    lemma_put(c1, b.w + t, next);
    let cut = if sp {
        set_word(c1, b.w + t + 1, next)
    } else {
        mem
    };
    if k > 0 {
        lemma_put(cut, blocks[k - 1].w, link);
    }
    let joined = cut_words(mem, b, t, left, next, pw, link);
    assert(linked(cut, prev, link) == joined);
    lemma_put(joined, d - hw, va_of(b.w) as u64);
    let h1 = set_word(joined, d - hw, va_of(b.w) as u64);
    lemma_put(h1, d - hw, used);
    let headed = set_word(h1, d - hw + 1, used);
    lemma_canaries(a, headed, b.w, d, b.w + t, size);
    let m = with_canaries(a, headed, va_of(d), size);
    assert(after_cut(a, mem, prev, va_of(b.w) as u64, size, align).1 == m);
    lemma_cut_words(
        mem,
        b,
        t,
        left,
        next,
        pw,
        link,
        d - hw,
        va_of(b.w) as u64,
        used,
        m,
    );
}

/// The blocks after a cut are in memory `m`, which differs from `mem` as a cut makes it.
#[verifier::rlimit(60)]
#[verifier::spinoff_prover]
proof fn lemma_stored_after_cut(
    s: int,
    mem: Seq<u64>,
    m: Seq<u64>,
    blocks: Seq<Block>,
    k: int,
    t: int,
)
    requires
        0 <= k < blocks.len(),
        0 < t <= blocks[k].n,
        apart(blocks),
        forall|i: int|
            0 <= i < blocks.len() ==> block_ok(s, #[trigger] blocks[i]) && stored(mem, blocks, i),
        ({
            let b = blocks[k];
            let sp = splits(8 * b.n, 8 * t);
            let link = if sp {
                va_of(b.w + t)
            } else {
                addr_of(blocks, k + 1)
            };
            &&& k > 0 ==> word_at(m, blocks[k - 1].w + 1) == link
            &&& sp ==> word_at(m, b.w + t) == 8 * (b.n - t) && word_at(m, b.w + t + 1) == addr_of(
                blocks,
                k + 1,
            )
            &&& forall|x: int|
                (x < b.w || b.w + b.n <= x) && (k == 0 || x != blocks[k - 1].w + 1)
                    ==> #[trigger] word_at(m, x) == word_at(mem, x)
        }),
    ensures
        ({
            let n = blocks_after_cut(blocks, k, t);
            &&& apart(n)
            &&& forall|i: int|
                0 <= i < n.len() ==> block_ok(s, #[trigger] n[i]) && stored(m, n, i)
        }),
{
    let b = blocks[k];
    let n = blocks_after_cut(blocks, k, t);
    let sp = splits(8 * b.n, 8 * t);
    assert(block_ok(s, b));
    assert forall|i: int| 0 <= i < n.len() implies block_ok(s, #[trigger] n[i]) && stored(
        m,
        n,
        i,
    ) by {
        let o = if sp || i < k {
            i
        } else {
            i + 1
        };
        let ob = blocks[o];
        assert(block_ok(s, ob));
        assert(stored(mem, blocks, o));
        if o < k {
            assert(blocks[o].w + blocks[o].n < blocks[k].w);
            if o < k - 1 {
                assert(blocks[o].w + blocks[o].n < blocks[k - 1].w);
                assert(word_at(m, ob.w + 1) == word_at(mem, ob.w + 1));
            }
            assert(word_at(m, ob.w) == word_at(mem, ob.w));
        } else if o > k {
            assert(blocks[k].w + blocks[k].n < blocks[o].w);
            if k > 0 {
                assert(blocks[k - 1].w + blocks[k - 1].n < blocks[k].w);
                assert(block_ok(s, blocks[k - 1]));
            }
            assert(word_at(m, ob.w) == word_at(mem, ob.w));
            assert(word_at(m, ob.w + 1) == word_at(mem, ob.w + 1));
        }
    }
    assert forall|i: int, j: int| 0 <= i < j < n.len() implies (#[trigger] n[i]).w + n[i].n < (
    #[trigger] n[j]).w by {
        let oi = if sp || i < k {
            i
        } else {
            i + 1
        };
        let oj = if sp || j < k {
            j
        } else {
            j + 1
        };
        assert(blocks[oi].w + blocks[oi].n < blocks[oj].w);
    }
}

/// An allocation from block `k` leaves a sound list: the block is gone, or what is left of
/// it has taken its place.  The data lies in what was taken, at the alignment asked for,
/// and its header tells where the block starts and how big it is.
pub proof fn law_allocation_keeps_the_list_sound(
    a: LinkedListAllocator,
    mem: Seq<u64>,
    blocks: Seq<Block>,
    k: int,
    size: u64,
    align: int,
)
    requires
        free_list(a, mem, blocks),
        0 <= k < blocks.len(),
        align >= 8,
        align % 8 == 0,
        8 * blocks[k].n >= a.needed(va_of(blocks[k].w), size as int, align),
    ensures
        ({
            let b = blocks[k];
            let t = needed_words(a, b.w, size as int, align);
            let d = data_word(a, b.w, align);
            let (a2, m) = after_cut(
                a,
                mem,
                addr_of(blocks, k - 1) as u64,
                addr_of(blocks, k) as u64,
                size,
                align,
            );
            &&& free_list(a2, m, blocks_after_cut(blocks, k, t))
            &&& a.data_start(va_of(b.w), align) == va_of(d)
            &&& b.w + header_words(a) <= d
            &&& va_of(d) + size <= va_of(b.w + taken_words(b.n, t))
            &&& word_at(m, d - header_words(a)) == va_of(b.w)
            &&& word_at(m, d - header_words(a) + 1) == 8 * taken_words(b.n, t)
        }),
{
    let b = blocks[k];
    let t = needed_words(a, b.w, size as int, align);
    let d = data_word(a, b.w, align);
    lemma_placement(a, b.w, size as int, align);
    lemma_cut(a, mem, blocks, k, size, align, t, d);
    let (a2, m) = after_cut(
        a,
        mem,
        addr_of(blocks, k - 1) as u64,
        addr_of(blocks, k) as u64,
        size,
        align,
    );
    lemma_stored_after_cut(start_word(a), mem, m, blocks, k, t);
    lemma_links(a, mem, blocks, k);
    lemma_links(a, mem, blocks, k + 1);
    assert(block_ok(start_word(a), b));
}

/// The number of the first block, from number `i` on, that starts at word `w` or behind.
pub open spec fn gap(blocks: Seq<Block>, i: int, w: int) -> int
    decreases blocks.len() - i,
{
    if i >= blocks.len() {
        blocks.len() as int
    } else if blocks[i].w >= w {
        i
    } else {
        gap(blocks, i + 1, w)
    }
}

/// A block that no free block overlaps.
pub open spec fn is_used(blocks: Seq<Block>, b: Block) -> bool {
    forall|i: int|
        0 <= i < blocks.len() ==> (#[trigger] blocks[i]).w + blocks[i].n <= b.w || b.w + b.n
            <= blocks[i].w
}

proof fn lemma_gap(blocks: Seq<Block>, i: int, w: int)
    requires
        0 <= i <= blocks.len(),
        forall|j: int| 0 <= j < i ==> (#[trigger] blocks[j]).w < w,
    ensures
        ({
            let g = gap(blocks, i, w);
            &&& i <= g <= blocks.len()
            &&& forall|j: int| 0 <= j < g ==> (#[trigger] blocks[j]).w < w
            &&& g < blocks.len() ==> blocks[g].w >= w
        }),
    decreases blocks.len() - i,
{
    if i < blocks.len() && blocks[i].w < w {
        lemma_gap(blocks, i + 1, w);
    }
}

proof fn lemma_find_gap(
    a: LinkedListAllocator,
    mem: Seq<u64>,
    blocks: Seq<Block>,
    i: int,
    w: int,
)
    requires
        free_list(a, mem, blocks),
        0 <= i <= blocks.len(),
        0 <= va_of(w) <= u64::MAX,
        forall|j: int| 0 <= j < i ==> (#[trigger] blocks[j]).w < w,
    ensures
        find_gap(
            a,
            mem,
            addr_of(blocks, i - 1) as u64,
            addr_of(blocks, i) as u64,
            i,
            va_of(w) as u64,
        ) == (Gap::Between {
            prev: addr_of(blocks, gap(blocks, i, w) - 1) as u64,
            next: addr_of(blocks, gap(blocks, i, w)) as u64,
        }),
    decreases blocks.len() - i,
{
    if i < blocks.len() {
        lemma_position(a, mem, blocks, i);
        lemma_links(a, mem, blocks, i);
        lemma_links(a, mem, blocks, i + 1);
        assert(stored(mem, blocks, i));
        lemma_at(mem, blocks[i].w);
        if blocks[i].w < w {
            lemma_find_gap(a, mem, blocks, i + 1, w);
        }
    }
}

/// The free blocks after block `b` was put before number `g` and joined to the blocks that
/// it touches.
pub open spec fn blocks_after_join(blocks: Seq<Block>, g: int, b: Block) -> Seq<Block> {
    let tp = touches_prev(blocks, g, b);
    let tn = touches_next(blocks, g, b);
    let whole = Block {
        w: if tp {
            blocks[g - 1].w
        } else {
            b.w
        },
        n: b.n + (if tp {
            blocks[g - 1].n
        } else {
            0
        }) + (if tn {
            blocks[g].n
        } else {
            0
        }),
    };
    blocks.take(if tp {
        g - 1
    } else {
        g
    }) + seq![whole] + blocks.skip(
        if tn {
            g + 1
        } else {
            g
        },
    )
}

/// Block `b` touches the block before number `g`.
pub open spec fn touches_prev(blocks: Seq<Block>, g: int, b: Block) -> bool {
    g > 0 && blocks[g - 1].w + blocks[g - 1].n == b.w
}

/// Block `b` touches block number `g`.
pub open spec fn touches_next(blocks: Seq<Block>, g: int, b: Block) -> bool {
    g < blocks.len() && b.w + b.n == blocks[g].w
}

/// What joining a block to the list does to memory.
proof fn lemma_join_words(
    a: LinkedListAllocator,
    mem: Seq<u64>,
    blocks: Seq<Block>,
    g: int,
    b: Block,
)
    requires
        free_list(a, mem, blocks),
        0 <= g <= blocks.len(),
        block_ok(start_word(a), b),
        g > 0 ==> blocks[g - 1].w + blocks[g - 1].n <= b.w,
        g < blocks.len() ==> b.w + b.n <= blocks[g].w,
    ensures
        ({
            let (a2, m) = after_join(
                a,
                mem,
                addr_of(blocks, g - 1) as u64,
                addr_of(blocks, g) as u64,
                va_of(b.w) as u64,
                (8 * b.n) as u64,
            );
            let tp = touches_prev(blocks, g, b);
            let tn = touches_next(blocks, g, b);
            let mn = b.n + (if tn {
                blocks[g].n
            } else {
                0
            });
            let mnext = if tn {
                addr_of(blocks, g + 1)
            } else {
                addr_of(blocks, g)
            };
            &&& m.len() == mem.len()
            &&& a2 == (LinkedListAllocator {
                head: if g == 0 {
                    va_of(b.w) as u64
                } else {
                    a.head
                },
                ..a
            })
            &&& if tp {
                &&& word_at(m, blocks[g - 1].w) == 8 * (blocks[g - 1].n + mn)
                &&& word_at(m, blocks[g - 1].w + 1) == mnext
            } else {
                &&& word_at(m, b.w) == 8 * mn
                &&& word_at(m, b.w + 1) == mnext
                &&& g > 0 ==> word_at(m, blocks[g - 1].w + 1) == va_of(b.w) && word_at(
                    m,
                    blocks[g - 1].w,
                ) == 8 * blocks[g - 1].n
            }
            &&& forall|x: int|
                x != b.w && x != b.w + 1 && (g == 0 || x != blocks[g - 1].w && x != blocks[g
                    - 1].w + 1) ==> #[trigger] word_at(m, x) == word_at(mem, x)
        }),
{
    let prev = addr_of(blocks, g - 1) as u64;
    let next = addr_of(blocks, g) as u64;
    let size = (8 * b.n) as u64;
    let addr = va_of(b.w) as u64;
    lemma_links(a, mem, blocks, g - 1);
    lemma_links(a, mem, blocks, g);
    lemma_links(a, mem, blocks, g + 1);
    lemma_link_ok(a, b.w, b.n);
    let tp = touches_prev(blocks, g, b);
    let tn = touches_next(blocks, g, b);
    if g < blocks.len() {
        assert(block_ok(start_word(a), blocks[g]));
        assert(stored(mem, blocks, g));
    }
    if g > 0 {
        assert(block_ok(start_word(a), blocks[g - 1]));
        assert(stored(mem, blocks, g - 1));
    }
    lemma_put(mem, b.w, size);
    let p1 = set_word(mem, b.w, size);
    lemma_put(p1, b.w, next);
    let p2 = set_word(p1, b.w + 1, next);
    if g > 0 {
        lemma_put(p2, blocks[g - 1].w, addr);
    }
    let placed = if g > 0 {
        set_word(p2, blocks[g - 1].w + 1, addr)
    } else {
        p2
    };
    assert(linked(p2, prev, addr) == placed);
    if g < blocks.len() {
        lemma_at(placed, blocks[g].w);
        assert(word_at(placed, blocks[g].w) == 8 * blocks[g].n);
        assert(word_at(placed, blocks[g].w + 1) == addr_of(blocks, g + 1));
        assert(tn == (addr.wrapping_add(size) == next));
    }
    let mn = b.n + (if tn {
        blocks[g].n
    } else {
        0
    });
    let mnext = if tn {
        addr_of(blocks, g + 1) as u64
    } else {
        next
    };
    lemma_put(placed, b.w, (8 * mn) as u64);
    let q1 = set_word(placed, b.w, (8 * mn) as u64);
    lemma_put(q1, b.w, mnext);
    let merged = if tn {
        set_word(q1, b.w + 1, mnext)
    } else {
        placed
    };
    assert(word_at(merged, b.w) == 8 * mn);
    assert(word_at(merged, b.w + 1) == mnext);
    lemma_at(merged, b.w);
    if g > 0 {
        let p = blocks[g - 1];
        lemma_at(merged, p.w);
        assert(word_at(merged, p.w) == 8 * p.n);
        assert(tp == (prev.wrapping_add(at(merged, prev as int)) == addr));
        let both = (8 * (p.n + mn)) as u64;
        lemma_put(merged, p.w, both);
        let r1 = set_word(merged, p.w, both);
        lemma_put(r1, p.w, mnext);
        if tp {
            let m = set_word(r1, p.w + 1, mnext);
            assert(after_join(a, mem, prev, next, addr, size).1 == m);
        } else {
            assert(after_join(a, mem, prev, next, addr, size).1 == merged);
        }
    } else {
        assert(after_join(a, mem, prev, next, addr, size).1 == merged);
    }
}

/// Number, in the old list, of block `i` of the joined list.
pub open spec fn old_index(blocks: Seq<Block>, g: int, b: Block, i: int) -> int {
    let p0 = if touches_prev(blocks, g, b) {
        g - 1
    } else {
        g
    };
    if i < p0 {
        i
    } else {
        i - p0 - 1 + (if touches_next(blocks, g, b) {
            g + 1
        } else {
            g
        })
    }
}

proof fn lemma_join_apart(blocks: Seq<Block>, g: int, b: Block)
    requires
        apart(blocks),
        0 <= g <= blocks.len(),
        b.n >= 2,
        forall|i: int| 0 <= i < blocks.len() ==> (#[trigger] blocks[i]).n >= 2,
        g > 0 ==> blocks[g - 1].w + blocks[g - 1].n <= b.w,
        g < blocks.len() ==> b.w + b.n <= blocks[g].w,
    ensures
        apart(blocks_after_join(blocks, g, b)),
{
    let n = blocks_after_join(blocks, g, b);
    let tp = touches_prev(blocks, g, b);
    let tn = touches_next(blocks, g, b);
    let p0 = if tp {
        g - 1
    } else {
        g
    };
    assert forall|i: int, j: int| 0 <= i < j < n.len() implies (#[trigger] n[i]).w + n[i].n < (
    #[trigger] n[j]).w by {
        let oi = old_index(blocks, g, b, i);
        let oj = old_index(blocks, g, b, j);
        if i == p0 {
            assert(n[j] == blocks[oj]);
            if tn {
                assert(blocks[g].w + blocks[g].n < blocks[oj].w);
            } else if oj > g {
                assert(blocks[g].w + blocks[g].n < blocks[oj].w);
            }
        } else if j == p0 {
            assert(n[i] == blocks[oi]);
            if tp {
                assert(blocks[oi].w + blocks[oi].n < blocks[g - 1].w);
            } else if oi < g - 1 {
                assert(blocks[oi].w + blocks[oi].n < blocks[g - 1].w);
            }
        } else {
            assert(n[i] == blocks[oi]);
            assert(n[j] == blocks[oj]);
            assert(blocks[oi].w + blocks[oi].n < blocks[oj].w);
        }
    }
}

/// Block `i` of the joined list is in memory.
#[verifier::rlimit(60)]
#[verifier::spinoff_prover]
proof fn lemma_join_stored(
    a: LinkedListAllocator,
    mem: Seq<u64>,
    blocks: Seq<Block>,
    g: int,
    b: Block,
    i: int,
)
    requires
        free_list(a, mem, blocks),
        0 <= g <= blocks.len(),
        block_ok(start_word(a), b),
        g > 0 ==> blocks[g - 1].w + blocks[g - 1].n <= b.w,
        g < blocks.len() ==> b.w + b.n <= blocks[g].w,
        0 <= i < blocks_after_join(blocks, g, b).len(),
    ensures
        ({
            let (a2, m) = after_join(
                a,
                mem,
                addr_of(blocks, g - 1) as u64,
                addr_of(blocks, g) as u64,
                va_of(b.w) as u64,
                (8 * b.n) as u64,
            );
            let n = blocks_after_join(blocks, g, b);
            block_ok(start_word(a), n[i]) && stored(m, n, i)
        }),
{
    let s = start_word(a);
    let (a2, m) = after_join(
        a,
        mem,
        addr_of(blocks, g - 1) as u64,
        addr_of(blocks, g) as u64,
        va_of(b.w) as u64,
        (8 * b.n) as u64,
    );
    lemma_join_words(a, mem, blocks, g, b);
    let n = blocks_after_join(blocks, g, b);
    let tp = touches_prev(blocks, g, b);
    let tn = touches_next(blocks, g, b);
    let p0 = if tp {
        g - 1
    } else {
        g
    };
    if g > 0 {
        assert(block_ok(s, blocks[g - 1]));
    }
    if g < blocks.len() {
        assert(block_ok(s, blocks[g]));
    }
    if i != p0 {
        let o = old_index(blocks, g, b, i);
        let ob = blocks[o];
        assert(n[i] == ob);
        assert(block_ok(s, ob));
        assert(stored(mem, blocks, o));
        if o < g - 1 {
            assert(blocks[o].w + blocks[o].n < blocks[g - 1].w);
        }
        if o >= g {
            if o > g {
                assert(blocks[g].w + blocks[g].n < blocks[o].w);
            }
            if g > 0 {
                assert(blocks[g - 1].w + blocks[g - 1].n < blocks[o].w);
            }
        }
        if o != g - 1 {
            assert(word_at(m, ob.w) == word_at(mem, ob.w));
            assert(word_at(m, ob.w + 1) == word_at(mem, ob.w + 1));
        }
        if i + 1 < n.len() && i + 1 != p0 {
            assert(n[i + 1] == blocks[o + 1]);
        }
    } else {
        if i + 1 < n.len() {
            assert(n[i + 1] == blocks[old_index(blocks, g, b, i + 1)]);
        }
    }
}

proof fn lemma_join_list(
    a: LinkedListAllocator,
    mem: Seq<u64>,
    blocks: Seq<Block>,
    g: int,
    b: Block,
)
    requires
        free_list(a, mem, blocks),
        0 <= g <= blocks.len(),
        block_ok(start_word(a), b),
        g > 0 ==> blocks[g - 1].w + blocks[g - 1].n <= b.w,
        g < blocks.len() ==> b.w + b.n <= blocks[g].w,
    ensures
        ({
            let (a2, m) = after_join(
                a,
                mem,
                addr_of(blocks, g - 1) as u64,
                addr_of(blocks, g) as u64,
                va_of(b.w) as u64,
                (8 * b.n) as u64,
            );
            free_list(a2, m, blocks_after_join(blocks, g, b))
        }),
{
    let s = start_word(a);
    let (a2, m) = after_join(
        a,
        mem,
        addr_of(blocks, g - 1) as u64,
        addr_of(blocks, g) as u64,
        va_of(b.w) as u64,
        (8 * b.n) as u64,
    );
    lemma_join_words(a, mem, blocks, g, b);
    lemma_link_ok(a, b.w, b.n);
    let n = blocks_after_join(blocks, g, b);
    assert forall|i: int| 0 <= i < blocks.len() implies (#[trigger] blocks[i]).n >= 2 by {
        assert(block_ok(s, blocks[i]));
    }
    lemma_join_apart(blocks, g, b);
    assert forall|i: int| 0 <= i < n.len() implies block_ok(s, #[trigger] n[i]) && stored(
        m,
        n,
        i,
    ) by {
        lemma_join_stored(a, mem, blocks, g, b, i);
    }
    assert(a2.head == addr_of(n, 0)) by {
        if g > 1 || (g == 1 && !touches_prev(blocks, g, b)) {
            assert(n[0] == blocks[0]);
        }
    }
}

proof fn lemma_place(
    a: LinkedListAllocator,
    mem: Seq<u64>,
    blocks: Seq<Block>,
    b: Block,
)
    requires
        free_list(a, mem, blocks),
        block_ok(start_word(a), b),
        is_used(blocks, b),
    ensures
        ({
            let g = gap(blocks, 0, b.w);
            &&& 0 <= g <= blocks.len()
            &&& g > 0 ==> blocks[g - 1].w + blocks[g - 1].n <= b.w
            &&& g < blocks.len() ==> b.w + b.n <= blocks[g].w
            &&& find_place(a, mem, va_of(b.w) as u64) == (Gap::Between {
                prev: addr_of(blocks, g - 1) as u64,
                next: addr_of(blocks, g) as u64,
            })
        }),
{
    let g = gap(blocks, 0, b.w);
    lemma_gap(blocks, 0, b.w);
    lemma_links(a, mem, blocks, 0);
    lemma_link_ok(a, b.w, b.n);
    lemma_find_gap(a, mem, blocks, 0, b.w);
    if g > 0 {
        assert(block_ok(start_word(a), blocks[g - 1]));
        assert(blocks[g - 1].w < b.w);
    }
    if g < blocks.len() {
        assert(block_ok(start_word(a), blocks[g]));
    }
}

/// Giving a block back that no free block overlaps leaves a sound list: the block is in
/// it, joined to the blocks that it touches.
pub proof fn law_free_keeps_the_list_sound(
    a: LinkedListAllocator,
    mem: Seq<u64>,
    blocks: Seq<Block>,
    b: Block,
)
    requires
        free_list(a, mem, blocks),
        block_ok(start_word(a), b),
        is_used(blocks, b),
    ensures
        ({
            let place = find_place(a, mem, va_of(b.w) as u64);
            &&& place is Between
            &&& ({
                let (a2, m) = after_join(
                    a,
                    mem,
                    place->prev,
                    place->next,
                    va_of(b.w) as u64,
                    (8 * b.n) as u64,
                );
                free_list(a2, m, blocks_after_join(blocks, gap(blocks, 0, b.w), b))
            })
        }),
{
    lemma_place(a, mem, blocks, b);
    lemma_join_list(a, mem, blocks, gap(blocks, 0, b.w), b);
}

/// What an allocation took is overlapped by no free block, and giving it back restores
/// the list of free blocks.
pub proof fn law_free_undoes_allocation(s: int, blocks: Seq<Block>, k: int, t: int)
    requires
        0 <= k < blocks.len(),
        0 < t <= blocks[k].n,
        apart(blocks),
        forall|i: int| 0 <= i < blocks.len() ==> block_ok(s, #[trigger] blocks[i]),
    ensures
        ({
            let left = blocks_after_cut(blocks, k, t);
            let b = Block { w: blocks[k].w, n: taken_words(blocks[k].n, t) };
            &&& is_used(left, b)
            &&& gap(left, 0, b.w) == k
            &&& blocks_after_join(left, k, b) =~= blocks
        }),
{
    let left = blocks_after_cut(blocks, k, t);
    let b = Block { w: blocks[k].w, n: taken_words(blocks[k].n, t) };
    let sp = splits(8 * blocks[k].n, 8 * t);
    assert(block_ok(s, blocks[k]));
    assert forall|i: int| 0 <= i < left.len() implies (#[trigger] left[i]).w + left[i].n <= b.w
        || b.w + b.n <= left[i].w by {
        if i < k {
            assert(blocks[i].w + blocks[i].n < blocks[k].w);
        } else {
            let o = if sp {
                i
            } else {
                i + 1
            };
            if o > k {
                assert(blocks[k].w + blocks[k].n < blocks[o].w);
            }
        }
    }
    lemma_gap(left, 0, b.w);
    let g = gap(left, 0, b.w);
    if g < k {
        assert(left[g] == blocks[g]);
        assert(blocks[g].w + blocks[g].n < blocks[k].w);
        assert(block_ok(s, blocks[g]));
    }
    if g > k {
        assert(left[k].w < b.w);
        if !sp {
            assert(left[k] == blocks[k + 1]);
            assert(blocks[k].w + blocks[k].n < blocks[k + 1].w);
        }
    }
    assert(g == k);
    if k > 0 {
        assert(left[k - 1] == blocks[k - 1]);
        assert(blocks[k - 1].w + blocks[k - 1].n < blocks[k].w);
    }
    if !sp && k + 1 < blocks.len() {
        assert(left[k] == blocks[k + 1]);
        assert(blocks[k].w + blocks[k].n < blocks[k + 1].w);
    }
    assert(!touches_prev(left, k, b));
    assert(touches_next(left, k, b) == sp);
    let j = blocks_after_join(left, k, b);
    assert(j.len() == blocks.len());
    assert forall|i: int| 0 <= i < j.len() implies j[i] == blocks[i] by {
        if i > k {
            assert(j[i] == left[old_index(left, k, b, i)]);
        }
    }
}

/// Bytes in free blocks.
pub open spec fn free_bytes(blocks: Seq<Block>) -> int
    decreases blocks.len(),
{
    if blocks.len() == 0 {
        0
    } else {
        free_bytes(blocks.drop_last()) + 8 * blocks.last().n
    }
}

proof fn lemma_free_bytes_concat(x: Seq<Block>, y: Seq<Block>)
    ensures
        free_bytes(x + y) == free_bytes(x) + free_bytes(y),
    decreases y.len(),
{
    if y.len() == 0 {
        assert(x + y =~= x);
    } else {
        lemma_free_bytes_concat(x, y.drop_last());
        assert((x + y).drop_last() =~= x + y.drop_last());
    }
}

proof fn lemma_free_bytes_one(b: Block)
    ensures
        free_bytes(seq![b]) == 8 * b.n,
{
    assert(seq![b].drop_last() =~= Seq::empty());
    reveal_with_fuel(free_bytes, 2);
}

/// Every byte is accounted for: an allocation moves as many bytes out of the free blocks
/// as it adds to the bytes handed out.
pub proof fn law_allocation_accounts_for_every_byte(blocks: Seq<Block>, k: int, t: int)
    requires
        0 <= k < blocks.len(),
        0 < t <= blocks[k].n,
    ensures
        free_bytes(blocks_after_cut(blocks, k, t)) + 8 * taken_words(blocks[k].n, t)
            == free_bytes(blocks),
{
    let left = blocks_after_cut(blocks, k, t);
    let x = blocks.take(k);
    let z = blocks.skip(k + 1);
    assert(blocks =~= x + seq![blocks[k]] + z);
    lemma_free_bytes_concat(x, seq![blocks[k]]);
    lemma_free_bytes_concat(x + seq![blocks[k]], z);
    lemma_free_bytes_one(blocks[k]);
    if splits(8 * blocks[k].n, 8 * t) {
        assert(left =~= x + seq![left[k]] + z);
        lemma_free_bytes_concat(x, seq![left[k]]);
        lemma_free_bytes_concat(x + seq![left[k]], z);
        lemma_free_bytes_one(left[k]);
    } else {
        assert(left =~= x + z);
        lemma_free_bytes_concat(x, z);
    }
}

/// Every byte is accounted for: a block that is given back adds its bytes to the free
/// blocks.
pub proof fn law_free_accounts_for_every_byte(blocks: Seq<Block>, g: int, b: Block)
    requires
        0 <= g <= blocks.len(),
    ensures
        free_bytes(blocks_after_join(blocks, g, b)) == free_bytes(blocks) + 8 * b.n,
{
    let tp = touches_prev(blocks, g, b);
    let tn = touches_next(blocks, g, b);
    let lo = if tp {
        g - 1
    } else {
        g
    };
    let hi = if tn {
        g + 1
    } else {
        g
    };
    let j = blocks_after_join(blocks, g, b);
    let x = blocks.take(lo);
    let y = blocks.subrange(lo, hi);
    let z = blocks.skip(hi);
    assert(blocks =~= x + y + z);
    lemma_free_bytes_concat(x, y);
    lemma_free_bytes_concat(x + y, z);
    let whole = j[lo];
    assert(j =~= x + seq![whole] + z);
    lemma_free_bytes_concat(x, seq![whole]);
    lemma_free_bytes_concat(x + seq![whole], z);
    lemma_free_bytes_one(whole);
    if tp && tn {
        assert(y =~= seq![blocks[g - 1]] + seq![blocks[g]]);
        lemma_free_bytes_concat(seq![blocks[g - 1]], seq![blocks[g]]);
        lemma_free_bytes_one(blocks[g - 1]);
        lemma_free_bytes_one(blocks[g]);
    } else if tp {
        assert(y =~= seq![blocks[g - 1]]);
        lemma_free_bytes_one(blocks[g - 1]);
    } else if tn {
        assert(y =~= seq![blocks[g]]);
        lemma_free_bytes_one(blocks[g]);
    } else {
        assert(y =~= Seq::empty());
    }
}

/// A heap that was just set up is one sound free block with all of its bytes.
pub proof fn law_new_heap_is_one_block(a: LinkedListAllocator, mem: Seq<u64>)
    requires
        heap_ok(a, mem),
        a.head == a.start,
    ensures
        ({
            let m = put(put(mem, a.start as int, HEAP_SIZE), a.start + 8, 0);
            let blocks = seq![Block { w: start_word(a), n: 0x100_0000 }];
            free_list(a, m, blocks) && free_bytes(blocks) == HEAP_SIZE
        }),
{
    let s = start_word(a);
    assert(va_of(s) == a.start);
    lemma_put(mem, s, HEAP_SIZE);
    lemma_put(set_word(mem, s, HEAP_SIZE), s, 0);
    lemma_free_bytes_one(Block { w: s, n: 0x100_0000 });
}

/// The block of an allocation is found by its header, and giving it back makes the free
/// blocks what they were.
proof fn lemma_allocated_block(
    a: LinkedListAllocator,
    mem: Seq<u64>,
    blocks: Seq<Block>,
    k: int,
    size: u64,
    align: int,
)
    requires
        free_list(a, mem, blocks),
        0 <= k < blocks.len(),
        align >= 8,
        align % 8 == 0,
        8 * blocks[k].n >= a.needed(va_of(blocks[k].w), size as int, align),
        a.allocated_bytes + 8 * blocks[k].n <= u64::MAX,
    ensures
        ({
            let b = blocks[k];
            let t = needed_words(a, b.w, size as int, align);
            let u = Block { w: b.w, n: taken_words(b.n, t) };
            let left = blocks_after_cut(blocks, k, t);
            let (a2, m) = after_cut(
                a,
                mem,
                addr_of(blocks, k - 1) as u64,
                addr_of(blocks, k) as u64,
                size,
                align,
            );
            let ptr = a.data_start(va_of(b.w), align);
            &&& at(m, ptr - a.header()) == va_of(u.w) == va_of(u.w) as u64
            &&& at(m, ptr - a.header() + 8) == 8 * u.n == (8 * u.n) as u64
            &&& a2.allocated_bytes == a.allocated_bytes + 8 * u.n
            &&& start_word(a2) == start_word(a)
            &&& free_list(a2, m, left)
            &&& block_ok(start_word(a), u)
            &&& is_used(left, u)
            &&& blocks_after_join(left, gap(left, 0, u.w), u) == blocks
        }),
{
    let b = blocks[k];
    let t = needed_words(a, b.w, size as int, align);
    let d = data_word(a, b.w, align);
    lemma_placement(a, b.w, size as int, align);
    assert(block_ok(start_word(a), b));
    law_allocation_keeps_the_list_sound(a, mem, blocks, k, size, align);
    lemma_cut(a, mem, blocks, k, size, align, t, d);
    let (a2, m) = after_cut(
        a,
        mem,
        addr_of(blocks, k - 1) as u64,
        addr_of(blocks, k) as u64,
        size,
        align,
    );
    lemma_at(m, d - header_words(a));
    law_free_undoes_allocation(start_word(a), blocks, k, t);
}

/// Joining a block to the list leaves the count of bytes handed out alone.
proof fn lemma_join_keeps_count(
    a: LinkedListAllocator,
    mem: Seq<u64>,
    prev: u64,
    next: u64,
    block: u64,
    bytes: u64,
)
    ensures
        after_join(a, mem, prev, next, block, bytes).0.allocated_bytes == a.allocated_bytes,
{
}

/// An allocation that is given back at once leaves the heap as it was: the same list of
/// free blocks in memory, and the same number of bytes handed out.
pub proof fn law_free_after_allocation_restores_the_heap(
    a: LinkedListAllocator,
    mem: Seq<u64>,
    blocks: Seq<Block>,
    k: int,
    size: u64,
    align: int,
)
    requires
        free_list(a, mem, blocks),
        0 <= k < blocks.len(),
        align >= 8,
        align % 8 == 0,
        8 * blocks[k].n >= a.needed(va_of(blocks[k].w), size as int, align),
        a.allocated_bytes + 8 * blocks[k].n <= u64::MAX,
    ensures
        ({
            let (a2, m) = after_cut(
                a,
                mem,
                addr_of(blocks, k - 1) as u64,
                addr_of(blocks, k) as u64,
                size,
                align,
            );
            let ptr = a.data_start(va_of(blocks[k].w), align);
            let block = at(m, ptr - a.header());
            let bytes = at(m, ptr - a.header() + 8);
            let counted = LinkedListAllocator {
                allocated_bytes: a2.allocated_bytes.saturating_sub(bytes),
                ..a2
            };
            let place = find_place(counted, m, block);
            &&& place is Between
            &&& ({
                let (a3, m3) = after_join(counted, m, place->prev, place->next, block, bytes);
                free_list(a3, m3, blocks) && a3.allocated_bytes == a.allocated_bytes
            })
        }),
{
    let b = blocks[k];
    let t = needed_words(a, b.w, size as int, align);
    let u = Block { w: b.w, n: taken_words(b.n, t) };
    let (a2, m) = after_cut(
        a,
        mem,
        addr_of(blocks, k - 1) as u64,
        addr_of(blocks, k) as u64,
        size,
        align,
    );
    let bytes = (8 * u.n) as u64;
    let counted = LinkedListAllocator {
        allocated_bytes: a2.allocated_bytes.saturating_sub(bytes),
        ..a2
    };
    lemma_allocated_block(a, mem, blocks, k, size, align);
    law_free_keeps_the_list_sound(counted, m, blocks_after_cut(blocks, k, t), u);
    let place = find_place(counted, m, va_of(u.w) as u64);
    lemma_join_keeps_count(counted, m, place->prev, place->next, va_of(u.w) as u64, bytes);
}

/// The search for `size` bytes finds the first free block that is big enough, and with it
/// the block before it; it finds nothing where there is none.
pub proof fn law_search_finds_the_first_fit(
    a: LinkedListAllocator,
    mem: Seq<u64>,
    blocks: Seq<Block>,
    size: int,
    align: int,
)
    requires
        free_list(a, mem, blocks),
    ensures
        ({
            let k = first_fit(a, blocks, 0, size, align);
            &&& 0 <= k <= blocks.len()
            &&& k < blocks.len() ==> 8 * blocks[k].n >= a.needed(va_of(blocks[k].w), size, align)
            &&& forall|i: int|
                0 <= i < k ==> 8 * (#[trigger] blocks[i]).n < a.needed(
                    va_of(blocks[i].w),
                    size,
                    align,
                )
            &&& search_all(a, mem, size, align) == (if k < blocks.len() {
                Search::Found {
                    prev: addr_of(blocks, k - 1) as u64,
                    block: addr_of(blocks, k) as u64,
                }
            } else {
                Search::Nothing
            })
        }),
{
    lemma_search_all(a, mem, blocks, size, align);
    lemma_first_fit_is_first(a, blocks, 0, size, align);
}

/// Two parts of a word, taken apart and joined again.
proof fn lemma_rejoined(w0: u64, w1: u64, v: u64, k: int)
    requires
        0 < k < 8,
    ensures
        ({
            let lo = w0 as int % bytes_unit(k) + v as int % bytes_unit(8 - k) * bytes_unit(k);
            let hi = w1 as int / bytes_unit(k) * bytes_unit(k) + v as int / bytes_unit(8 - k);
            &&& 0 <= lo <= u64::MAX
            &&& 0 <= hi <= u64::MAX
            &&& lo / bytes_unit(k) + hi % bytes_unit(k) * bytes_unit(8 - k) == v
        }),
{
    assert(bytes_unit(k) * bytes_unit(8 - k) == 0x1_0000_0000_0000_0000) by {
        if k == 1 {
        } else if k == 2 {
        } else if k == 3 {
        } else if k == 4 {
        } else if k == 5 {
        } else if k == 6 {
        } else {
            assert(k == 7);
        }
    }
    lemma_rejoined_at(w0 as int, w1 as int, v as int, bytes_unit(k), bytes_unit(8 - k));
}

proof fn lemma_rejoined_at(w0: int, w1: int, v: int, u: int, w: int)
    requires
        u > 0,
        w > 0,
        u * w == 0x1_0000_0000_0000_0000,
        0 <= w0 < u * w,
        0 <= w1 < u * w,
        0 <= v < u * w,
    ensures
        0 <= w0 % u + v % w * u < u * w,
        0 <= w1 / u * u + v / w < u * w,
        (w0 % u + v % w * u) / u + (w1 / u * u + v / w) % u * w == v,
{
    let (x, y) = (v % w, v / w);
    lemma_fundamental_div_mod(v, w);
    lemma_fundamental_div_mod(w1, u);
    lemma_mod_bound(v, w);
    lemma_mod_bound(w0, u);
    lemma_mod_bound(w1, u);
    let q = w1 / u;
    assert(0 <= y < u) by (nonlinear_arith)
        requires
            v == w * y + x,
            0 <= x < w,
            0 <= v < u * w,
            w > 0,
    ;
    assert(0 <= q < w) by (nonlinear_arith)
        requires
            w1 == u * q + w1 % u,
            0 <= w1 % u < u,
            0 <= w1 < u * w,
            u > 0,
    ;
    assert(0 <= x * u <= (w - 1) * u && 0 <= q * u <= (w - 1) * u) by (nonlinear_arith)
        requires
            0 <= x <= w - 1,
            0 <= q <= w - 1,
            u > 0,
    ;
    assert((w - 1) * u == u * w - u) by (nonlinear_arith);
    lemma_fundamental_div_mod_converse(w0 % u + x * u, u, x, w0 % u);
    lemma_fundamental_div_mod_converse(q * u + y, u, q, y);
    assert(y * w == w * y) by (nonlinear_arith);
}

/// Bytes that were put into memory are there.
proof fn lemma_get_put_bytes(mem: Seq<u64>, va: int, v: u64)
    requires
        PHYS_OFF <= va,
        va + 8 <= va_of(mem.len() as int),
    ensures
        get_bytes(put_bytes(mem, va, v), va) == v,
{
    reveal(put);
    reveal(at);
    let k = va % 8;
    let w = (va - PHYS_OFF) / 8;
    assert(PHYS_OFF as int % 8 == 0);
    if k != 0 {
        assert((va + 8 - PHYS_OFF) / 8 == w + 1);
        lemma_rejoined(at(mem, va), at(mem, va + 8), v, k);
    }
}

/// The guard words of an allocation are in order once they are in place.
proof fn lemma_guarded(a: LinkedListAllocator, mem: Seq<u64>, d: int, size: u64)
    requires
        d >= 2,
        8 * d + size + 8 <= 8 * mem.len(),
        va_of(d) + size <= u64::MAX,
    ensures
        canary_fault(a, with_canaries(a, mem, va_of(d), size), va_of(d) as u64) is None,
{
    if a.canary {
        let data = va_of(d);
        lemma_put(mem, d - 1, CANARY_FRONT);
        let m1 = put(mem, data - 8, CANARY_FRONT);
        lemma_put(m1, d - 2, size);
        let m2 = put(m1, data - 16, size);
        let m = put_bytes(m2, data + size, CANARY_REAR);
        lemma_put_bytes(m2, data + size, CANARY_REAR, d, mem.len() as int);
        lemma_get_put_bytes(m2, data + size, CANARY_REAR);
        lemma_at(m, d - 1);
        lemma_at(m, d - 2);
        assert(word_at(m, d - 1) == word_at(m2, d - 1));
        assert(word_at(m, d - 2) == word_at(m2, d - 2));
        assert((data as u64).wrapping_add(size) == data + size);
    }
}

/// Cutting an allocation leaves the length of memory alone.
proof fn lemma_cut_guarded(
    a: LinkedListAllocator,
    mem: Seq<u64>,
    prev: u64,
    block: u64,
    size: u64,
    align: int,
    d: int,
)
    requires
        a.data_start(block as int, align) == va_of(d),
        d >= 2,
        8 * d + size + 8 <= 8 * mem.len(),
        va_of(d) + size <= u64::MAX,
    ensures
        ({
            let (a2, m) = after_cut(a, mem, prev, block, size, align);
            canary_fault(a2, m, va_of(d) as u64) is None
        }),
{
    reveal(put);
    let bsize = at(mem, block as int) as int;
    let next = at(mem, block + 8);
    let total = a.needed(block as int, size as int, align);
    let rest = (block + total) as u64;
    let link = if splits(bsize, total) {
        rest
    } else {
        next
    };
    let cut = if splits(bsize, total) {
        put(put(mem, rest as int, (bsize - total) as u64), rest + 8, next)
    } else {
        mem
    };
    let joined = linked(cut, prev, link);
    let headed = put(
        put(joined, va_of(d) - a.header(), block),
        va_of(d) - a.header() + 8,
        taken(bsize, total) as u64,
    );
    assert(headed.len() == mem.len());
    lemma_guarded(a, headed, d, size);
    let (a2, m) = after_cut(a, mem, prev, block, size, align);
    assert(m == with_canaries(a, headed, va_of(d), size));
}

/// Giving back what was just allocated restores the heap, also where allocations carry guard
/// words: these are in order, the header leads to the block, and freeing it ends without a
/// fault in the same list of free blocks and with the same number of bytes handed out.
pub proof fn law_dealloc_undoes_allocate(
    a: LinkedListAllocator,
    mem: Seq<u64>,
    blocks: Seq<Block>,
    size: u64,
    align: int,
)
    requires
        free_list(a, mem, blocks),
        align >= 8,
        align % 8 == 0,
        a.allocated_bytes + HEAP_SIZE <= u64::MAX,
        search_all(a, mem, size as int, align) is Found,
    ensures
        ({
            let found = search_all(a, mem, size as int, align);
            let (a2, m) = after_cut(a, mem, found->prev, found->block, size, align);
            let ptr = a.data_start(found->block as int, align);
            let block = at(m, ptr - a.header());
            let bytes = at(m, ptr - a.header() + 8);
            let counted = LinkedListAllocator {
                allocated_bytes: a2.allocated_bytes.saturating_sub(bytes),
                ..a2
            };
            let place = find_place(counted, m, block);
            &&& a.header() <= ptr <= u64::MAX
            &&& canary_fault(a2, m, ptr as u64) is None
            &&& link_fault(a2.start, block) is None
            &&& place is Between
            &&& ({
                let (a3, m3) = after_join(counted, m, place->prev, place->next, block, bytes);
                free_list(a3, m3, blocks) && a3 == a
            })
        }),
{
    lemma_search_all(a, mem, blocks, size as int, align);
    let k = first_fit(a, blocks, 0, size as int, align);
    let b = blocks[k];
    let t = needed_words(a, b.w, size as int, align);
    let d = data_word(a, b.w, align);
    lemma_links(a, mem, blocks, k);
    lemma_links(a, mem, blocks, k - 1);
    assert(block_ok(start_word(a), b));
    lemma_placement(a, b.w, size as int, align);
    lemma_link_ok(a, b.w, b.n);
    assert(va_of(start_word(a)) == a.start);
    law_free_after_allocation_restores_the_heap(a, mem, blocks, k, size, align);
    lemma_allocated_block(a, mem, blocks, k, size, align);
    let prev = addr_of(blocks, k - 1) as u64;
    let block = addr_of(blocks, k) as u64;
    if a.canary {
        lemma_cut_guarded(a, mem, prev, block, size, align, d);
    }
}

/// Word `x` lies in a free block.
pub open spec fn covers(blocks: Seq<Block>, x: int) -> bool {
    exists|i: int|
        0 <= i < blocks.len() && (#[trigger] blocks[i]).w <= x < blocks[i].w + blocks[i].n
}

/// Putting a block into the list of free blocks makes exactly its words free: the list then
/// covers what it covered before and the block.  It stays in order, no two of its blocks
/// touch, and it is what memory holds.
pub proof fn law_inserted_block_is_free(
    a: LinkedListAllocator,
    mem: Seq<u64>,
    blocks: Seq<Block>,
    b: Block,
    x: int,
)
    requires
        free_list(a, mem, blocks),
        block_ok(start_word(a), b),
        is_used(blocks, b),
    ensures
        ({
            let place = find_place(a, mem, va_of(b.w) as u64);
            let joined = blocks_after_join(blocks, gap(blocks, 0, b.w), b);
            &&& place is Between
            &&& ({
                let (a2, m) = after_join(
                    a,
                    mem,
                    place->prev,
                    place->next,
                    va_of(b.w) as u64,
                    (8 * b.n) as u64,
                );
                free_list(a2, m, joined)
            })
            &&& apart(joined)
            &&& covers(joined, x) <==> covers(blocks, x) || b.w <= x < b.w + b.n
        }),
{
    law_free_keeps_the_list_sound(a, mem, blocks, b);
    lemma_place(a, mem, blocks, b);
    assert forall|i: int| 0 <= i < blocks.len() implies (#[trigger] blocks[i]).n >= 2 by {
        assert(block_ok(start_word(a), blocks[i]));
    }
    lemma_join_covers(blocks, gap(blocks, 0, b.w), b, x);
}

/// Joining a block to the blocks that it touches adds its words.
#[verifier::spinoff_prover]
proof fn lemma_join_covers(blocks: Seq<Block>, g: int, b: Block, x: int)
    requires
        0 <= g <= blocks.len(),
        b.n >= 2,
        forall|i: int| 0 <= i < blocks.len() ==> (#[trigger] blocks[i]).n >= 2,
    ensures
        covers(blocks_after_join(blocks, g, b), x) <==> covers(blocks, x) || b.w <= x < b.w + b.n,
{
    let joined = blocks_after_join(blocks, g, b);
    let tp = touches_prev(blocks, g, b);
    let tn = touches_next(blocks, g, b);
    let at: int = if tp {
        g - 1
    } else {
        g
    };
    let skipped: int = if tn {
        g + 1
    } else {
        g
    };
    assert(joined.len() == at + 1 + (blocks.len() - skipped));
    assert(forall|i: int| 0 <= i < at ==> joined[i] == blocks[i]);
    assert(forall|i: int| at < i < joined.len() ==> joined[i] == blocks[i - at - 1 + skipped]);
    if covers(joined, x) {
        let i = choose|i: int|
            0 <= i < joined.len() && (#[trigger] joined[i]).w <= x < joined[i].w + joined[i].n;
        if i < at {
            assert(blocks[i].w <= x < blocks[i].w + blocks[i].n);
        } else if i > at {
            let o = i - at - 1 + skipped;
            assert(blocks[o].w <= x < blocks[o].w + blocks[o].n);
        } else if x < b.w {
            assert(blocks[g - 1].w <= x < blocks[g - 1].w + blocks[g - 1].n);
        } else if x >= b.w + b.n {
            assert(blocks[g].w <= x < blocks[g].w + blocks[g].n);
        }
    }
    if b.w <= x < b.w + b.n {
        assert(joined[at].w <= x < joined[at].w + joined[at].n);
    }
    if covers(blocks, x) {
        let i = choose|i: int|
            0 <= i < blocks.len() && (#[trigger] blocks[i]).w <= x < blocks[i].w + blocks[i].n;
        if i < at {
            assert(joined[i].w <= x < joined[i].w + joined[i].n);
        } else if i >= skipped {
            let o = i + at + 1 - skipped;
            assert(joined[o] == blocks[i]);
            assert(joined[o].w <= x < joined[o].w + joined[o].n);
        } else {
            assert(joined[at].w <= x < joined[at].w + joined[at].n);
        }
    }
}

} // verus!
