//! What the page cache promises: which page is found under which key, what becomes of frames
//! that it gives up, and what loading a file ahead leaves to be read.
use vstd::prelude::*;
use crate::mm::cache::{
    chunk_cached, chunk_key, chunk_len, chunk_start, cleaned, frames_after_release, key_lt,
    sample_of, tlb_after_release, CacheKey, CacheView, CachedPage, Load, Prepopulate,
};
use crate::mm::physmem::{byte_at, frame_words, page_from, slot};
use crate::mm::physmem_laws::law_page_holds_the_data;
use crate::mm::pmm::FramesView;
use crate::mm::refcount::RefCountsView;
use crate::mm::tlb::TlbView;
use crate::mm::vmm::{lemma_some_choice, lemma_words_apart};

verus! {

/// Keys are in order by mount, by inode where the mounts are equal, and by offset where the
/// inodes are equal too.  Any two different keys are in one order.
pub proof fn law_keys_are_in_order(a: CacheKey, b: CacheKey, c: CacheKey)
    ensures
        a.mount < b.mount ==> key_lt(a, b),
        a.mount == b.mount && a.inode < b.inode ==> key_lt(a, b),
        a.mount == b.mount && a.inode == b.inode && a.page_offset < b.page_offset ==> key_lt(a, b),
        !(key_lt(a, b) && key_lt(b, a)),
        a == b || key_lt(a, b) || key_lt(b, a),
        key_lt(a, b) && key_lt(b, c) ==> key_lt(a, c),
{
}

/// With diagnostics on, a frame of the kernel's image is not taken in; every other is.
pub proof fn law_kernel_frames_are_refused(c: CacheView, f: FramesView, phys: u64)
    ensures
        c.refuses(f, phys) <==> c.diag && f.pmm.kernel_base > 0 && f.pmm.kernel_end > 0
            && f.pmm.kernel_base <= phys && phys < f.pmm.kernel_end,
{
}

/// A watch is armed for a page of one of four files on the data mount, whose frame lies between
/// 256 MiB and 1 GiB, unless a file is loaded ahead.
pub proof fn law_which_pages_are_watched(c: CacheView, key: CacheKey, phys: u64)
    ensures
        c.prearms(key, phys) <==> c.diag && !c.prepopulating && key.mount == 4 && (key.inode == 155
            || key.inode == 265 || key.inode == 283 || key.inode == 289) && phys >= 0x1000_0000
            && phys < 0x4000_0000 && phys % 4096 == 0,
{
}

/// A page that is put in is clean, under its own key, and no other page changes.
pub proof fn law_new_page_is_clean(c: CacheView, key: CacheKey, phys: u64, other: CacheKey)
    ensures
        c.with_page(key, phys).pages.contains_key(key),
        c.with_page(key, phys).pages[key] == (CachedPage { phys, dirty: false }),
        other != key ==> c.with_page(key, phys).frame(other) == c.frame(other),
        other != key && c.pages.contains_key(other) ==> c.with_page(key, phys).pages[other]
            == c.pages[other],
{
}

/// The cache holds one reference to each frame under each key: a new page takes one for its
/// frame, and the page it replaces gives up its own.  The frame of that one is released exactly
/// where it was the last.
pub proof fn law_replaced_page_gives_up_its_reference(
    c: CacheView,
    refs: RefCountsView,
    key: CacheKey,
    phys: u64,
)
    requires
        refs.wf(),
        refs.counts is Some,
        phys < 0x1_0000_0000,
        refs.count(phys) < u16::MAX,
    ensures
        ({
            let after = c.counts_after_insert(refs, key, phys);
            let released = c.released_by_insert(refs, key, phys);
            let was = c.pages[key].phys;
            &&& !c.pages.contains_key(key) ==> after.count(phys) == refs.count(phys) + 1 && released
                is None
            &&& c.pages.contains_key(key) && was as int / 4096 == phys as int / 4096
                ==> after.count(phys) == refs.count(phys) && (released is Some <==> refs.count(phys)
                == 0)
            &&& c.pages.contains_key(key) && was as int / 4096 != phys as int / 4096 ==> {
                &&& after.count(phys) == refs.count(phys) + 1
                &&& after.count(was) == if refs.count(was) > 0 {
                    refs.count(was) - 1
                } else {
                    0
                }
                &&& released is Some <==> refs.count(was) <= 1
                &&& released matches Some(p) ==> p == was
            }
        }),
{
}

/// A released frame waits in the quarantine with the tick of its release; where the 256 places
/// are taken it is freed at once.
pub proof fn law_released_frame_is_quarantined(
    f: FramesView,
    t: TlbView,
    phys: u64,
    tick: u64,
)
    requires
        phys > 0,
    ensures
        t.quarantine.len() < 256 ==> {
            let after = tlb_after_release(t, Some(phys), tick);
            &&& after.quarantine.last().phys == phys
            &&& after.quarantine.last().enqueue_tick == tick
            &&& after.quarantine.len() == t.quarantine.len() + 1
            &&& frames_after_release(f, t, Some(phys), tick) == f
        },
        t.quarantine.len() >= 256 ==> tlb_after_release(t, Some(phys), tick) == t
            && frames_after_release(f, t, Some(phys), tick) == f.after_free(phys, tick),
        tlb_after_release(t, None, tick) == t,
        frames_after_release(f, t, None, tick) == f,
{
}

/// Writing back a file leaves its pages clean, in their frames, and the pages of every other
/// file as they were.
pub proof fn law_written_back_file_is_clean(
    pages: Map<CacheKey, CachedPage>,
    mount: usize,
    inode: u64,
    key: CacheKey,
)
    ensures
        ({
            let after = cleaned(pages, mount, inode);
            &&& after.contains_key(key) == pages.contains_key(key)
            &&& pages.contains_key(key) ==> after[key].phys == pages[key].phys
            &&& pages.contains_key(key) && key.mount == mount && key.inode == inode
                ==> !after[key].dirty
            &&& pages.contains_key(key) && (key.mount != mount || key.inode != inode)
                ==> after[key].dirty == pages[key].dirty
        }),
{
}

/// A sample is the first 64 bytes of a frame.
pub proof fn law_sample_is_the_start(mem: Seq<u64>, phys: u64, i: int)
    requires
        0 <= i < 64,
    ensures
        sample_of(mem, phys).len() == 64,
        sample_of(mem, phys)[i] == byte_at(mem, phys + i),
{
}

/// A chunk is 2 MiB long, less at the end of the file, and starts at a multiple of that.
pub proof fn law_chunks_cut_the_file(file_size: u64, offset: u64)
    requires
        offset < file_size,
    ensures
        chunk_start(offset) % 0x20_0000 == 0,
        chunk_start(offset) <= offset < chunk_start(offset) + 0x20_0000,
        ({
            let len = chunk_len(file_size, chunk_start(offset));
            &&& offset < chunk_start(offset) + len
            &&& chunk_start(offset) + len <= file_size
            &&& len == 0x20_0000 || chunk_start(offset) + len == file_size
            &&& len <= 0x20_0000
        }),
{
}

/// A chunk is in the cache where every page of it is: at every multiple of 4096 from its start
/// up to its end.
pub proof fn law_cached_chunk_has_every_page(
    c: CacheView,
    mount: usize,
    inode: u64,
    start: u64,
    len: u64,
)
    requires
        start + len <= u64::MAX,
        start % 4096 == 0,
    ensures
        chunk_cached(c, mount, inode, start, len) <==> forall|at: u64|
            start <= at < start + len && at % 4096 == 0 ==> #[trigger] c.pages.contains_key(
                CacheKey { mount, inode, page_offset: at },
            ),
{
    if chunk_cached(c, mount, inode, start, len) {
        assert forall|at: u64| start <= at < start + len && at % 4096 == 0 implies #[trigger] c.pages.contains_key(
            CacheKey { mount, inode, page_offset: at },
        ) by {
            let i = (at - start) / 4096;
            assert(at == start + i * 4096);
            assert(c.pages.contains_key(chunk_key(mount, inode, start, i * 4096)));
        }
    }
    if forall|at: u64|
        start <= at < start + len && at % 4096 == 0 ==> #[trigger] c.pages.contains_key(
            CacheKey { mount, inode, page_offset: at },
        ) {
        assert forall|i: int| 0 <= i && i * 4096 < len implies c.pages.contains_key(
            #[trigger] chunk_key(mount, inode, start, i * 4096),
        ) by {
            let at = (start + i * 4096) as u64;
            assert(c.pages.contains_key(CacheKey { mount, inode, page_offset: at }));
        }
    }
}

/// The next chunk to read is the first that lacks a page: every page of the file before it is in
/// the cache; and where none is to be read, every page is.
pub proof fn law_next_chunk_lacks_a_page(p: Prepopulate, c: CacheView, offset: u64, at: u64)
    requires
        offset % 0x20_0000 == 0 || offset >= p.file_size,
        offset <= at,
        at < p.file_size,
        at % 4096 == 0,
    ensures
        ({
            let next = p.missing_from(c, offset);
            &&& next is None || at < next->0 ==> c.pages.contains_key(
                CacheKey { mount: p.mount, inode: p.inode, page_offset: at },
            )
            &&& next matches Some(start) ==> {
                &&& offset <= start < p.file_size
                &&& start % 0x20_0000 == 0
                &&& !chunk_cached(c, p.mount, p.inode, start, chunk_len(p.file_size, start))
            }
        }),
    decreases p.file_size - offset,
{
    if offset < p.file_size {
        let start = chunk_start(offset);
        let len = chunk_len(p.file_size, start);
        assert(start == offset);
        law_cached_chunk_has_every_page(c, p.mount, p.inode, start, len);
        if chunk_cached(c, p.mount, p.inode, start, len) {
            if at < start + len {
                assert(c.pages.contains_key(
                    CacheKey { mount: p.mount, inode: p.inode, page_offset: at },
                ));
                lemma_missing_bounds(p, c, (start + len) as u64);
            } else {
                law_next_chunk_lacks_a_page(p, c, (start + len) as u64, at);
            }
        }
    }
}

proof fn lemma_missing_bounds(p: Prepopulate, c: CacheView, offset: u64)
    requires
        offset % 0x20_0000 == 0 || offset >= p.file_size,
    ensures
        p.missing_from(c, offset) matches Some(start) ==> {
            &&& offset <= start < p.file_size
            &&& start % 0x20_0000 == 0
            &&& !chunk_cached(c, p.mount, p.inode, start, chunk_len(p.file_size, start))
        },
    decreases p.file_size - offset,
{
    if offset < p.file_size {
        let start = chunk_start(offset);
        let len = chunk_len(p.file_size, start);
        if chunk_cached(c, p.mount, p.inode, start, len) && start + len > offset {
            lemma_missing_bounds(p, c, (start + len) as u64);
        }
    }
}

/// Nothing more is read once it was ended, or where fewer than 20000 frames are free.
pub proof fn law_loading_ahead_leaves_frames(p: Prepopulate, c: CacheView, free: u64)
    ensures
        p.done || free < 20000 ==> p.next(c, free) is None,
        !p.done && free >= 20000 ==> p.next(c, free) == p.missing_from(c, p.offset),
{
}

/// A chunk for which frames ran out is tried again, up to 512 times, as long as each try after
/// the first puts in a page.
pub proof fn law_when_a_chunk_is_tried_again(p: Prepopulate, e: Load)
    ensures
        p.tried_again(e) <==> e.short && p.tries < 512 && (p.tries == 0 || e.cached > 0),
{
}

/// A page that is loaded goes to a frame that was free, is found there under its key, and holds
/// the data; without a free frame nothing changes in the cache.
pub proof fn law_loaded_page_is_found(s: Load, key: CacheKey, data: Seq<u8>, at: int, now: u64)
    ensures
        ({
            let after = s.page_loaded(key, data, at, now);
            let got = s.frames.allocated(now).0;
            &&& got is None ==> after.short && after.cache == s.cache && after.cached == s.cached
                && after.mem == s.mem
            &&& got is Some && !s.cache.diag ==> !after.short && after.cache.frame(key) == got
                && after.cached == s.cached + 1
        }),
{
}

/// Frames can be handed out: no sweep is due, and every free frame lies in memory.
spec fn ready(s: Load, now: u64) -> bool {
    &&& !s.cache.diag
    &&& !s.short
    &&& !s.frames.sweep_due(now)
    &&& forall|p: int|
        #[trigger] s.frames.pmm.free.contains(p) ==> 0 <= p < 0x10_0000 && p * 512 + 512
            <= s.mem.len()
}

/// A page is in the cache, in a frame that is not free, and holds these words.
spec fn holds(s: Load, key: CacheKey, phys: u64, words: Seq<u64>) -> bool {
    &&& s.cache.frame(key) == Some(phys)
    &&& phys % 4096 == 0
    &&& !s.frames.pmm.free.contains(phys as int / 4096)
    &&& phys as int / 8 + 512 <= s.mem.len()
    &&& frame_words(s.mem, phys) == words
}

proof fn lemma_one_page(s: Load, key: CacheKey, data: Seq<u8>, at: int, now: u64)
    requires
        ready(s, now),
        !s.cache.pages.contains_key(key),
        !s.page_loaded(key, data, at, now).short,
    ensures
        ({
            let d = s.page_loaded(key, data, at, now);
            let phys = d.cache.frame(key)->0;
            &&& ready(d, now)
            &&& holds(d, key, phys, page_from(data, at))
            &&& forall|k: CacheKey, p: u64, w: Seq<u64>|
                k != key && #[trigger] holds(s, k, p, w) ==> holds(d, k, p, w)
            &&& forall|k: CacheKey|
                k != key ==> #[trigger] d.cache.pages.contains_key(k) == s.cache.pages.contains_key(
                    k,
                )
        }),
{
    let d = s.page_loaded(key, data, at, now);
    assert(!s.frames.pmm.free.is_empty());
    lemma_some_choice(s.frames.pmm);
    let page = s.frames.pmm.next_page();
    let phys = (page * 4096) as u64;
    assert(s.frames.pmm.free.contains(page));
    assert(d.frames.pmm.free == s.frames.pmm.free.remove(page));
    assert(d.cache.frame(key) == Some(phys));
    assert(page_from(data, at).len() == 512);
    assert(frame_words(d.mem, phys) =~= page_from(data, at));
    assert forall|k: CacheKey, p: u64, w: Seq<u64>|
        k != key && #[trigger] holds(s, k, p, w) implies holds(d, k, p, w) by {
        assert(p != phys);
        assert forall|i: int| 0 <= i < 512 implies slot(d.mem, p, i) == #[trigger] slot(s.mem, p, i) by {
            lemma_words_apart(p, phys, i, 0);
        }
        assert(frame_words(d.mem, p) =~= frame_words(s.mem, p));
    }
}

proof fn lemma_filled(
    s: Load,
    mount: usize,
    inode: u64,
    start: u64,
    len: u64,
    data: Seq<u8>,
    from: int,
    at: int,
    now: u64,
)
    requires
        ready(s, now),
        0 <= from,
        from % 4096 == 0,
        0 <= at < len,
        at % 4096 == 0,
        start + len <= u64::MAX,
        !s.filled(mount, inode, start, len, data, from, now).short,
    ensures
        ({
            let d = s.filled(mount, inode, start, len, data, from, now);
            let key = chunk_key(mount, inode, start, at);
            &&& from <= at && !s.cache.pages.contains_key(key) ==> holds(
                d,
                key,
                d.cache.frame(key)->0,
                page_from(data, at),
            )
            &&& forall|p: u64, w: Seq<u64>| #[trigger] holds(s, key, p, w) ==> holds(d, key, p, w)
        }),
    decreases len + 4096 - from,
{
    reveal_with_fuel(Load::filled, 2);
    let key = chunk_key(mount, inode, start, from);
    let want = chunk_key(mount, inode, start, at);
    if from < len {
        if s.cache.pages.contains_key(key) {
            lemma_filled(s, mount, inode, start, len, data, from + 4096, at, now);
        } else {
            let next = s.page_loaded(key, data, from, now);
            if !next.short {
                lemma_one_page(s, key, data, from, now);
                lemma_filled(next, mount, inode, start, len, data, from + 4096, at, now);
                if from != at {
                    assert(key != want);
                } else {
                    assert(holds(next, want, next.cache.frame(want)->0, page_from(data, at)));
                }
                assert forall|p: u64, w: Seq<u64>| #[trigger] holds(s, want, p, w) implies holds(
                    s.filled(mount, inode, start, len, data, from, now),
                    want,
                    p,
                    w,
                ) by {
                    if from == at {
                        assert(s.cache.pages.contains_key(key));
                    }
                }
            }
        }
    }
}

/// Every page that loading a chunk puts in holds the bytes of the file at its place, once the
/// whole chunk is in: the byte at offset `at + i` of the data, and zeros behind their end.
pub proof fn law_loaded_chunk_holds_the_file(
    s: Load,
    mount: usize,
    inode: u64,
    start: u64,
    len: u64,
    data: Seq<u8>,
    at: int,
    i: int,
    now: u64,
)
    requires
        !s.cache.diag,
        !s.short,
        !s.frames.sweep_due(now),
        forall|p: int|
            #[trigger] s.frames.pmm.free.contains(p) ==> 0 <= p < 0x10_0000 && p * 512 + 512
                <= s.mem.len(),
        0 <= at < len,
        at % 4096 == 0,
        0 <= i < 4096,
        start + len <= u64::MAX,
        !s.cache.pages.contains_key(
            CacheKey { mount, inode, page_offset: (start + at) as u64 },
        ),
        !s.filled(mount, inode, start, len, data, 0, now).short,
    ensures
        ({
            let d = s.filled(mount, inode, start, len, data, 0, now);
            let key = CacheKey { mount, inode, page_offset: (start + at) as u64 };
            &&& d.cache.frame(key) matches Some(phys) && byte_at(d.mem, phys + i) == if at + i
                < data.len() {
                data[at + i]
            } else {
                0
            }
        }),
{
    lemma_filled(s, mount, inode, start, len, data, 0, at, now);
    let d = s.filled(mount, inode, start, len, data, 0, now);
    let key = chunk_key(mount, inode, start, at);
    let phys = d.cache.frame(key)->0;
    law_page_holds_the_data(data, at, i);
    assert(frame_words(d.mem, phys)[i / 8] == slot(d.mem, phys, i / 8));
    assert((phys + i) / 8 == phys as int / 8 + i / 8);
    assert((phys + i) % 8 == i % 8);
}

} // verus!
