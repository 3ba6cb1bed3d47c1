//! Cache of file pages, keyed by mount, inode and page-aligned file offset.
//!
//! A cached page is shared between all mappings of the same part of a file.  The
//! cache holds one reference of its own to each frame that it lists.
use vstd::prelude::*;
use crate::mm::heap::PHYS_OFF;
use crate::mm::physmem::{
    byte_at, data_byte, lemma_word_from, page_from, page_of_bytes, with_frame, PhysMem,
};
use crate::mm::pmm::{alloc_page, free_page_count, is_kernel_static_phys, Frames, FramesView, Pmm};
use crate::mm::refcount::{page_ref_count, page_ref_dec, page_ref_inc, RefCounts, RefCountsView};
use crate::mm::tlb::{quarantine_free, Tlb, TlbView, QUARANTINE_CAPACITY};

verus! {

/// Physical addresses below this one have a place in the direct map.
pub const DIRECT_MAP_SIZE: u64 = 0x0000_8000_0000_0000;

/// Mount of the files whose pages are watched from the moment they are cached.
pub const PREARM_MOUNT: usize = 4;

/// First frame that is worth watching.
pub const PREARM_PHYS_LO: u64 = 0x1000_0000;

/// End of the frames that are worth watching.
pub const PREARM_PHYS_HI: u64 = 0x4000_0000;

/// Bytes that one read of a whole-file load asks for.
pub const CHUNK_BYTES: u64 = 0x20_0000;

/// How often a chunk is tried again after frames ran out: once for each of its pages.
pub const CHUNK_TRIES: u64 = 512;

/// Free frames that a whole-file load leaves to the rest of the kernel.
pub const KEEP_FREE: u64 = 20_000;

/// Bytes of a page that are compared with what the file held.
pub const SAMPLE_BYTES: u64 = 64;

/// Names a page of a file.
#[derive(Clone, Copy, PartialEq, Eq, Structural, Debug)]
pub struct CacheKey {
    pub mount: usize,
    pub inode: u64,
    pub page_offset: u64,
}

/// A cached page.
#[derive(Clone, Copy, PartialEq, Eq, Structural, Debug)]
pub struct CachedPage {
    pub phys: u64,
    pub dirty: bool,
}

/// A page and its name.
#[derive(Clone, Copy)]
pub struct CacheEntry {
    pub key: CacheKey,
    pub page: CachedPage,
}

/// The page cache.
pub struct PageCache {
    /// In ascending order of the keys.
    pub entries: Vec<CacheEntry>,
    /// Frames are guarded against aliasing while they are put in.
    pub diag: bool,
    /// A whole-file load is under way.
    pub prepopulating: bool,
}

/// What the page cache holds.
#[verifier::ext_equal]
pub struct CacheView {
    pub pages: Map<CacheKey, CachedPage>,
    pub diag: bool,
    pub prepopulating: bool,
}

/// Order of the keys: by mount, then inode, then offset.
pub open spec fn key_lt(a: CacheKey, b: CacheKey) -> bool {
    a.mount < b.mount || (a.mount == b.mount && (a.inode < b.inode || (a.inode == b.inode
        && a.page_offset < b.page_offset)))
}

/// The keys ascend.
pub open spec fn ascending(s: Seq<CacheEntry>) -> bool {
    forall|i: int, j: int| 0 <= i < j < s.len() ==> key_lt(#[trigger] s[i].key, #[trigger] s[j].key)
}

/// Entry `i` has the key.
pub open spec fn named(s: Seq<CacheEntry>, i: int, key: CacheKey) -> bool {
    0 <= i < s.len() && s[i].key == key
}

/// The pages by their keys.
pub open spec fn pages_of(s: Seq<CacheEntry>) -> Map<CacheKey, CachedPage> {
    Map::new(
        |key: CacheKey| exists|i: int| #[trigger] named(s, i, key),
        |key: CacheKey| s[choose|i: int| #[trigger] named(s, i, key)].page,
    )
}

impl View for PageCache {
    type V = CacheView;

    open spec fn view(&self) -> CacheView {
        CacheView {
            pages: pages_of(self.entries@),
            diag: self.diag,
            prepopulating: self.prepopulating,
        }
    }
}

/// The inode is one of those whose pages are watched from the moment they are cached.
pub open spec fn prearm_inode(inode: u64) -> bool {
    inode == 0x9b || inode == 265 || inode == 283 || inode == 289
}

impl CacheView {
    /// The frame of the page, if it is cached.
    pub open spec fn frame(self, key: CacheKey) -> Option<u64> {
        if self.pages.contains_key(key) {
            Some(self.pages[key].phys)
        } else {
            None
        }
    }

    /// The keys under which the frame of `phys` is listed.
    pub open spec fn holders(self, phys: u64) -> Set<CacheKey> {
        self.pages.dom().filter(|key: CacheKey| self.pages[key].phys == phys)
    }

    /// Putting this frame in must be refused.
    pub open spec fn refuses(self, frames: FramesView, phys: u64) -> bool {
        self.diag && frames.pmm.kernel_static(phys)
    }

    /// The frame is to be watched once it is in.
    pub open spec fn prearms(self, key: CacheKey, phys: u64) -> bool {
        &&& self.diag
        &&& !self.prepopulating
        &&& key.mount == PREARM_MOUNT
        &&& prearm_inode(key.inode)
        &&& PREARM_PHYS_LO <= phys < PREARM_PHYS_HI
        &&& phys % 4096 == 0
    }

    /// With the page put in, clean.
    pub open spec fn with_page(self, key: CacheKey, phys: u64) -> CacheView {
        CacheView { pages: self.pages.insert(key, CachedPage { phys, dirty: false }), ..self }
    }

    /// With the page taken out.
    pub open spec fn without(self, key: CacheKey) -> CacheView {
        CacheView { pages: self.pages.remove(key), ..self }
    }

    /// The counts after the page was put in: one more for its frame, one less for
    /// the frame that it displaced.
    pub open spec fn counts_after_insert(
        self,
        refs: RefCountsView,
        key: CacheKey,
        phys: u64,
    ) -> RefCountsView {
        let up = refs.with_count(phys, refs.count(phys).wrapping_add(1));
        if self.pages.contains_key(key) {
            up.after_dec(self.pages[key].phys)
        } else {
            up
        }
    }

    /// The frame that nobody refers to any more once the page is in.
    pub open spec fn released_by_insert(
        self,
        refs: RefCountsView,
        key: CacheKey,
        phys: u64,
    ) -> Option<u64> {
        let up = refs.with_count(phys, refs.count(phys).wrapping_add(1));
        if self.pages.contains_key(key) && up.dec_result(self.pages[key].phys) == 0 {
            self.frame(key)
        } else {
            None
        }
    }
}

impl CacheView {
    /// The cache, the frames and the quarantine after the page was put in, or turned
    /// down, at tick `tick`.
    pub open spec fn after_insert(
        self,
        f: FramesView,
        t: TlbView,
        key: CacheKey,
        phys: u64,
        tick: u64,
    ) -> (CacheView, FramesView, TlbView) {
        let released = self.released_by_insert(f.refs, key, phys);
        let counted = FramesView { refs: self.counts_after_insert(f.refs, key, phys), ..f };
        if self.refuses(f, phys) {
            (self, f, t)
        } else {
            (
                self.with_page(key, phys),
                frames_after_release(counted, t, released, tick),
                tlb_after_release(t, released, tick),
            )
        }
    }

    /// What putting the page in reports, where its contents are right.
    pub open spec fn insert_outcome(self, f: FramesView, key: CacheKey, phys: u64) -> InsertOutcome {
        if self.refuses(f, phys) {
            InsertOutcome::Refused
        } else {
            InsertOutcome::Inserted {
                evicted: self.frame(key),
                released: self.released_by_insert(f.refs, key, phys),
                watch: if self.prearms(key, phys) {
                    Some((PHYS_OFF + phys) as u64)
                } else {
                    None
                },
            }
        }
    }
}

/// The first bytes of the frame of `phys`.
pub open spec fn sample_of(mem: Seq<u64>, phys: u64) -> Seq<u8> {
    Seq::new(SAMPLE_BYTES as nat, |i: int| byte_at(mem, phys + i))
}

/// After the frame, if any, went to the quarantine at tick `tick`.
pub open spec fn tlb_after_release(t: TlbView, released: Option<u64>, tick: u64) -> TlbView {
    if released is Some {
        t.after_quarantine(released->0, tick)
    } else {
        t
    }
}

/// The frames after one of them, if any, went to the quarantine at tick `tick`: it
/// is freed at once where the quarantine is full.
pub open spec fn frames_after_release(
    f: FramesView,
    t: TlbView,
    released: Option<u64>,
    tick: u64,
) -> FramesView {
    if released is Some && released->0 != 0 && t.quarantine.len() >= QUARANTINE_CAPACITY {
        f.after_free(released->0, tick)
    } else {
        f
    }
}

/// The pages of an ascending list are the ones listed.
pub proof fn lemma_listed(s: Seq<CacheEntry>, i: int)
    requires
        ascending(s),
        0 <= i < s.len(),
    ensures
        pages_of(s).contains_key(s[i].key),
        pages_of(s)[s[i].key] == s[i].page,
{
    let key = s[i].key;
    assert(named(s, i, key));
    let j = choose|j: int| #[trigger] named(s, j, key);
    if j < i {
        assert(key_lt(s[j].key, s[i].key));
    } else if i < j {
        assert(key_lt(s[i].key, s[j].key));
    }
}

/// A key is not listed where all entries before a place are smaller, all from it on
/// greater.
proof fn lemma_not_listed(s: Seq<CacheEntry>, at: int, key: CacheKey)
    requires
        0 <= at <= s.len(),
        forall|i: int| 0 <= i < at ==> key_lt(#[trigger] s[i].key, key),
        forall|i: int| at <= i < s.len() ==> key_lt(key, #[trigger] s[i].key),
    ensures
        !pages_of(s).contains_key(key),
{
    if pages_of(s).contains_key(key) {
        let i = choose|i: int| #[trigger] named(s, i, key);
        assert(s[i].key == key);
    }
}

proof fn lemma_insert(s: Seq<CacheEntry>, at: int, e: CacheEntry)
    requires
        ascending(s),
        0 <= at <= s.len(),
        forall|i: int| 0 <= i < at ==> key_lt(#[trigger] s[i].key, e.key),
        forall|i: int| at <= i < s.len() ==> key_lt(e.key, #[trigger] s[i].key),
    ensures
        ascending(s.insert(at, e)),
        pages_of(s.insert(at, e)) == pages_of(s).insert(e.key, e.page),
{
    let n = s.insert(at, e);
    assert forall|i: int, j: int| 0 <= i < j < n.len() implies key_lt(
        #[trigger] n[i].key,
        #[trigger] n[j].key,
    ) by {
        let a = if i < at { i } else { i - 1 };
        let b = if j < at { j } else { j - 1 };
        if i != at && j != at {
            assert(key_lt(s[a].key, s[b].key));
        } else if i == at {
            assert(key_lt(e.key, s[b].key));
        } else {
            assert(key_lt(s[a].key, e.key));
        }
    }
    let want = pages_of(s).insert(e.key, e.page);
    assert forall|key: CacheKey| #[trigger] pages_of(n).contains_key(key) <==> want.contains_key(
        key,
    ) by {
        if pages_of(n).contains_key(key) {
            let i = choose|i: int| #[trigger] named(n, i, key);
            if i < at {
                assert(named(s, i, key));
            } else if i > at {
                assert(named(s, i - 1, key));
            }
        }
        if key == e.key {
            assert(named(n, at, key));
        } else if pages_of(s).contains_key(key) {
            let i = choose|i: int| #[trigger] named(s, i, key);
            assert(named(n, if i < at { i } else { i + 1 }, key));
        }
    }
    assert forall|key: CacheKey| #[trigger] pages_of(n).contains_key(key) implies pages_of(n)[key]
        == want[key] by {
        let i = choose|i: int| #[trigger] named(n, i, key);
        lemma_listed(n, i);
        if i < at {
            lemma_listed(s, i);
        } else if i > at {
            lemma_listed(s, i - 1);
            assert(key_lt(e.key, s[i - 1].key));
        }
    }
    assert(pages_of(n) =~= want);
}

proof fn lemma_replace(s: Seq<CacheEntry>, at: int, page: CachedPage)
    requires
        ascending(s),
        0 <= at < s.len(),
    ensures
        ascending(s.update(at, CacheEntry { key: s[at].key, page })),
        pages_of(s.update(at, CacheEntry { key: s[at].key, page })) == pages_of(s).insert(
            s[at].key,
            page,
        ),
{
    let e = CacheEntry { key: s[at].key, page };
    let n = s.update(at, e);
    assert forall|i: int, j: int| 0 <= i < j < n.len() implies key_lt(
        #[trigger] n[i].key,
        #[trigger] n[j].key,
    ) by {
        assert(key_lt(s[i].key, s[j].key));
    }
    let want = pages_of(s).insert(e.key, page);
    assert forall|key: CacheKey| #[trigger] pages_of(n).contains_key(key) <==> want.contains_key(
        key,
    ) by {
        if pages_of(n).contains_key(key) {
            let i = choose|i: int| #[trigger] named(n, i, key);
            assert(named(s, i, key));
        }
        if key == e.key {
            assert(named(n, at, key));
        } else if pages_of(s).contains_key(key) {
            let i = choose|i: int| #[trigger] named(s, i, key);
            assert(named(n, i, key));
        }
    }
    assert forall|key: CacheKey| #[trigger] pages_of(n).contains_key(key) implies pages_of(n)[key]
        == want[key] by {
        let i = choose|i: int| #[trigger] named(n, i, key);
        lemma_listed(n, i);
        lemma_listed(s, i);
        if i < at {
            assert(key_lt(s[i].key, s[at].key));
        } else if i > at {
            assert(key_lt(s[at].key, s[i].key));
        }
    }
    assert(pages_of(n) =~= want);
}

proof fn lemma_remove(s: Seq<CacheEntry>, at: int)
    requires
        ascending(s),
        0 <= at < s.len(),
    ensures
        ascending(s.remove(at)),
        pages_of(s.remove(at)) == pages_of(s).remove(s[at].key),
{
    let gone = s[at].key;
    let n = s.remove(at);
    assert forall|i: int, j: int| 0 <= i < j < n.len() implies key_lt(
        #[trigger] n[i].key,
        #[trigger] n[j].key,
    ) by {
        let a = if i < at { i } else { i + 1 };
        let b = if j < at { j } else { j + 1 };
        assert(key_lt(s[a].key, s[b].key));
    }
    let want = pages_of(s).remove(gone);
    assert forall|key: CacheKey| #[trigger] pages_of(n).contains_key(key) <==> want.contains_key(
        key,
    ) by {
        if pages_of(n).contains_key(key) {
            let i = choose|i: int| #[trigger] named(n, i, key);
            let a = if i < at { i } else { i + 1 };
            assert(named(s, a, key));
            if a < at {
                assert(key_lt(s[a].key, s[at].key));
            } else {
                assert(key_lt(s[at].key, s[a].key));
            }
        }
        if key != gone && pages_of(s).contains_key(key) {
            let i = choose|i: int| #[trigger] named(s, i, key);
            assert(named(n, if i < at { i } else { i - 1 }, key));
        }
    }
    assert forall|key: CacheKey| #[trigger] pages_of(n).contains_key(key) implies pages_of(n)[key]
        == want[key] by {
        let i = choose|i: int| #[trigger] named(n, i, key);
        let a = if i < at { i } else { i + 1 };
        lemma_listed(n, i);
        lemma_listed(s, a);
    }
    assert(pages_of(n) =~= want);
}

impl CacheKey {
    /// The key comes before `other`.
    pub fn before(&self, other: &CacheKey) -> (r: bool)
        ensures
            r == key_lt(*self, *other),
    {
        self.mount < other.mount || (self.mount == other.mount && (self.inode < other.inode || (
        self.inode == other.inode && self.page_offset < other.page_offset)))
    }
}

impl PageCache {
    pub open spec fn wf(self) -> bool {
        ascending(self.entries@)
    }

    /// An empty cache.
    pub fn new(diag: bool) -> (r: PageCache)
        ensures
            r.wf(),
            r@ == (CacheView { pages: Map::empty(), diag, prepopulating: false }),
    {
        let r = PageCache { entries: Vec::new(), diag, prepopulating: false };
        proof {
            assert forall|key: CacheKey| !pages_of(r.entries@).contains_key(key) by {
                if pages_of(r.entries@).contains_key(key) {
                    let i = choose|i: int| #[trigger] named(r.entries@, i, key);
                    assert(false);
                }
            }
            assert(r@.pages =~= Map::empty());
        }
        r
    }

    /// The place of the key, or the place where it belongs.
    fn position(&self, key: &CacheKey) -> (r: Result<usize, usize>)
        requires
            self.wf(),
        ensures
            r matches Ok(i) ==> i < self.entries@.len() && self.entries@[i as int].key == *key,
            r matches Err(at) ==> {
                &&& at <= self.entries@.len()
                &&& forall|i: int| 0 <= i < at ==> key_lt(#[trigger] self.entries@[i].key, *key)
                &&& forall|i: int|
                    at <= i < self.entries@.len() ==> key_lt(*key, #[trigger] self.entries@[i].key)
            },
    {
        let mut lo: usize = 0;
        let mut hi: usize = self.entries.len();
        while lo < hi
            invariant
                self.wf(),
                lo <= hi <= self.entries@.len(),
                forall|i: int| 0 <= i < lo ==> key_lt(#[trigger] self.entries@[i].key, *key),
                forall|i: int|
                    hi <= i < self.entries@.len() ==> key_lt(*key, #[trigger] self.entries@[i].key),
            decreases hi - lo,
        {
            let mid: usize = lo + (hi - lo) / 2;
            let at: CacheKey = self.entries[mid].key;
            if at == *key {
                return Ok(mid);
            }
            if at.before(key) {
                proof {
                    assert forall|i: int| 0 <= i < mid + 1 implies key_lt(
                        #[trigger] self.entries@[i].key,
                        *key,
                    ) by {
                        if i < mid {
                            assert(key_lt(self.entries@[i].key, self.entries@[mid as int].key));
                        }
                    }
                }
                lo = mid + 1;
            } else {
                proof {
                    assert forall|i: int| mid <= i < self.entries@.len() implies key_lt(
                        *key,
                        #[trigger] self.entries@[i].key,
                    ) by {
                        if i > mid {
                            assert(key_lt(self.entries@[mid as int].key, self.entries@[i].key));
                        }
                    }
                }
                hi = mid;
            }
        }
        Err(lo)
    }
}

/// The frame of a page, if it is cached.
pub fn lookup(cache: &PageCache, mount_idx: usize, inode: u64, page_offset: u64) -> (r: Option<u64>)
    requires
        cache.wf(),
    ensures
        r == cache@.frame(CacheKey { mount: mount_idx, inode, page_offset }),
{
    let key = CacheKey { mount: mount_idx, inode, page_offset };
    match cache.position(&key) {
        Ok(i) => {
            proof {
                lemma_listed(cache.entries@, i as int);
            }
            Some(cache.entries[i].page.phys)
        },
        Err(at) => {
            proof {
                lemma_not_listed(cache.entries@, at as int, key);
            }
            None
        },
    }
}

/// The frame of a page, if it is cached; the caller gets a reference to it.
pub fn lookup_and_acquire(
    cache: &PageCache,
    refs: &mut RefCounts,
    mount_idx: usize,
    inode: u64,
    page_offset: u64,
) -> (r: Option<u64>)
    requires
        cache.wf(),
        old(refs)@.wf(),
        old(refs)@.counts is Some,
    ensures
        final(refs)@.wf(),
        r == cache@.frame(CacheKey { mount: mount_idx, inode, page_offset }),
        final(refs)@ == (if r is Some {
            old(refs)@.with_count(r->0, old(refs)@.count(r->0).wrapping_add(1))
        } else {
            old(refs)@
        }),
        r matches Some(p) ==> p < 0x1_0000_0000 && old(refs)@.count(p) < u16::MAX
            ==> final(refs)@.count(p) == old(refs)@.count(p) + 1,
{
    match lookup(cache, mount_idx, inode, page_offset) {
        Some(phys) => {
            page_ref_inc(refs, phys);
            Some(phys)
        },
        None => None,
    }
}

/// What became of a page that was to be put in.
pub enum InsertOutcome {
    /// The frame lies in the kernel image: nothing was changed.
    Refused,
    /// The frame does not hold what the file does.  The machine must stop; the frame
    /// that was displaced, if any, has not been released.
    WrongContent { observed: Vec<u8>, evicted: Option<u64> },
    /// The page is in.
    Inserted {
        /// The frame that was displaced.
        evicted: Option<u64>,
        /// That frame, where nobody refers to it any more: it went to the quarantine.
        released: Option<u64>,
        /// Where to watch for writes from now on.
        watch: Option<u64>,
    },
}

/// Puts a page in without comparing it with the file.
pub fn insert(
    cache: &mut PageCache,
    f: &mut Frames,
    t: &mut Tlb,
    mem: &PhysMem,
    mount_idx: usize,
    inode: u64,
    page_offset: u64,
    phys: u64,
    tick: u64,
) -> (r: InsertOutcome)
    requires
        old(cache).wf(),
        old(f).wf(),
        old(f)@.refs.counts is Some,
        old(t)@.wf(),
        old(cache)@.diag ==> phys < DIRECT_MAP_SIZE,
    ensures
        final(cache).wf(),
        final(f).wf(),
        final(f)@.refs.counts is Some,
        final(t)@.wf(),
        r == old(cache)@.insert_outcome(
            old(f)@,
            CacheKey { mount: mount_idx, inode, page_offset },
            phys,
        ),
        (final(cache)@, final(f)@, final(t)@) == old(cache)@.after_insert(
            old(f)@,
            old(t)@,
            CacheKey { mount: mount_idx, inode, page_offset },
            phys,
            tick,
        ),
{
    insert_with_expected(cache, f, t, mem, mount_idx, inode, page_offset, phys, None, tick)
}

/// Puts the entry in; gives back the frame that it displaced.
fn put(cache: &mut PageCache, key: CacheKey, phys: u64) -> (old_phys: Option<u64>)
    requires
        old(cache).wf(),
    ensures
        final(cache).wf(),
        final(cache)@ == old(cache)@.with_page(key, phys),
        old_phys == old(cache)@.frame(key),
{
    let page = CachedPage { phys, dirty: false };
    match cache.position(&key) {
        Ok(i) => {
            let was: u64 = cache.entries[i].page.phys;
            proof {
                lemma_listed(cache.entries@, i as int);
                lemma_replace(cache.entries@, i as int, page);
            }
            cache.entries.set(i, CacheEntry { key, page });
            Some(was)
        },
        Err(at) => {
            proof {
                lemma_not_listed(cache.entries@, at as int, key);
                lemma_insert(cache.entries@, at as int, CacheEntry { key, page });
            }
            cache.entries.insert(at, CacheEntry { key, page });
            None
        },
    }
}

/// Takes the first bytes of the frame of `phys`.
fn sample(mem: &PhysMem, phys: u64) -> (r: Vec<u8>)
    requires
        phys < DIRECT_MAP_SIZE,
    ensures
        r@ == sample_of(mem@, phys),
{
    let mut r: Vec<u8> = Vec::new();
    let mut i: u64 = 0;
    while i < SAMPLE_BYTES
        invariant
            i <= SAMPLE_BYTES,
            phys < DIRECT_MAP_SIZE,
            r@ =~= sample_of(mem@, phys).take(i as int),
        decreases SAMPLE_BYTES - i,
    {
        r.push(mem.read_byte(phys + i));
        i = i + 1;
    }
    r
}

/// Puts a page in, replacing the one that has its name.  `expected` holds the first
/// bytes of the page as the file has them, where the caller knows them: a frame that
/// holds others was written to by someone else meanwhile.
///
/// The frame that is displaced loses the reference of the cache; where it was the
/// last one the frame goes to the quarantine.
pub fn insert_with_expected(
    cache: &mut PageCache,
    f: &mut Frames,
    t: &mut Tlb,
    mem: &PhysMem,
    mount_idx: usize,
    inode: u64,
    page_offset: u64,
    phys: u64,
    expected: Option<&[u8; 64]>,
    tick: u64,
) -> (r: InsertOutcome)
    requires
        old(cache).wf(),
        old(f).wf(),
        old(f)@.refs.counts is Some,
        old(t)@.wf(),
        old(cache)@.diag ==> phys < DIRECT_MAP_SIZE,
    ensures
        final(cache).wf(),
        final(f).wf(),
        final(f)@.refs.counts is Some,
        final(t)@.wf(),
        ({
            let key = CacheKey { mount: mount_idx, inode, page_offset };
            let differs = old(cache)@.diag && !old(cache)@.prepopulating && expected is Some
                && expected->0@ != sample_of(mem@, phys);
            if differs && !old(cache)@.refuses(old(f)@, phys) {
                &&& r is WrongContent
                &&& r->observed@ == sample_of(mem@, phys)
                &&& r->WrongContent_evicted == old(cache)@.frame(key)
                &&& final(cache)@ == old(cache)@.with_page(key, phys)
                &&& final(t)@ == old(t)@
                &&& final(f)@ == (FramesView {
                    refs: old(cache)@.counts_after_insert(old(f)@.refs, key, phys),
                    ..old(f)@
                })
            } else {
                &&& r == old(cache)@.insert_outcome(old(f)@, key, phys)
                &&& (final(cache)@, final(f)@, final(t)@) == old(cache)@.after_insert(
                    old(f)@,
                    old(t)@,
                    key,
                    phys,
                    tick,
                )
            }
        }),
        r is WrongContent ==> old(cache)@.diag && expected is Some && expected->0@ != r->observed@,
        expected is None || !old(cache)@.diag ==> !(r is WrongContent),
        !(r is Refused) ==> final(cache)@.frame(CacheKey { mount: mount_idx, inode, page_offset })
            == Some(phys),
{
    if cache.diag && is_kernel_static_phys(&f.pmm, phys) {
        return InsertOutcome::Refused;
    }
    let key = CacheKey { mount: mount_idx, inode, page_offset };
    let diag: bool = cache.diag;
    let steady: bool = !cache.prepopulating;
    let evicted = put(cache, key, phys);
    page_ref_inc(&mut f.refs, phys);
    let mut released: Option<u64> = None;
    if let Some(old_phys) = evicted {
        let left: u16 = page_ref_dec(&mut f.refs, old_phys);
        if left == 0 {
            released = Some(old_phys);
        }
    }
    let watch: Option<u64> = if diag && steady && mount_idx == PREARM_MOUNT && (inode == 0x9b
        || inode == 265 || inode == 283 || inode == 289) && phys >= PREARM_PHYS_LO && phys
        < PREARM_PHYS_HI && phys % 4096 == 0 {
        Some(PHYS_OFF + phys)
    } else {
        None
    };
    if diag && steady {
        if let Some(reference) = expected {
            let observed = sample(mem, phys);
            let mut same: bool = true;
            let mut i: usize = 0;
            while i < 64
                invariant
                    i <= 64,
                    observed@.len() == 64,
                    same == (forall|j: int| 0 <= j < i ==> reference@[j] == observed@[j]),
                decreases 64 - i,
            {
                if reference[i] != observed[i] {
                    same = false;
                }
                i = i + 1;
            }
            assert(same == (reference@ =~= observed@));
            if !same {
                return InsertOutcome::WrongContent { observed, evicted };
            }
        }
    }
    if let Some(old_phys) = released {
        let _verdict = quarantine_free(t, f, old_phys, tick);
    }
    InsertOutcome::Inserted { evicted, released, watch }
}

/// Notes that a cached page was written to.
pub fn mark_dirty(cache: &mut PageCache, mount_idx: usize, inode: u64, page_offset: u64)
    requires
        old(cache).wf(),
    ensures
        final(cache).wf(),
        ({
            let key = CacheKey { mount: mount_idx, inode, page_offset };
            final(cache)@ == (if old(cache)@.pages.contains_key(key) {
                CacheView {
                    pages: old(cache)@.pages.insert(
                        key,
                        CachedPage { dirty: true, ..old(cache)@.pages[key] },
                    ),
                    ..old(cache)@
                }
            } else {
                old(cache)@
            })
        }),
        forall|key: CacheKey|
            #[trigger] final(cache)@.pages.contains_key(key) <==> old(cache)@.pages.contains_key(
                key,
            ),
        forall|key: CacheKey|
            old(cache)@.pages.contains_key(key) ==> {
                &&& (#[trigger] final(cache)@.pages[key]).phys == old(cache)@.pages[key].phys
                &&& final(cache)@.pages[key].dirty == (old(cache)@.pages[key].dirty || (key.mount
                    == mount_idx && key.inode == inode && key.page_offset == page_offset))
            },
{
    let key = CacheKey { mount: mount_idx, inode, page_offset };
    match cache.position(&key) {
        Ok(i) => {
            let page = CachedPage { phys: cache.entries[i].page.phys, dirty: true };
            proof {
                lemma_listed(cache.entries@, i as int);
                lemma_replace(cache.entries@, i as int, page);
            }
            cache.entries.set(i, CacheEntry { key, page });
        },
        Err(at) => {
            proof {
                lemma_not_listed(cache.entries@, at as int, key);
            }
        },
    }
}

/// Takes the entry out; gives back its frame.
fn take_out(cache: &mut PageCache, key: CacheKey) -> (r: Option<u64>)
    requires
        old(cache).wf(),
    ensures
        final(cache).wf(),
        r == old(cache)@.frame(key),
        final(cache)@ == old(cache)@.without(key),
{
    match cache.position(&key) {
        Ok(i) => {
            let phys: u64 = cache.entries[i].page.phys;
            proof {
                lemma_listed(cache.entries@, i as int);
                lemma_remove(cache.entries@, i as int);
            }
            let _entry: CacheEntry = cache.entries.remove(i);
            Some(phys)
        },
        Err(at) => {
            proof {
                lemma_not_listed(cache.entries@, at as int, key);
                assert(cache@.pages.remove(key) =~= cache@.pages);
            }
            None
        },
    }
}

/// Takes a page out of the cache and drops the cache's reference to its frame, which
/// the caller then owns.
pub fn evict(
    cache: &mut PageCache,
    refs: &mut RefCounts,
    mount_idx: usize,
    inode: u64,
    page_offset: u64,
) -> (r: Option<u64>)
    requires
        old(cache).wf(),
        old(refs)@.wf(),
        old(refs)@.counts is Some,
    ensures
        final(cache).wf(),
        final(refs)@.wf(),
        ({
            let key = CacheKey { mount: mount_idx, inode, page_offset };
            &&& r == old(cache)@.frame(key)
            &&& final(cache)@ == old(cache)@.without(key)
            &&& final(refs)@ == (if r is Some {
                old(refs)@.after_dec(r->0)
            } else {
                old(refs)@
            })
        }),
        final(cache)@.frame(CacheKey { mount: mount_idx, inode, page_offset }) is None,
        r matches Some(p) ==> p < 0x1_0000_0000 && old(refs)@.count(p) > 0 ==> final(refs)@.count(p)
            == old(refs)@.count(p) - 1,
{
    let key = CacheKey { mount: mount_idx, inode, page_offset };
    match take_out(cache, key) {
        Some(phys) => {
            let _left: u16 = page_ref_dec(refs, phys);
            Some(phys)
        },
        None => None,
    }
}

/// Takes a page out of the cache, but only if its frame is the expected one; says
/// whether it was.
pub fn evict_if_phys(
    cache: &mut PageCache,
    refs: &mut RefCounts,
    mount_idx: usize,
    inode: u64,
    page_offset: u64,
    expected_phys: u64,
) -> (r: bool)
    requires
        old(cache).wf(),
        old(refs)@.wf(),
        old(refs)@.counts is Some,
    ensures
        final(cache).wf(),
        final(refs)@.wf(),
        ({
            let key = CacheKey { mount: mount_idx, inode, page_offset };
            &&& r <==> old(cache)@.frame(key) == Some(expected_phys)
            &&& final(cache)@ == (if r {
                old(cache)@.without(key)
            } else {
                old(cache)@
            })
            &&& final(refs)@ == (if r {
                old(refs)@.after_dec(expected_phys)
            } else {
                old(refs)@
            })
        }),
        r ==> final(cache)@.frame(CacheKey { mount: mount_idx, inode, page_offset }) is None,
        !r ==> final(cache)@.pages == old(cache)@.pages,
{
    let key = CacheKey { mount: mount_idx, inode, page_offset };
    let matches: bool = match lookup(cache, mount_idx, inode, page_offset) {
        Some(phys) => phys == expected_phys,
        None => false,
    };
    if matches {
        let _phys: Option<u64> = take_out(cache, key);
        let _left: u16 = page_ref_dec(refs, expected_phys);
    }
    matches
}

/// Pages whose key and contents satisfy `p`.
pub open spec fn matching(
    pages: Map<CacheKey, CachedPage>,
    p: spec_fn(CacheKey, CachedPage) -> bool,
) -> Set<CacheKey> {
    pages.dom().filter(|key: CacheKey| p(key, pages[key]))
}

/// Entries that satisfy `p`.
spec fn tally(s: Seq<CacheEntry>, p: spec_fn(CacheKey, CachedPage) -> bool) -> nat
    decreases s.len(),
{
    if s.len() == 0 {
        0
    } else {
        tally(s.drop_last(), p) + (if p(s.last().key, s.last().page) {
            1nat
        } else {
            0
        })
    }
}

proof fn lemma_tally(s: Seq<CacheEntry>, p: spec_fn(CacheKey, CachedPage) -> bool)
    requires
        ascending(s),
    ensures
        matching(pages_of(s), p).finite(),
        matching(pages_of(s), p).len() == tally(s, p),
        tally(s, p) <= s.len(),
    decreases s.len(),
{
    if s.len() == 0 {
        assert forall|key: CacheKey| !pages_of(s).contains_key(key) by {
            if pages_of(s).contains_key(key) {
                let i = choose|i: int| #[trigger] named(s, i, key);
                assert(false);
            }
        }
        assert(matching(pages_of(s), p) =~= Set::empty());
    } else {
        let init = s.drop_last();
        let last = s.last();
        assert(ascending(init)) by {
            assert forall|i: int, j: int| 0 <= i < j < init.len() implies key_lt(
                #[trigger] init[i].key,
                #[trigger] init[j].key,
            ) by {
                assert(key_lt(s[i].key, s[j].key));
            }
        }
        lemma_tally(init, p);
        assert forall|i: int| 0 <= i < init.len() implies key_lt(
            #[trigger] init[i].key,
            last.key,
        ) by {
            assert(key_lt(s[i].key, s[s.len() - 1].key));
        }
        lemma_insert(init, init.len() as int, last);
        lemma_not_listed(init, init.len() as int, last.key);
        assert(init.insert(init.len() as int, last) =~= s);
        let before = matching(pages_of(init), p);
        if p(last.key, last.page) {
            assert(matching(pages_of(s), p) =~= before.insert(last.key));
        } else {
            assert(matching(pages_of(s), p) =~= before);
        }
    }
}

/// The pages with those of one file clean, and all others as they were.
pub open spec fn cleaned(
    pages: Map<CacheKey, CachedPage>,
    mount: usize,
    inode: u64,
) -> Map<CacheKey, CachedPage> {
    Map::new(
        |key: CacheKey| pages.contains_key(key),
        |key: CacheKey|
            if key.mount == mount && key.inode == inode {
                CachedPage { phys: pages[key].phys, dirty: false }
            } else {
                pages[key]
            },
    )
}

/// Notes that all pages of a file are clean.
pub fn sync_inode(cache: &mut PageCache, mount_idx: usize, inode: u64)
    requires
        old(cache).wf(),
    ensures
        final(cache).wf(),
        final(cache)@ == (CacheView {
            pages: cleaned(old(cache)@.pages, mount_idx, inode),
            ..old(cache)@
        }),
{
    let n: usize = cache.entries.len();
    let mut k: usize = 0;
    while k < n
        invariant
            n == cache.entries@.len(),
            n == old(cache).entries@.len(),
            k <= n,
            cache.diag == old(cache).diag,
            cache.prepopulating == old(cache).prepopulating,
            forall|i: int|
                0 <= i < n ==> (#[trigger] cache.entries@[i]).key == old(cache).entries@[i].key,
            forall|i: int|
                0 <= i < n ==> (#[trigger] cache.entries@[i]).page == (if i < k
                    && old(cache).entries@[i].key.mount == mount_idx
                    && old(cache).entries@[i].key.inode == inode {
                    CachedPage { phys: old(cache).entries@[i].page.phys, dirty: false }
                } else {
                    old(cache).entries@[i].page
                }),
        decreases n - k,
    {
        let e: CacheEntry = cache.entries[k];
        if e.key.mount == mount_idx && e.key.inode == inode {
            cache.entries.set(
                k,
                CacheEntry { key: e.key, page: CachedPage { phys: e.page.phys, dirty: false } },
            );
        }
        k = k + 1;
    }
    proof {
        let s = old(cache).entries@;
        let m = cache.entries@;
        assert forall|i: int, j: int| 0 <= i < j < m.len() implies key_lt(
            #[trigger] m[i].key,
            #[trigger] m[j].key,
        ) by {
            assert(key_lt(s[i].key, s[j].key));
        }
        let want = cleaned(pages_of(s), mount_idx, inode);
        assert forall|key: CacheKey| #[trigger] pages_of(m).contains_key(key)
            <==> want.contains_key(key) by {
            if pages_of(m).contains_key(key) {
                let i = choose|i: int| #[trigger] named(m, i, key);
                assert(named(s, i, key));
            }
            if pages_of(s).contains_key(key) {
                let i = choose|i: int| #[trigger] named(s, i, key);
                assert(named(m, i, key));
            }
        }
        assert forall|key: CacheKey| #[trigger] pages_of(m).contains_key(key) implies pages_of(
            m,
        )[key] == want[key] by {
            let i = choose|i: int| #[trigger] named(m, i, key);
            lemma_listed(m, i);
            lemma_listed(s, i);
        }
        assert(pages_of(m) =~= want);
    }
}

/// Number of cached pages, and of those among them that are dirty.
pub fn stats(cache: &PageCache) -> (r: (usize, usize))
    requires
        cache.wf(),
    ensures
        r.0 == cache@.pages.dom().len(),
        r.1 == matching(cache@.pages, |key: CacheKey, page: CachedPage| page.dirty).len(),
{
    let ghost p = |key: CacheKey, page: CachedPage| page.dirty;
    let ghost all = |key: CacheKey, page: CachedPage| true;
    let n: usize = cache.entries.len();
    let mut dirty: usize = 0;
    let mut k: usize = 0;
    while k < n
        invariant
            n == cache.entries@.len(),
            k <= n,
            dirty <= k,
            p == (|key: CacheKey, page: CachedPage| page.dirty),
            dirty == tally(cache.entries@.take(k as int), p),
        decreases n - k,
    {
        assert(cache.entries@.take(k + 1).drop_last() =~= cache.entries@.take(k as int));
        if cache.entries[k].page.dirty {
            dirty = dirty + 1;
        }
        k = k + 1;
    }
    proof {
        assert(cache.entries@.take(n as int) =~= cache.entries@);
        lemma_tally(cache.entries@, p);
        lemma_tally(cache.entries@, all);
        lemma_tally_all(cache.entries@, all);
        assert(matching(cache@.pages, all) =~= cache@.pages.dom());
    }
    (n, dirty)
}

proof fn lemma_tally_all(s: Seq<CacheEntry>, p: spec_fn(CacheKey, CachedPage) -> bool)
    requires
        forall|key: CacheKey, page: CachedPage| #[trigger] p(key, page),
    ensures
        tally(s, p) == s.len(),
    decreases s.len(),
{
    if s.len() > 0 {
        lemma_tally_all(s.drop_last(), p);
    }
}

/// The first key under which the frame of `phys` is listed.
pub fn is_phys_in_cache(cache: &PageCache, phys: u64) -> (r: Option<(usize, u64, u64)>)
    requires
        cache.wf(),
    ensures
        r is None <==> cache@.holders(phys).is_empty(),
        r matches Some((mount, inode, page_offset)) ==> {
            let key = CacheKey { mount, inode, page_offset };
            &&& cache@.holders(phys).contains(key)
            &&& forall|other: CacheKey| #[trigger]
                cache@.holders(phys).contains(other) ==> other == key || key_lt(key, other)
        },
{
    let n: usize = cache.entries.len();
    let mut k: usize = 0;
    while k < n
        invariant
            n == cache.entries@.len(),
            k <= n,
            cache.wf(),
            forall|i: int| 0 <= i < k ==> (#[trigger] cache.entries@[i]).page.phys != phys,
        decreases n - k,
    {
        let e: CacheEntry = cache.entries[k];
        if e.page.phys == phys {
            proof {
                lemma_listed(cache.entries@, k as int);
                assert(cache@.holders(phys).contains(e.key));
                assert forall|other: CacheKey| #[trigger]
                    cache@.holders(phys).contains(other) implies other == e.key || key_lt(
                    e.key,
                    other,
                ) by {
                    let i = choose|i: int| #[trigger] named(cache.entries@, i, other);
                    lemma_listed(cache.entries@, i);
                    if i > k {
                        assert(key_lt(cache.entries@[k as int].key, cache.entries@[i].key));
                    }
                }
            }
            return Some((e.key.mount, e.key.inode, e.key.page_offset));
        }
        k = k + 1;
    }
    proof {
        assert forall|key: CacheKey| !cache@.holders(phys).contains(key) by {
            if cache@.holders(phys).contains(key) {
                let i = choose|i: int| #[trigger] named(cache.entries@, i, key);
                lemma_listed(cache.entries@, i);
            }
        }
        assert(cache@.holders(phys) =~= Set::empty());
    }
    None
}

/// Number of cached pages, and of those among them whose frame nobody refers to: the
/// second is zero as long as the cache keeps its own references.
pub fn audit_invariant(cache: &PageCache, refs: &RefCounts) -> (r: (usize, usize))
    requires
        cache.wf(),
        refs@.wf(),
    ensures
        r.0 == cache@.pages.dom().len(),
        r.1 == matching(
            cache@.pages,
            |key: CacheKey, page: CachedPage| refs@.count(page.phys) == 0,
        ).len(),
{
    let ghost p = |key: CacheKey, page: CachedPage| refs@.count(page.phys) == 0;
    let ghost all = |key: CacheKey, page: CachedPage| true;
    let n: usize = cache.entries.len();
    let mut orphans: usize = 0;
    let mut k: usize = 0;
    while k < n
        invariant
            n == cache.entries@.len(),
            k <= n,
            refs@.wf(),
            orphans <= k,
            p == (|key: CacheKey, page: CachedPage| refs@.count(page.phys) == 0),
            orphans == tally(cache.entries@.take(k as int), p),
        decreases n - k,
    {
        assert(cache.entries@.take(k + 1).drop_last() =~= cache.entries@.take(k as int));
        if page_ref_count(refs, cache.entries[k].page.phys) == 0 {
            orphans = orphans + 1;
        }
        k = k + 1;
    }
    proof {
        assert(cache.entries@.take(n as int) =~= cache.entries@);
        lemma_tally(cache.entries@, p);
        lemma_tally(cache.entries@, all);
        lemma_tally_all(cache.entries@, all);
        assert(matching(cache@.pages, all) =~= cache@.pages.dom());
    }
    (n, orphans)
}

/// A whole-file load that is under way.
pub struct Prepopulate {
    pub mount: usize,
    pub inode: u64,
    pub file_size: u64,
    /// Everything before this offset has been seen to.
    pub offset: u64,
    /// Pages that were put in.
    pub cached: u64,
    /// How often frames ran out while the chunk at `offset` was put in.
    pub tries: u64,
    /// Nothing more is to be read.
    pub done: bool,
}

/// Start of the chunk that `offset` lies in.
pub open spec fn chunk_start(offset: u64) -> u64 {
    (offset - offset % CHUNK_BYTES) as u64
}

/// Bytes of the chunk that starts at `start`, of a file of the given size.
pub open spec fn chunk_len(file_size: u64, start: u64) -> u64 {
    if file_size - start < CHUNK_BYTES {
        (file_size - start) as u64
    } else {
        CHUNK_BYTES
    }
}

/// Key of the page at byte `at` of the chunk that starts at `start`.
pub open spec fn chunk_key(mount: usize, inode: u64, start: u64, at: int) -> CacheKey {
    CacheKey { mount, inode, page_offset: (start + at) as u64 }
}

/// Every page of the chunk is cached.
pub open spec fn chunk_cached(c: CacheView, mount: usize, inode: u64, start: u64, len: u64) -> bool {
    forall|i: int|
        0 <= i && i * 4096 < len ==> c.pages.contains_key(
            #[trigger] chunk_key(mount, inode, start, i * 4096),
        )
}

impl Prepopulate {
    pub open spec fn wf(self) -> bool {
        &&& self.offset <= self.file_size
        &&& self.offset < self.file_size ==> self.offset % CHUNK_BYTES == 0
        &&& self.tries <= CHUNK_TRIES
        &&& self.cached <= 0x4_0200 * ((self.offset + 0x1F_FFFF) / 0x20_0000) + 512 * self.tries
    }

    /// The first chunk, from `offset` on, of which a page is missing.
    pub open spec fn missing_from(self, c: CacheView, offset: u64) -> Option<u64>
        decreases self.file_size - offset,
    {
        if offset >= self.file_size {
            None
        } else {
            let start = chunk_start(offset);
            let len = chunk_len(self.file_size, start);
            if chunk_cached(c, self.mount, self.inode, start, len) && start + len > offset {
                self.missing_from(c, (start + len) as u64)
            } else {
                Some(start)
            }
        }
    }

    /// The chunk is tried again after the load came to `e`: frames ran out, and not for the
    /// page for which they ran out the last time.
    pub open spec fn tried_again(self, e: Load) -> bool {
        e.short && self.tries < CHUNK_TRIES && (self.tries == 0 || e.cached > 0)
    }

    /// The chunk to read next; none where the load is over, or memory is short.
    pub open spec fn next(self, c: CacheView, free: u64) -> Option<u64> {
        if self.done || free < KEEP_FREE {
            None
        } else {
            self.missing_from(c, self.offset)
        }
    }
}

/// Starts loading a whole file into the cache.
///
/// The caller asks [`next_chunk`] what to read, reads it, and hands what it got to
/// [`chunk_read`], until there is nothing left to read.
pub fn prepopulate_file(cache: &mut PageCache, mount: usize, inode: u64, file_size: u64) -> (r:
    Prepopulate)
    requires
        old(cache).wf(),
    ensures
        final(cache).wf(),
        final(cache)@ == (CacheView { prepopulating: true, ..old(cache)@ }),
        r.wf(),
        r == (Prepopulate { mount, inode, file_size, offset: 0, cached: 0, tries: 0, done: false }),
{
    cache.prepopulating = true;
    Prepopulate { mount, inode, file_size, offset: 0, cached: 0, tries: 0, done: false }
}

fn all_cached(cache: &PageCache, mount: usize, inode: u64, start: u64, len: u64) -> (r: bool)
    requires
        cache.wf(),
        start + len <= u64::MAX,
        len <= CHUNK_BYTES,
    ensures
        r == chunk_cached(cache@, mount, inode, start, len),
{
    let mut at: u64 = 0;
    let mut i: u64 = 0;
    while at < len
        invariant
            cache.wf(),
            start + len <= u64::MAX,
            len <= CHUNK_BYTES,
            at == i * 4096,
            forall|j: int|
                0 <= j < i ==> cache@.pages.contains_key(
                    #[trigger] chunk_key(mount, inode, start, j * 4096),
                ),
        decreases len + 4096 - at,
    {
        if lookup(cache, mount, inode, start + at).is_none() {
            assert(!cache@.pages.contains_key(chunk_key(mount, inode, start, i * 4096)));
            return false;
        }
        at = at + 4096;
        i = i + 1;
    }
    true
}

/// A chunk starts where the one before it ends.
proof fn lemma_chunk(file_size: u64, offset: u64)
    requires
        offset < file_size,
        offset % CHUNK_BYTES == 0,
    ensures
        chunk_start(offset) == offset,
        0 < chunk_len(file_size, offset) <= CHUNK_BYTES,
        offset + chunk_len(file_size, offset) <= file_size,
        offset + chunk_len(file_size, offset) < file_size ==> (offset + chunk_len(
            file_size,
            offset,
        )) % (CHUNK_BYTES as int) == 0,
{
}

/// What to read next: the start and the length of a chunk.  Nothing where every page
/// is cached, or the load was broken off, or fewer than [`KEEP_FREE`] frames are free;
/// the load is over then.
#[verifier::spinoff_prover]
pub fn next_chunk(p: &mut Prepopulate, cache: &mut PageCache, pmm: &Pmm) -> (r: Option<(u64, u64)>)
    requires
        old(p).wf(),
        old(cache).wf(),
    ensures
        final(p).wf(),
        final(cache).wf(),
        ({
            let next = old(p).next(old(cache)@, pmm@.total.saturating_sub(pmm@.used));
            &&& r == (match next {
                Some(start) => Some((start, chunk_len(old(p).file_size, start))),
                None => None,
            })
            &&& r is Some ==> {
                &&& (r->0).0 == final(p).offset
                &&& (r->0).0 % CHUNK_BYTES == 0
                &&& (r->0).0 < old(p).file_size
                &&& 0 < (r->0).1 <= CHUNK_BYTES
                &&& (r->0).0 + (r->0).1 <= old(p).file_size
                &&& !final(p).done
                &&& final(cache)@ == old(cache)@
            }
            &&& r is None ==> {
                &&& final(p).done
                &&& final(cache)@ == (CacheView { prepopulating: false, ..old(cache)@ })
            }
            &&& final(p).cached == old(p).cached
            &&& final(p).tries == (if final(p).offset == old(p).offset {
                old(p).tries
            } else {
                0
            })
            &&& final(p).mount == old(p).mount
            &&& final(p).inode == old(p).inode
            &&& final(p).file_size == old(p).file_size
        }),
{
    let low: bool = free_page_count(pmm) < KEEP_FREE;
    while !p.done && p.offset < p.file_size && !low
        invariant
            p.wf(),
            cache.wf(),
            old(p).wf(),
            *cache == *old(cache),
            low == (pmm@.total.saturating_sub(pmm@.used) < KEEP_FREE),
            p.done == old(p).done,
            p.cached == old(p).cached,
            p.offset >= old(p).offset,
            p.tries == (if p.offset == old(p).offset {
                old(p).tries
            } else {
                0
            }),
            p.mount == old(p).mount,
            p.inode == old(p).inode,
            p.file_size == old(p).file_size,
            old(p).missing_from(cache@, p.offset) == old(p).missing_from(cache@, old(p).offset),
        decreases p.file_size - p.offset,
    {
        proof {
            lemma_chunk(p.file_size, p.offset);
        }
        let start: u64 = p.offset - p.offset % CHUNK_BYTES;
        let rest: u64 = p.file_size - start;
        let len: u64 = if rest < CHUNK_BYTES {
            rest
        } else {
            CHUNK_BYTES
        };
        assert(start == p.offset && len == chunk_len(p.file_size, start));
        if !all_cached(cache, p.mount, p.inode, start, len) {
            return Some((start, len));
        }
        p.offset = start + len;
        p.tries = 0;
    }
    p.done = true;
    cache.prepopulating = false;
    None
}

/// The cache, the frames, the quarantine and memory while a chunk is put in.
#[verifier::ext_equal]
pub struct Load {
    pub cache: CacheView,
    pub frames: FramesView,
    pub tlb: TlbView,
    pub mem: Seq<u64>,
    /// Pages that were put in.
    pub cached: nat,
    /// No frame was left for one of them.
    pub short: bool,
}

impl Load {
    /// After the page at byte `at` of the chunk was put in from `data`.
    pub open spec fn page_loaded(self, key: CacheKey, data: Seq<u8>, at: int, now: u64) -> Load {
        let (got, frames) = self.frames.allocated(now);
        match got {
            None => Load { frames, short: true, ..self },
            Some(phys) => {
                let (cache, frames, tlb) = self.cache.after_insert(
                    frames,
                    self.tlb,
                    key,
                    phys,
                    now,
                );
                Load {
                    cache,
                    frames,
                    tlb,
                    mem: with_frame(self.mem, phys, page_from(data, at)),
                    cached: self.cached + 1,
                    short: false,
                }
            },
        }
    }

    /// After the pages of the chunk from byte `at` on were put in, where they were
    /// missing and there was memory.
    #[verifier::opaque]
    pub open spec fn filled(
        self,
        mount: usize,
        inode: u64,
        start: u64,
        len: u64,
        data: Seq<u8>,
        at: int,
        now: u64,
    ) -> Load
        decreases len + 4096 - at,
    {
        let key = chunk_key(mount, inode, start, at);
        if at >= len {
            self
        } else if self.cache.pages.contains_key(key) {
            self.filled(mount, inode, start, len, data, at + 4096, now)
        } else {
            let next = self.page_loaded(key, data, at, now);
            if next.short {
                next
            } else {
                next.filled(mount, inode, start, len, data, at + 4096, now)
            }
        }
    }
}

/// Puts the pages of a chunk that are missing into the cache.  `data` is what the file
/// gave, which may be less than was asked for: the rest is zero.
fn fill_chunk(
    cache: &mut PageCache,
    f: &mut Frames,
    t: &mut Tlb,
    mem: &mut PhysMem,
    mount: usize,
    inode: u64,
    start: u64,
    len: u64,
    data: &Vec<u8>,
    now: u64,
) -> (r: (u64, bool))
    requires
        old(cache).wf(),
        old(f).wf(),
        old(f)@.refs.counts is Some,
        old(t)@.wf(),
        start + len <= u64::MAX,
        len <= CHUNK_BYTES,
    ensures
        final(cache).wf(),
        final(f).wf(),
        final(f)@.refs.counts is Some,
        final(t)@.wf(),
        r.0 * 4096 < len + 4096,
        ({
            let s = Load {
                cache: old(cache)@,
                frames: old(f)@,
                tlb: old(t)@,
                mem: old(mem)@,
                cached: 0,
                short: false,
            };
            let e = s.filled(mount, inode, start, len, data@, 0, now);
            &&& r.0 == e.cached
            &&& r.1 == e.short
            &&& final(cache)@ == e.cache
            &&& final(f)@ == e.frames
            &&& final(t)@ == e.tlb
            &&& final(mem)@ == e.mem
        }),
{
    let ghost s = Load {
        cache: cache@,
        frames: f@,
        tlb: t@,
        mem: mem@,
        cached: 0,
        short: false,
    };
    let ghost e = s.filled(mount, inode, start, len, data@, 0, now);
    let mut cached: u64 = 0;
    let mut at: u64 = 0;
    while at < len
        invariant
            cache.wf(),
            f.wf(),
            f@.refs.counts is Some,
            t@.wf(),
            start + len <= u64::MAX,
            len <= CHUNK_BYTES,
            at % 4096 == 0,
            cached * 4096 <= at,
            at < len + 4096,
            s == (Load {
                cache: old(cache)@,
                frames: old(f)@,
                tlb: old(t)@,
                mem: old(mem)@,
                cached: 0,
                short: false,
            }),
            e == s.filled(mount, inode, start, len, data@, 0, now),
            e == (Load {
                cache: cache@,
                frames: f@,
                tlb: t@,
                mem: mem@,
                cached: cached as nat,
                short: false,
            }).filled(mount, inode, start, len, data@, at as int, now),
        decreases len + 4096 - at,
    {
        let ghost now_load = Load {
            cache: cache@,
            frames: f@,
            tlb: t@,
            mem: mem@,
            cached: cached as nat,
            short: false,
        };
        let ghost key = chunk_key(mount, inode, start, at as int);
        proof {
            reveal(Load::filled);
        }
        if lookup(cache, mount, inode, start + at).is_none() {
            match alloc_page(f, now) {
                Some(phys) => {
                    let words: Vec<u64> = page_of_bytes(data, at);
                    mem.write_frame(phys, &words);
                    let _outcome = insert(cache, f, t, mem, mount, inode, start + at, phys, now);
                    cached = cached + 1;
                    proof {
                        let next = now_load.page_loaded(key, data@, at as int, now);
                        assert(next == (Load {
                            cache: cache@,
                            frames: f@,
                            tlb: t@,
                            mem: mem@,
                            cached: cached as nat,
                            short: false,
                        }));
                    }
                },
                None => {
                    proof {
                        let next = now_load.page_loaded(key, data@, at as int, now);
                        assert(next.short);
                        assert(e == next);
                    }
                    return (cached, true);
                },
            }
        }
        at = at + 4096;
    }
    proof {
        reveal(Load::filled);
    }
    (cached, false)
}

/// What came back of the chunk that [`next_chunk`] asked for: nothing where the read
/// failed, which ends the load; else the bytes that were read, which may be fewer than
/// were asked for.  A read of no bytes leaves the chunk out.
///
/// Says whether frames ran out and the load stays at the chunk.  The caller then has memory
/// freed and calls once more with the same bytes: the pages that are in are passed over, and
/// the one that found no frame is tried again.  Where it finds none again, the rest of the
/// chunk is left out.
#[verifier::spinoff_prover]
pub fn chunk_read(
    p: &mut Prepopulate,
    cache: &mut PageCache,
    f: &mut Frames,
    t: &mut Tlb,
    mem: &mut PhysMem,
    data: Option<&Vec<u8>>,
    now: u64,
) -> (again: bool)
    requires
        old(p).wf(),
        !old(p).done,
        old(p).offset < old(p).file_size,
        old(cache).wf(),
        old(f).wf(),
        old(f)@.refs.counts is Some,
        old(t)@.wf(),
        data is Some ==> data->0@.len() <= chunk_len(old(p).file_size, old(p).offset),
    ensures
        final(p).wf(),
        final(cache).wf(),
        final(f).wf(),
        final(f)@.refs.counts is Some,
        final(t)@.wf(),
        final(p).mount == old(p).mount,
        final(p).inode == old(p).inode,
        final(p).file_size == old(p).file_size,
        final(p).done == (data is None),
        ({
            let s = Load {
                cache: old(cache)@,
                frames: old(f)@,
                tlb: old(t)@,
                mem: old(mem)@,
                cached: 0,
                short: false,
            };
            let len = chunk_len(old(p).file_size, old(p).offset);
            let e = if data is Some && data->0@.len() > 0 {
                s.filled(old(p).mount, old(p).inode, old(p).offset, len, data->0@, 0, now)
            } else {
                s
            };
            &&& final(cache)@ == (if data is None {
                CacheView { prepopulating: false, ..e.cache }
            } else {
                e.cache
            })
            &&& final(f)@ == e.frames
            &&& final(t)@ == e.tlb
            &&& final(mem)@ == e.mem
            &&& final(p).cached == old(p).cached + e.cached
            &&& again == old(p).tried_again(e)
            &&& final(p).tries == (if again {
                old(p).tries + 1
            } else if data is None {
                old(p).tries as int
            } else {
                0
            })
            &&& final(p).offset == (if data is None || again {
                old(p).offset as int
            } else {
                old(p).offset + len
            })
        }),
{
    let start: u64 = p.offset;
    let rest: u64 = p.file_size - start;
    let len: u64 = if rest < CHUNK_BYTES {
        rest
    } else {
        CHUNK_BYTES
    };
    match data {
        None => {
            p.done = true;
            cache.prepopulating = false;
            false
        },
        Some(bytes) => {
            let mut again: bool = false;
            if bytes.len() > 0 {
                let (n, ran_out) = fill_chunk(
                    cache,
                    f,
                    t,
                    mem,
                    p.mount,
                    p.inode,
                    start,
                    len,
                    bytes,
                    now,
                );
                p.cached = p.cached + n;
                again = ran_out && p.tries < CHUNK_TRIES && (p.tries == 0 || n > 0);
            }
            if again {
                p.tries = p.tries + 1;
            } else {
                p.tries = 0;
                p.offset = start + len;
            }
            again
        },
    }
}

/// Each page's frame is a whole one that is counted, and the count of every frame is
/// at least the number of pages that it is listed under.
pub open spec fn backed(c: CacheView, refs: RefCountsView) -> bool {
    &&& c.pages.dom().finite()
    &&& forall|key: CacheKey| #[trigger]
        c.pages.contains_key(key) ==> c.pages[key].phys % 4096 == 0 && refs.tracks(
            c.pages[key].phys,
        )
    &&& forall|phys: u64|
        phys % 4096 == 0 ==> (#[trigger] refs.count(phys)) >= c.holders(phys).len()
}

proof fn lemma_holders_after_remove(c: CacheView, key: CacheKey, phys: u64)
    requires
        c.pages.dom().finite(),
        c.pages.contains_key(key),
    ensures
        c.without(key).holders(phys).len() == c.holders(phys).len() - (if c.pages[key].phys == phys {
            1int
        } else {
            0
        }),
{
    let after = c.without(key);
    if c.pages[key].phys == phys {
        assert(after.holders(phys) =~= c.holders(phys).remove(key));
        assert(c.holders(phys).contains(key));
    } else {
        assert(after.holders(phys) =~= c.holders(phys));
    }
}

proof fn lemma_holders_after_insert(c: CacheView, key: CacheKey, frame: u64, phys: u64)
    requires
        c.pages.dom().finite(),
        !c.pages.contains_key(key),
    ensures
        c.with_page(key, frame).holders(phys).len() == c.holders(phys).len() + (if frame == phys {
            1int
        } else {
            0
        }),
{
    let after = c.with_page(key, frame);
    if frame == phys {
        assert(after.holders(phys) =~= c.holders(phys).insert(key));
        assert(!c.holders(phys).contains(key));
    } else {
        assert(after.holders(phys) =~= c.holders(phys));
    }
}

/// Taking a page out keeps a reference for every page that stays.
pub proof fn law_evict_keeps_references(c: CacheView, refs: RefCountsView, key: CacheKey)
    requires
        refs.wf(),
        backed(c, refs),
        c.pages.contains_key(key),
    ensures
        backed(c.without(key), refs.after_dec(c.pages[key].phys)),
{
    let gone = c.pages[key].phys;
    let after = refs.after_dec(gone);
    assert(refs.count(gone) >= c.holders(gone).len());
    assert(c.holders(gone).contains(key));
    assert(c.holders(gone).len() > 0);
    assert forall|phys: u64| phys % 4096 == 0 implies (#[trigger] after.count(phys))
        >= c.without(key).holders(phys).len() by {
        lemma_holders_after_remove(c, key, phys);
        assert(refs.count(phys) >= c.holders(phys).len());
        if phys != gone {
            assert(phys as int / 4096 != gone as int / 4096);
        }
    }
}

/// Putting a page in keeps a reference for every cached page, as long as the count of
/// its frame does not run over.
pub proof fn law_insert_keeps_references(
    c: CacheView,
    refs: RefCountsView,
    key: CacheKey,
    phys: u64,
)
    requires
        refs.wf(),
        backed(c, refs),
        phys % 4096 == 0,
        refs.tracks(phys),
        refs.count(phys) < u16::MAX,
    ensures
        backed(c.with_page(key, phys), c.counts_after_insert(refs, key, phys)),
{
    let up = refs.with_count(phys, refs.count(phys).wrapping_add(1));
    assert(up.count(phys) == refs.count(phys) + 1);
    assert forall|other: u64| other % 4096 == 0 && other != phys implies (#[trigger] up.count(
        other,
    )) == refs.count(other) by {
        assert(other as int / 4096 != phys as int / 4096);
    }
    if c.pages.contains_key(key) {
        let mid = c.without(key);
        assert(mid.with_page(key, phys).pages =~= c.with_page(key, phys).pages);
        let gone = c.pages[key].phys;
        let after = up.after_dec(gone);
        assert(refs.count(gone) >= c.holders(gone).len());
        assert(c.holders(gone).contains(key));
        assert(c.holders(gone).len() > 0);
        assert(up.count(gone) > 0);
        assert forall|p: u64| p % 4096 == 0 implies (#[trigger] after.count(p)) >= c.with_page(
            key,
            phys,
        ).holders(p).len() by {
            lemma_holders_after_remove(c, key, p);
            lemma_holders_after_insert(mid, key, phys, p);
            assert(mid.with_page(key, phys).holders(p) =~= c.with_page(key, phys).holders(p));
            assert(refs.count(p) >= c.holders(p).len());
            assert(up.count(p) == refs.count(p) + (if p == phys { 1int } else { 0 }));
            if p != gone {
                assert(p as int / 4096 != gone as int / 4096);
            }
        }
    } else {
        assert forall|p: u64| p % 4096 == 0 implies (#[trigger] up.count(p)) >= c.with_page(
            key,
            phys,
        ).holders(p).len() by {
            lemma_holders_after_insert(c, key, phys, p);
            assert(refs.count(p) >= c.holders(p).len());
        }
    }
}

/// As long as the references are kept the audit finds no page without one.
pub proof fn law_audit_finds_no_orphan(c: CacheView, refs: RefCountsView)
    requires
        refs.wf(),
        backed(c, refs),
    ensures
        matching(c.pages, |key: CacheKey, page: CachedPage| refs.count(page.phys) == 0).len() == 0,
{
    let p = |key: CacheKey, page: CachedPage| refs.count(page.phys) == 0;
    assert forall|key: CacheKey| !matching(c.pages, p).contains(key) by {
        if c.pages.contains_key(key) {
            let phys = c.pages[key].phys;
            assert(c.holders(phys).contains(key));
            assert(refs.count(phys) >= c.holders(phys).len());
        }
    }
    assert(matching(c.pages, p) =~= Set::empty());
}

/// A page that was put in is found under its name, and no other page is affected.
pub proof fn law_insert_then_lookup(
    c: CacheView,
    f: FramesView,
    t: TlbView,
    key: CacheKey,
    phys: u64,
    tick: u64,
    other: CacheKey,
)
    requires
        !c.refuses(f, phys),
    ensures
        c.after_insert(f, t, key, phys, tick).0.frame(key) == Some(phys),
        other != key ==> c.after_insert(f, t, key, phys, tick).0.frame(other) == c.frame(other),
{
}

/// A page that was taken out is not found any more, and no other page is affected.
pub proof fn law_evict_then_lookup(c: CacheView, key: CacheKey, other: CacheKey)
    ensures
        c.without(key).frame(key) is None,
        other != key ==> c.without(key).frame(other) == c.frame(other),
{
}

/// A page that a load puts in holds the bytes of the file, and zeros past what was
/// read.
pub proof fn law_loaded_page_holds_the_file(mem: Seq<u64>, phys: u64, data: Seq<u8>, at: int, i: int)
    requires
        0 <= i < 4096,
        phys % 4096 == 0,
        phys as int / 8 + 512 <= mem.len(),
    ensures
        byte_at(with_frame(mem, phys, page_from(data, at)), phys + i) == data_byte(data, at + i),
{
    let k = (phys + i) / 8;
    assert(k == phys as int / 8 + i / 8);
    assert((phys + i) % 8 == i % 8);
    lemma_word_from(data, at + 8 * (i / 8), i % 8);
}

proof fn lemma_filled_keeps(
    s: Load,
    mount: usize,
    inode: u64,
    start: u64,
    len: u64,
    data: Seq<u8>,
    at: int,
    now: u64,
    key: CacheKey,
)
    requires
        s.cache.pages.contains_key(key),
    ensures
        s.filled(mount, inode, start, len, data, at, now).cache.pages.contains_key(key),
        s.filled(mount, inode, start, len, data, at, now).cache.diag == s.cache.diag,
    decreases len + 4096 - at,
{
    reveal(Load::filled);
    let here = chunk_key(mount, inode, start, at);
    if at < len {
        if s.cache.pages.contains_key(here) {
            lemma_filled_keeps(s, mount, inode, start, len, data, at + 4096, now, key);
        } else {
            let next = s.page_loaded(here, data, at, now);
            if !next.short {
                lemma_filled_keeps(next, mount, inode, start, len, data, at + 4096, now, key);
            }
        }
    }
}

/// A chunk that was read is cached completely, unless memory ran out: later faults on
/// any of its pages find them.
pub proof fn law_loaded_chunk_is_cached(
    s: Load,
    mount: usize,
    inode: u64,
    start: u64,
    len: u64,
    data: Seq<u8>,
    now: u64,
)
    requires
        !s.cache.diag,
        !s.short,
        !s.filled(mount, inode, start, len, data, 0, now).short,
    ensures
        chunk_cached(
            s.filled(mount, inode, start, len, data, 0, now).cache,
            mount,
            inode,
            start,
            len,
        ),
{
    let e = s.filled(mount, inode, start, len, data, 0, now);
    assert forall|i: int| 0 <= i && i * 4096 < len implies e.cache.pages.contains_key(
        #[trigger] chunk_key(mount, inode, start, i * 4096),
    ) by {
        lemma_filled_page(s, mount, inode, start, len, data, 0, now, i);
    }
}

proof fn lemma_filled_page(
    s: Load,
    mount: usize,
    inode: u64,
    start: u64,
    len: u64,
    data: Seq<u8>,
    from: int,
    now: u64,
    i: int,
)
    requires
        !s.cache.diag,
        !s.short,
        0 <= from <= i,
        i * 4096 < len,
        !s.filled(mount, inode, start, len, data, from * 4096, now).short,
    ensures
        s.filled(mount, inode, start, len, data, from * 4096, now).cache.pages.contains_key(
            chunk_key(mount, inode, start, i * 4096),
        ),
    decreases i - from,
{
    reveal(Load::filled);
    let at = from * 4096;
    let key = chunk_key(mount, inode, start, at);
    assert(at + 4096 == (from + 1) * 4096);
    if s.cache.pages.contains_key(key) {
        if from == i {
            lemma_filled_keeps(s, mount, inode, start, len, data, at, now, key);
        } else {
            lemma_filled_page(s, mount, inode, start, len, data, from + 1, now, i);
        }
    } else {
        let next = s.page_loaded(key, data, at, now);
        assert(!next.short);
        assert(next.cache.pages.contains_key(key));
        if from == i {
            lemma_filled_keeps(next, mount, inode, start, len, data, at + 4096, now, key);
        } else {
            lemma_filled_page(next, mount, inode, start, len, data, from + 1, now, i);
        }
    }
}

} // verus!
