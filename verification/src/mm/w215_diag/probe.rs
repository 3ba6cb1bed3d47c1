//! Kernel writes to user buffers that lie in cached frames.
use vstd::prelude::*;
use crate::mm::cache::{is_phys_in_cache, key_lt, CacheKey, CacheView, PageCache};
use crate::mm::physmem::PhysMem;
use crate::mm::vmm::{translate, virt_to_phys_in};

verus! {

/// A system call, or another place, that writes to a user buffer.
#[derive(Clone, Copy, PartialEq, Eq, Structural, Debug)]
pub enum Writer {
    DevZero,
    Statx,
    Getrandom,
    Getrusage,
    Sysinfo,
    Times,
    Memset,
    Preadv120,
    ClearTid,
    Sigframe,
}

/// Number of writers.
pub const WRITERS: u64 = 10;

/// Per writer, how often it wrote to a cached frame.
pub struct Probes {
    pub counts: Vec<u64>,
    /// Per writer, whether that was reported.
    pub reported: Vec<bool>,
}

/// What is known of the writers.
#[verifier::ext_equal]
pub struct ProbesView {
    pub counts: Seq<u64>,
    pub reported: Seq<bool>,
}

impl View for Probes {
    type V = ProbesView;

    open spec fn view(&self) -> ProbesView {
        ProbesView { counts: self.counts@, reported: self.reported@ }
    }
}

impl Writer {
    /// Number of the writer.
    pub open spec fn index(self) -> int {
        match self {
            Writer::DevZero => 0,
            Writer::Statx => 1,
            Writer::Getrandom => 2,
            Writer::Getrusage => 3,
            Writer::Sysinfo => 4,
            Writer::Times => 5,
            Writer::Memset => 6,
            Writer::Preadv120 => 7,
            Writer::ClearTid => 8,
            Writer::Sigframe => 9,
        }
    }

    fn number(self) -> (i: usize)
        ensures
            i == self.index(),
            i < WRITERS,
    {
        match self {
            Writer::DevZero => 0,
            Writer::Statx => 1,
            Writer::Getrandom => 2,
            Writer::Getrusage => 3,
            Writer::Sysinfo => 4,
            Writer::Times => 5,
            Writer::Memset => 6,
            Writer::Preadv120 => 7,
            Writer::ClearTid => 8,
            Writer::Sigframe => 9,
        }
    }

    /// Name of the writer.
    pub fn name(self) -> (r: &'static str)
        ensures
            r@ == writer_name(self.index()),
    {
        match self {
            Writer::DevZero => "dev-zero",
            Writer::Statx => "statx",
            Writer::Getrandom => "getrandom",
            Writer::Getrusage => "getrusage",
            Writer::Sysinfo => "sysinfo",
            Writer::Times => "times",
            Writer::Memset => "memset",
            Writer::Preadv120 => "preadv120",
            Writer::ClearTid => "clear-tid",
            Writer::Sigframe => "sigframe",
        }
    }
}

/// Name of writer number `i`.
pub open spec fn writer_name(i: int) -> Seq<char> {
    if i == 0 {
        "dev-zero"@
    } else if i == 1 {
        "statx"@
    } else if i == 2 {
        "getrandom"@
    } else if i == 3 {
        "getrusage"@
    } else if i == 4 {
        "sysinfo"@
    } else if i == 5 {
        "times"@
    } else if i == 6 {
        "memset"@
    } else if i == 7 {
        "preadv120"@
    } else if i == 8 {
        "clear-tid"@
    } else {
        "sigframe"@
    }
}

/// The frame of the page at `va`, where it is cached.
#[verifier::opaque]
pub open spec fn cached_frame(mem: Seq<u64>, cr3: u64, c: CacheView, va: u64) -> Option<u64> {
    match translate(mem, cr3, va) {
        Some(p) => {
            let frame = (p - p % 4096) as u64;
            if c.holders(frame).is_empty() {
                None
            } else {
                Some(frame)
            }
        },
        None => None,
    }
}

/// The first page from `va` up to `last` whose frame is cached.
pub open spec fn first_cached(mem: Seq<u64>, cr3: u64, c: CacheView, va: int, last: int) -> Option<u64>
    decreases last + 4096 - va,
{
    if va > last {
        None
    } else if cached_frame(mem, cr3, c, va as u64) is Some {
        Some(va as u64)
    } else {
        first_cached(mem, cr3, c, va + 4096, last)
    }
}

/// The first page of the buffer whose frame is cached.  A buffer without bytes counts as
/// one of one byte; none is looked for in one that runs out of the address space.
pub open spec fn over_cache(mem: Seq<u64>, cr3: u64, c: CacheView, buf: u64, len: u64) -> Option<u64> {
    let n = if len == 0 {
        1int
    } else {
        len as int
    };
    if buf == 0 || buf + n > u64::MAX {
        None
    } else {
        first_cached(mem, cr3, c, buf - buf % 4096, (buf + n - 1) / 4096 * 4096)
    }
}

/// A write to a cached frame.
#[derive(Clone, Copy, PartialEq, Eq, Structural, Debug)]
pub struct ProbeHit {
    pub vaddr: u64,
    pub phys: u64,
    /// The page that the frame holds.
    pub key: CacheKey,
    /// It is the first of this writer, and to be reported.
    pub first: bool,
}

impl ProbesView {
    pub open spec fn wf(self) -> bool {
        self.counts.len() == WRITERS && self.reported.len() == WRITERS
    }
}

impl Probes {
    /// Nothing was found yet.
    pub fn new() -> (r: Probes)
        ensures
            r@.wf(),
            r@ == (ProbesView {
                counts: Seq::new(WRITERS as nat, |i: int| 0u64),
                reported: Seq::new(WRITERS as nat, |i: int| false),
            }),
    {
        let mut counts: Vec<u64> = Vec::new();
        let mut reported: Vec<bool> = Vec::new();
        let mut i: u64 = 0;
        while i < WRITERS
            invariant
                i <= WRITERS,
                counts@ == Seq::new(i as nat, |j: int| 0u64),
                reported@ == Seq::new(i as nat, |j: int| false),
            decreases WRITERS - i,
        {
            counts.push(0);
            reported.push(false);
            i = i + 1;
        }
        Probes { counts, reported }
    }
}

/// The frame of the page at `va`, where it is cached, and the page of a file that it
/// holds.
fn frame_if_cached(mem: &PhysMem, cr3: u64, cache: &PageCache, va: u64) -> (r: Option<
    (u64, CacheKey),
>)
    requires
        cache.wf(),
    ensures
        r is None <==> cached_frame(mem@, cr3, cache@, va) is None,
        r matches Some((phys, key)) ==> {
            &&& cached_frame(mem@, cr3, cache@, va) == Some(phys)
            &&& cache@.holders(phys).contains(key)
            &&& forall|other: CacheKey| #[trigger]
                cache@.holders(phys).contains(other) ==> other == key || key_lt(key, other)
        },
{
    proof {
        reveal(cached_frame);
    }
    match virt_to_phys_in(mem, cr3, va) {
        Some(p) => {
            let phys: u64 = p - p % 4096;
            match is_phys_in_cache(cache, phys) {
                Some((mount, inode, page_offset)) => {
                    let key = CacheKey { mount, inode, page_offset };
                    assert(cache@.holders(phys).contains(key));
                    Some((phys, key))
                },
                None => None,
            }
        },
        None => None,
    }
}

/// The first page of the buffer whose frame is cached: its address, its frame and the
/// page of a file that the frame holds.
pub fn check_user_buf_over_cache(mem: &PhysMem, cr3: u64, cache: &PageCache, buf: u64, len: u64) -> (r:
    Option<(u64, u64, CacheKey)>)
    requires
        cache.wf(),
    ensures
        r is None <==> over_cache(mem@, cr3, cache@, buf, len) is None,
        r matches Some((va, phys, key)) ==> {
            &&& over_cache(mem@, cr3, cache@, buf, len) == Some(va)
            &&& cached_frame(mem@, cr3, cache@, va) == Some(phys)
            &&& cache@.holders(phys).contains(key)
            &&& forall|other: CacheKey| #[trigger]
                cache@.holders(phys).contains(other) ==> other == key || key_lt(key, other)
        },
{
    if buf == 0 {
        return None;
    }
    let n: u64 = if len == 0 {
        1
    } else {
        len
    };
    if buf > u64::MAX - n {
        return None;
    }
    let last: u64 = (buf + n - 1) / 4096 * 4096;
    let first: u64 = buf - buf % 4096;
    let mut va: u64 = first;
    loop
        invariant
            cache.wf(),
            va <= last,
            va % 4096 == 0,
            last % 4096 == 0,
            over_cache(mem@, cr3, cache@, buf, len) == first_cached(
                mem@,
                cr3,
                cache@,
                va as int,
                last as int,
            ),
        decreases last - va,
    {
        if let Some((phys, key)) = frame_if_cached(mem, cr3, cache, va) {
            return Some((va, phys, key));
        }
        if va == last {
            proof {
                assert(first_cached(mem@, cr3, cache@, va + 4096, last as int) is None);
            }
            return None;
        }
        va = va + 0x1000;
    }
}

/// A writer is about to write to the buffer: where a page of it lies in a cached frame,
/// that is counted.
pub fn probe(
    p: &mut Probes,
    mem: &PhysMem,
    cr3: u64,
    cache: &PageCache,
    writer: Writer,
    buf: u64,
    len: u64,
) -> (r: Option<ProbeHit>)
    requires
        old(p)@.wf(),
        cache.wf(),
    ensures
        final(p)@.wf(),
        r is None <==> over_cache(mem@, cr3, cache@, buf, len) is None,
        r matches Some(hit) ==> {
            &&& over_cache(mem@, cr3, cache@, buf, len) == Some(hit.vaddr)
            &&& cached_frame(mem@, cr3, cache@, hit.vaddr) == Some(hit.phys)
            &&& cache@.holders(hit.phys).contains(hit.key)
            &&& forall|other: CacheKey| #[trigger]
                cache@.holders(hit.phys).contains(other) ==> other == hit.key || key_lt(
                    hit.key,
                    other,
                )
            &&& hit.first == !old(p)@.reported[writer.index()]
        },
        final(p)@ == (if r is None {
            old(p)@
        } else {
            ProbesView {
                counts: old(p)@.counts.update(
                    writer.index(),
                    old(p)@.counts[writer.index()].wrapping_add(1),
                ),
                reported: old(p)@.reported.update(writer.index(), true),
            }
        }),
{
    match check_user_buf_over_cache(mem, cr3, cache, buf, len) {
        None => None,
        Some((vaddr, phys, key)) => {
            let i: usize = writer.number();
            let n: u64 = p.counts[i];
            p.counts.set(i, n.wrapping_add(1));
            let first: bool = !p.reported[i];
            p.reported.set(i, true);
            Some(ProbeHit { vaddr, phys, key, first })
        },
    }
}

/// Each writer's name, and how often it wrote to a cached frame.
pub fn counts(p: &Probes) -> (r: Vec<(&'static str, u64)>)
    requires
        p@.wf(),
    ensures
        r@.len() == WRITERS,
        forall|i: int|
            0 <= i < WRITERS ==> (#[trigger] r@[i]).0@ == writer_name(i) && r@[i].1
                == p@.counts[i],
{
    let mut r: Vec<(&'static str, u64)> = Vec::new();
    r.push((Writer::DevZero.name(), p.counts[0]));
    r.push((Writer::Statx.name(), p.counts[1]));
    r.push((Writer::Getrandom.name(), p.counts[2]));
    r.push((Writer::Getrusage.name(), p.counts[3]));
    r.push((Writer::Sysinfo.name(), p.counts[4]));
    r.push((Writer::Times.name(), p.counts[5]));
    r.push((Writer::Memset.name(), p.counts[6]));
    r.push((Writer::Preadv120.name(), p.counts[7]));
    r.push((Writer::ClearTid.name(), p.counts[8]));
    r.push((Writer::Sigframe.name(), p.counts[9]));
    r
}

} // verus!
