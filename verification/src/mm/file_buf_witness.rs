//! Looks for a stream buffer that a read call corrupts.
//!
//! A user page that holds a C stream has the address and the size of its buffer at
//! fixed places.  Both are taken before a read call and compared after it.
use vstd::prelude::*;
use crate::mm::pmm::KERNEL_VIRT_BASE;

verus! {

/// Place of the buffer's address in the page.
pub const F_BUF_PAGE_OFFSET: u64 = 0x68;

/// Place of the buffer's size in the page.
pub const F_SIZE_PAGE_OFFSET: u64 = 0x70;

/// The first so many finds are all reported.
pub const FIRST_FIRE_CAP: u64 = 16;

/// Of the later ones, each find whose number this divides.
pub const SAMPLED_FIRE_MOD: u64 = 1024;

/// User addresses have no more than 48 bits.
pub const USER_ADDRESS_END: u64 = 0x1_0000_0000_0000;

/// What was found before a read call.
#[derive(Clone, Copy, Debug)]
pub struct Snapshot {
    pub pid: u64,
    pub fd: u64,
    pub page_base: u64,
    pub pre_buf: u64,
    pub pre_size: u64,
    pub buf_va: u64,
    /// Both fields could be read.
    pub valid: bool,
}

/// Counts of what was found.
#[derive(Clone, Copy)]
pub struct Witness {
    /// Whether anything is looked for.
    pub enabled: bool,
    /// Calls across which a field changed.
    pub delta_fires: u64,
    /// Calls before which both fields were zero; none is counted.
    pub zero_pre_fires: u64,
    /// Calls that left both fields zero, which were not before.
    pub zero_post_fires: u64,
    /// Pages that could not be read before a call.
    pub snapshot_fails: u64,
}

/// What is to be reported after a read call.
#[derive(Clone, Copy, PartialEq, Eq, Structural, Debug)]
pub struct Findings {
    /// Number of this change among all changes, if it is to be reported.
    pub delta: Option<u64>,
    /// Number of this loss of both fields among all, if it is to be reported.
    pub zeroed: Option<u64>,
}

/// The snapshot of nothing.
pub open spec fn no_snapshot() -> Snapshot {
    Snapshot {
        pid: 0,
        fd: 0,
        page_base: 0,
        pre_buf: 0,
        pre_size: 0,
        buf_va: 0,
        valid: false,
    }
}

/// Find number `n` is reported.
pub open spec fn reported(n: u64) -> bool {
    n <= FIRST_FIRE_CAP || n % SAMPLED_FIRE_MOD == 0
}

/// The fields looked like those of an open stream.
pub open spec fn looked_open(snap: Snapshot) -> bool {
    snap.pre_buf != 0 && snap.pre_size != 0 && snap.pre_buf < USER_ADDRESS_END
}

impl Snapshot {
    pub fn invalid() -> (r: Snapshot)
        ensures
            r == no_snapshot(),
    {
        Snapshot {
            pid: 0,
            fd: 0,
            page_base: 0,
            pre_buf: 0,
            pre_size: 0,
            buf_va: 0,
            valid: false,
        }
    }
}

impl Witness {
    pub fn new(enabled: bool) -> (r: Witness)
        ensures
            r == (Witness {
                enabled,
                delta_fires: 0,
                zero_pre_fires: 0,
                zero_post_fires: 0,
                snapshot_fails: 0,
            }),
    {
        Witness {
            enabled,
            delta_fires: 0,
            zero_pre_fires: 0,
            zero_post_fires: 0,
            snapshot_fails: 0,
        }
    }
}

/// The page whose fields are taken for a read into `buf_va` by a processor that runs on
/// `cr3`; none for an address that is no user address.
pub fn page_to_sample(buf_va: u64, cr3: u64) -> (r: Option<u64>)
    ensures
        r == (if buf_va == 0 || buf_va >= KERNEL_VIRT_BASE || cr3 == 0 {
            None
        } else {
            Some((buf_va - buf_va % 4096) as u64)
        }),
        r matches Some(p) ==> p % 4096 == 0 && p <= buf_va < p + 4096,
        r is Some <==> 0 < buf_va < 0xFFFF_8000_0000_0000 && cr3 > 0,
{
    if buf_va == 0 || buf_va >= KERNEL_VIRT_BASE || cr3 == 0 {
        None
    } else {
        Some(buf_va - buf_va % 4096)
    }
}

/// Takes the fields before a read into `buf_va`.  `buf` and `size` are the two words at
/// their places in the page of `buf_va`, where they could be read.
pub fn pre_read(
    w: &mut Witness,
    pid: u64,
    fd: u64,
    buf_va: u64,
    cr3: u64,
    buf: Option<u64>,
    size: Option<u64>,
) -> (r: Snapshot)
    ensures
        ({
            let watched = old(w).enabled && buf_va != 0 && buf_va < KERNEL_VIRT_BASE && cr3 != 0;
            let read = buf is Some && size is Some;
            &&& r == (if watched && read {
                Snapshot {
                    pid,
                    fd,
                    page_base: (buf_va - buf_va % 4096) as u64,
                    pre_buf: buf->0,
                    pre_size: size->0,
                    buf_va,
                    valid: true,
                }
            } else {
                no_snapshot()
            })
            &&& *final(w) == (if watched && !read {
                Witness { snapshot_fails: old(w).snapshot_fails.wrapping_add(1), ..*old(w) }
            } else {
                *old(w)
            })
        }),
{
    if !w.enabled {
        return Snapshot::invalid();
    }
    let page_base: u64 = match page_to_sample(buf_va, cr3) {
        Some(page) => page,
        None => {
            return Snapshot::invalid();
        },
    };
    let pre_buf: u64 = match buf {
        Some(v) => v,
        None => {
            w.snapshot_fails = w.snapshot_fails.wrapping_add(1);
            return Snapshot::invalid();
        },
    };
    let pre_size: u64 = match size {
        Some(v) => v,
        None => {
            w.snapshot_fails = w.snapshot_fails.wrapping_add(1);
            return Snapshot::invalid();
        },
    };
    Snapshot { pid, fd, page_base, pre_buf, pre_size, buf_va, valid: true }
}

/// Compares the fields after a read call.  `buf` and `size` are the two words at their
/// places in the page of the snapshot, where they could still be read.
pub fn post_read(w: &mut Witness, snap: Snapshot, cr3: u64, buf: Option<u64>, size: Option<u64>) -> (r:
    Findings)
    ensures
        ({
            let read = old(w).enabled && snap.valid && cr3 != 0 && buf is Some && size is Some;
            let changed = read && (buf->0 != snap.pre_buf || size->0 != snap.pre_size);
            let zeroed = read && looked_open(snap) && buf->0 == 0 && size->0 == 0;
            let deltas = old(w).delta_fires.wrapping_add(1);
            let zeros = old(w).zero_post_fires.wrapping_add(1);
            &&& r.delta == (if changed && reported(deltas) {
                Some(deltas)
            } else {
                None
            })
            &&& r.zeroed == (if zeroed && reported(zeros) {
                Some(zeros)
            } else {
                None
            })
            &&& *final(w) == (Witness {
                delta_fires: if changed {
                    deltas
                } else {
                    old(w).delta_fires
                },
                zero_post_fires: if zeroed {
                    zeros
                } else {
                    old(w).zero_post_fires
                },
                ..*old(w)
            })
        }),
{
    let mut r = Findings { delta: None, zeroed: None };
    if !w.enabled || !snap.valid || cr3 == 0 {
        return r;
    }
    let post_buf: u64 = match buf {
        Some(v) => v,
        None => {
            return r;
        },
    };
    let post_size: u64 = match size {
        Some(v) => v,
        None => {
            return r;
        },
    };
    if post_buf != snap.pre_buf || post_size != snap.pre_size {
        let n: u64 = w.delta_fires.wrapping_add(1);
        w.delta_fires = n;
        if n <= FIRST_FIRE_CAP || n % SAMPLED_FIRE_MOD == 0 {
            r.delta = Some(n);
        }
    }
    if snap.pre_buf != 0 && snap.pre_size != 0 && snap.pre_buf < USER_ADDRESS_END && post_buf == 0
        && post_size == 0 {
        let n: u64 = w.zero_post_fires.wrapping_add(1);
        w.zero_post_fires = n;
        if n <= FIRST_FIRE_CAP || n % SAMPLED_FIRE_MOD == 0 {
            r.zeroed = Some(n);
        }
    }
    r
}

/// Changes, both fields zero before, both fields lost, pages that could not be read;
/// all zero where nothing is looked for.
pub fn counters(w: &Witness) -> (r: (u64, u64, u64, u64))
    ensures
        r == (if w.enabled {
            (w.delta_fires, w.zero_pre_fires, w.zero_post_fires, w.snapshot_fails)
        } else {
            (0, 0, 0, 0)
        }),
{
    if w.enabled {
        (w.delta_fires, w.zero_pre_fires, w.zero_post_fires, w.snapshot_fails)
    } else {
        (0, 0, 0, 0)
    }
}

} // verus!
