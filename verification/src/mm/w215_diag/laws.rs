//! What the tables of provenance promise.
use vstd::prelude::*;
use crate::mm::cache::CacheView;
use crate::mm::physmem::byte_at;
use crate::mm::vmm::translate;
use crate::mm::w215_diag::band::{band_slot, banded, page, BandState, BandView};
use crate::mm::w215_diag::cache_prov::{
    covered, fingerprint, fnv, frame, held, prov_key, prov_slot, CacheProvEntry, CacheProvView,
    SlotState,
};
use crate::mm::w215_diag::preins::{op_name, preins_slot, PreinsView};
use crate::mm::w215_diag::probe::{cached_frame, first_cached, over_cache, writer_name, Writer};
use crate::mm::w215_diag::prov::{
    count_place, entry_at, events_in, highest_first, kind_name, lowest, newest_first, rank_of, seen,
    tally_of, tick_place, ProvEntry,
};
use crate::mm::w215_diag::pte::{
    maps_frame, noted, pte_kind_name, pte_slot, takes_away, Changer, PteRingView,
};
use crate::mm::w215_diag::shadow::{dump_of, ShadowView};

verus! {

/// The band that is watched is the 4 GiB below the base of mappings.
pub proof fn law_which_addresses_are_watched(va: u64)
    ensures
        banded(va) <==> va >= 0x7EFF_0000_0000 && va < 0x7F00_0000_0000,
        noted(va) <==> va >= 0x1000 && va < 0x8000_0000_0000,
        page(va) % 4096 == 0,
        page(va) <= va < page(va) + 4096,
{
}

/// What is reported: the first 64 findings, and every 64th.
pub proof fn law_which_findings_are_reported(n: u64)
    ensures
        crate::mm::w215_diag::band::reported(n) <==> n <= 64 || n % 64 == 0,
        crate::mm::w215_diag::cache_prov::reported(n) <==> n <= 64 || n % 64 == 0,
{
}

/// A mapping in the band is on record under its address and under its frame, with who made it
/// and when; one outside is not.
pub proof fn law_mapping_is_on_record(
    b: BandView,
    va: u64,
    phys: u64,
    old_phys: u64,
    rip: u64,
    cr3: u64,
    cpu: u8,
    tick: u64,
)
    requires
        b.wf(),
    ensures
        ({
            let after = b.after_install(va, phys, old_phys, rip, cr3, cpu, tick);
            let e = after.by_va[band_slot(page(va))];
            let f = after.by_phys[band_slot(page(phys))];
            if banded(va) && phys > 0 {
                &&& e.va == va - va % 4096 && e.phys == phys - phys % 4096
                &&& e.install_rip == rip && e.tick == tick && e.cpu == cpu
                &&& e.state == BandState::Installed
                &&& f.va == va - va % 4096 && f.phys == phys - phys % 4096
                &&& f.install_rip == rip && f.tick == tick && f.cpu == cpu
                &&& f.state == BandState::Installed
                &&& after.installs == b.installs.wrapping_add(1)
                &&& after.unmaps == b.unmaps
            } else {
                after == b
            }
        }),
{
}

/// A second frame for an address is told with what was there before and for how long.
pub proof fn law_second_frame_is_told(
    b: BandView,
    va: u64,
    new_phys: u64,
    old_phys: u64,
    cr3: u64,
    tick: u64,
)
    requires
        b.wf(),
    ensures
        b.found_double(va, new_phys, old_phys, cr3, tick) matches Some(d) ==> {
            &&& d.n == b.double_installs.wrapping_add(1)
            &&& d.va == va - va % 4096
            &&& d.before == b.by_va[band_slot(page(va))]
            &&& d.new_phys == new_phys - new_phys % 4096
            &&& d.old_phys == old_phys - old_phys % 4096
            &&& d.before.phys != d.new_phys
            &&& d.before.phys != d.old_phys
            &&& tick >= d.before.tick ==> d.age_ticks == tick - d.before.tick
        },
{
}

/// Unmapping an address in the band is counted, and marks what is on record for it, and for no
/// other address.
pub proof fn law_unmapping_is_on_record(b: BandView, va: u64, i: int)
    requires
        b.wf(),
        0 <= i < 32768,
    ensures
        ({
            let after = b.after_unmap(va);
            let e = b.by_va[band_slot(page(va))];
            &&& !banded(va) ==> after == b
            &&& banded(va) ==> after.unmaps == b.unmaps.wrapping_add(1)
            &&& banded(va) && e.va == page(va) ==> after.by_va[band_slot(page(va))].state
                == BandState::Cleared
            &&& i != band_slot(page(va)) ==> after.by_va[i] == b.by_va[i]
            &&& after.installs == b.installs
        }),
{
}

/// A change of an entry installs a frame where it maps one, and takes it away where it unmaps it
/// or maps none.
pub proof fn law_kinds_of_changes(kind: u8, new_phys: u64)
    ensures
        maps_frame(kind, new_phys) <==> (kind == 1 || kind == 3 || kind == 5) && new_phys >= 4096,
        takes_away(kind, new_phys) <==> kind == 2 || kind == 4 || ((kind == 1 || kind == 3 || kind
            == 5) && new_phys < 4096),
{
}

/// A change of an entry is found again under its address, with who made it and when.
pub proof fn law_change_is_found(
    r: PteRingView,
    va: u64,
    new_phys: u64,
    old_phys: u64,
    kind: u8,
    c: Changer,
    i: int,
)
    requires
        r.wf(),
        noted(va),
        0 <= i < 1024,
    ensures
        ({
            let after = r.after_change(va, new_phys, old_phys, kind, c);
            let e = after.slots[pte_slot(va)];
            let was = r.slots[pte_slot(va)].va;
            &&& pte_slot(va) == va as int / 4096 % 1024
            &&& e.va == va - va % 4096
            &&& e.new_phys == new_phys - new_phys % 4096
            &&& e.old_phys == old_phys - old_phys % 4096
            &&& e.kind == kind && e.tick == c.tick && e.cpu == c.cpu && e.tid == c.tid
            &&& e.rip_low32 == c.caller_rip % 0x1_0000_0000
            &&& e.cr3_low16 == c.cr3 / 4096 % 0x1_0000
            &&& i != pte_slot(va) ==> after.slots[i] == r.slots[i]
            &&& after.recorded == r.recorded.wrapping_add(1)
            &&& after.displaced == if was > 0 && was != va - va % 4096 {
                r.displaced.wrapping_add(1)
            } else {
                r.displaced
            }
        }),
{
}

/// The kinds of changes have these names.
pub proof fn law_change_names(k: u8)
    ensures
        k == 1 ==> pte_kind_name(k) == "MAP"@,
        k == 2 ==> pte_kind_name(k) == "UNMAP"@,
        k == 3 ==> pte_kind_name(k) == "WRITE"@,
        k == 4 ==> pte_kind_name(k) == "BULK_UNMAP"@,
        k == 5 ==> pte_kind_name(k) == "FORK_CLONE"@,
        k == 0 || k > 5 ==> pte_kind_name(k) == "?"@,
{
}

/// The kinds of events have these names.
pub proof fn law_event_names(k: u8)
    ensures
        k == 1 ==> kind_name(k) == "ALLOC"@,
        k == 2 ==> kind_name(k) == "INSERT"@,
        k == 3 ==> kind_name(k) == "EVICT"@,
        k == 4 ==> kind_name(k) == "REFINC"@,
        k == 5 ==> kind_name(k) == "REFDEC"@,
        k == 6 ==> kind_name(k) == "PREINS_W"@,
        k == 7 ==> kind_name(k) == "PFH_INSTALL"@,
        k == 8 ==> kind_name(k) == "FREE"@,
        k == 0 || k > 8 ==> kind_name(k) == "UNKNOWN"@,
{
}

/// The operations on the cache have these names.
pub proof fn law_operation_names(o: u8)
    ensures
        o == 1 ==> op_name(o) == "lookup"@,
        o == 2 ==> op_name(o) == "lookup_acquire"@,
        o == 3 ==> op_name(o) == "is_phys_in_cache"@,
        o == 4 ==> op_name(o) == "evict"@,
        o == 5 ==> op_name(o) == "evict_if_phys"@,
        o == 0 || o > 5 ==> op_name(o) == "?"@,
{
}

/// Every writer has a place of its own, and its name.
pub proof fn law_writer_names(w: Writer)
    ensures
        writer_name(w.index()) == (match w {
            Writer::DevZero => "dev-zero"@,
            Writer::Statx => "statx"@,
            Writer::Getrandom => "getrandom"@,
            Writer::Getrusage => "getrusage"@,
            Writer::Sysinfo => "sysinfo"@,
            Writer::Times => "times"@,
            Writer::Memset => "memset"@,
            Writer::Preadv120 => "preadv120"@,
            Writer::ClearTid => "clear-tid"@,
            Writer::Sigframe => "sigframe"@,
        }),
        0 <= w.index() < 10,
{
}

/// Two writers do not share a place.
pub proof fn law_writers_are_apart(a: Writer, b: Writer)
    ensures
        a.index() == b.index() ==> a == b,
{
}

/// A frame that is about to be filled is on record with who fills it and for which page of which
/// file; that it was put in is counted.
pub proof fn law_filling_is_on_record(
    p: PreinsView,
    phys: u64,
    site: u8,
    cpu: u8,
    inode: u64,
    offset: u64,
    tick: u64,
    other: u64,
)
    requires
        p.wf(),
        phys > 0,
    ensures
        ({
            let after = p.after_register(phys, site, cpu, inode, offset, tick);
            &&& after.witness(phys) is Some
            &&& ({
                let w = after.witness(phys)->0;
                &&& w.phys == phys && w.site == site && w.cpu == cpu && w.tick == tick
                &&& w.inode_low16 == inode % 0x1_0000
                &&& w.off_low32 == offset / 4096 % 0x1_0000_0000
            })
            &&& preins_slot(other) != preins_slot(phys) ==> after.witness(other) == p.witness(other)
            &&& after.after_insert(phys).ok == p.ok.wrapping_add(1)
            &&& after.window_race == p.window_race
            &&& after.install_race == p.install_race
        }),
{
}

/// The frames that the cache's record covers lie between 256 MiB and 1.25 GiB, each with a place
/// of its own.
pub proof fn law_covered_frames(phys: u64)
    ensures
        covered(phys) <==> phys >= 0x1000_0000 && phys < 0x5000_0000,
        covered(phys) ==> 0 <= prov_slot(phys) < 262144 && frame(phys) == 0x1000_0000 + 4096
            * prov_slot(phys),
        frame(phys) == phys - phys % 4096,
{
}

/// A key holds the mount in 8 bits, the file in 24 and the page in 32.
pub proof fn law_key_holds_mount_file_and_page(mount: usize, inode: u64, offset: u64)
    ensures
        prov_key(mount, inode, offset) / 0x100_0000_0000_0000 == mount as u64 % 0x100,
        prov_key(mount, inode, offset) / 0x1_0000_0000 % 0x100_0000 == inode % 0x100_0000,
        prov_key(mount, inode, offset) % 0x1_0000_0000 == offset / 4096 % 0x1_0000_0000,
{
    lemma_key(
        (mount as u64 % 0x100) as int,
        inode as int % 0x100_0000,
        offset as int / 4096 % 0x1_0000_0000,
    );
}

proof fn lemma_key(a: int, b: int, c: int)
    requires
        0 <= a < 0x100,
        0 <= b < 0x100_0000,
        0 <= c < 0x1_0000_0000,
    ensures
        ({
            let k = a * 0x100_0000_0000_0000 + b * 0x1_0000_0000 + c;
            &&& 0 <= k <= u64::MAX
            &&& k / 0x100_0000_0000_0000 == a
            &&& k / 0x1_0000_0000 % 0x100_0000 == b
            &&& k % 0x1_0000_0000 == c
        }),
{
    let k = a * 0x100_0000_0000_0000 + b * 0x1_0000_0000 + c;
    assert(k / 0x1_0000_0000 == a * 0x100_0000 + b);
}

/// A product with the multiplier of the fingerprint gives back the other factor.
proof fn lemma_unmultiplied(a: int, q: int, r: int)
    requires
        0 <= a < 0x1_0000_0000_0000_0000,
        a * 0x100_0000_01b3 == q * 0x1_0000_0000_0000_0000 + r,
    ensures
        (r * 0xce965057aff6957b) % 0x1_0000_0000_0000_0000 == a,
{
    let m = 0x1_0000_0000_0000_0000int;
    let back = a * 887285111055 - q * 0xce965057aff6957b;
    assert(r * 0xce965057aff6957b == back * m + a);
    vstd::arithmetic::div_mod::lemma_fundamental_div_mod_converse(
        r * 0xce965057aff6957b,
        m,
        back,
        a,
    );
}

proof fn lemma_step_back(a: u64, b: u64)
    requires
        a.wrapping_mul(0x100_0000_01b3) == b.wrapping_mul(0x100_0000_01b3),
    ensures
        a == b,
{
    let m = 0x1_0000_0000_0000_0000int;
    let (x, y) = (a * 0x100_0000_01b3, b * 0x100_0000_01b3);
    vstd::arithmetic::div_mod::lemma_fundamental_div_mod(x, m);
    vstd::arithmetic::div_mod::lemma_fundamental_div_mod(y, m);
    lemma_unmultiplied(a as int, x / m, x % m);
    lemma_unmultiplied(b as int, y / m, y % m);
}

proof fn lemma_xor(a: u64, b: u64, c: u64)
    by (bit_vector)
    ensures
        a ^ c == b ^ c ==> a == b,
        c ^ a == c ^ b ==> a == b,
{
}

/// Frames whose first 256 bytes differ in one byte have different fingerprints.
pub proof fn law_changed_byte_changes_the_fingerprint(
    a: Seq<u64>,
    b: Seq<u64>,
    phys: u64,
    i: int,
)
    requires
        0 <= i < 256,
        byte_at(a, phys - phys % 4096 + i) != byte_at(b, phys - phys % 4096 + i),
        forall|j: int|
            0 <= j < 256 && j != i ==> #[trigger] byte_at(a, phys - phys % 4096 + j) == byte_at(
                b,
                phys - phys % 4096 + j,
            ),
    ensures
        fingerprint(a, phys) != fingerprint(b, phys),
{
    lemma_fnv_differ(a, b, phys, i, 256);
}

proof fn lemma_fnv_differ(a: Seq<u64>, b: Seq<u64>, phys: u64, i: int, n: int)
    requires
        0 <= i < n <= 256,
        byte_at(a, phys - phys % 4096 + i) != byte_at(b, phys - phys % 4096 + i),
        forall|j: int|
            0 <= j < 256 && j != i ==> #[trigger] byte_at(a, phys - phys % 4096 + j) == byte_at(
                b,
                phys - phys % 4096 + j,
            ),
    ensures
        fnv(a, phys, n) != fnv(b, phys, n),
    decreases n,
{
    let (x, y) = (fnv(a, phys, n - 1), fnv(b, phys, n - 1));
    let at = phys - phys % 4096 + (n - 1);
    let (p, q) = (byte_at(a, at) as u64, byte_at(b, at) as u64);
    assert(frame(phys) + n - 1 == at);
    if fnv(a, phys, n) == fnv(b, phys, n) {
        lemma_step_back(x ^ p, y ^ q);
        if n - 1 == i {
            lemma_fnv_agree(a, b, phys, i);
            lemma_xor(p, q, x);
        } else {
            lemma_fnv_differ(a, b, phys, i, n - 1);
            lemma_xor(x, y, p);
        }
    }
}

/// A page that is installed is on record with what it holds.
pub proof fn law_installed_page_is_on_record(
    p: CacheProvView,
    mem: Seq<u64>,
    phys: u64,
    key: u64,
    cpu: u8,
    tick: u64,
)
    requires
        p.wf(),
        p.slots is Some,
        covered(phys),
    ensures
        ({
            let after = p.after_install(mem, phys, key, cpu, tick);
            let e = after.entry(phys);
            &&& e.phys == phys - phys % 4096
            &&& e.key == key && e.install_cpu == cpu && e.tick == tick
            &&& e.fp == fingerprint(mem, phys)
            &&& e.state == SlotState::Installed
            &&& after.validated == p.validated.wrapping_add(1)
            &&& after.out_of_band == p.out_of_band
            &&& after.after_reclaim(phys).entry(phys).state == SlotState::Reclaimed
            &&& after.after_reclaim(phys).reclaims == p.reclaims.wrapping_add(1)
        }),
{
}

/// A frame outside of the band is only counted.
pub proof fn law_frame_outside_is_counted(
    p: CacheProvView,
    mem: Seq<u64>,
    phys: u64,
    key: u64,
    cpu: u8,
    tick: u64,
)
    requires
        p.wf(),
        !covered(phys),
        phys >= 4096,
    ensures
        p.after_install(mem, phys, key, cpu, tick) == (CacheProvView {
            out_of_band: p.out_of_band.wrapping_add(1),
            ..p
        }),
        p.after_reclaim(phys) == p,
{
}

/// A fingerprint rests on the first 256 bytes of the frame alone.
pub proof fn law_fingerprint_is_of_the_start(a: Seq<u64>, b: Seq<u64>, phys: u64)
    requires
        forall|i: int|
            0 <= i < 256 ==> #[trigger] byte_at(a, phys - phys % 4096 + i) == byte_at(
                b,
                phys - phys % 4096 + i,
            ),
    ensures
        fingerprint(a, phys) == fingerprint(b, phys),
{
    lemma_fnv_agree(a, b, phys, 256);
}

proof fn lemma_fnv_agree(a: Seq<u64>, b: Seq<u64>, phys: u64, n: int)
    requires
        n <= 256,
        forall|i: int|
            0 <= i < n ==> #[trigger] byte_at(a, phys - phys % 4096 + i) == byte_at(
                b,
                phys - phys % 4096 + i,
            ),
    ensures
        fnv(a, phys, n) == fnv(b, phys, n),
    decreases n,
{
    if n > 0 {
        lemma_fnv_agree(a, b, phys, n - 1);
        assert(byte_at(a, phys - phys % 4096 + (n - 1)) == byte_at(
            b,
            phys - phys % 4096 + (n - 1),
        ));
    }
}

/// The entries that are held are counted: one that is filled adds one.
pub proof fn law_held_entries_are_counted(
    s: Seq<CacheProvEntry>,
    n: int,
    i: int,
    e: CacheProvEntry,
)
    requires
        0 <= i < n <= s.len(),
        s[i].phys == 0,
        e.phys > 0,
        e.state == SlotState::Installed,
    ensures
        held(s.update(i, e), n, true) == held(s, n, true) + 1,
        held(s.update(i, e), n, false) == held(s, n, false) + 1,
        0 <= held(s, n, true) <= held(s, n, false) <= n,
    decreases n,
{
    if i == n - 1 {
        lemma_held_apart(s, n - 1, i, e);
    } else {
        law_held_entries_are_counted(s, n - 1, i, e);
    }
}

proof fn lemma_held_apart(s: Seq<CacheProvEntry>, n: int, i: int, e: CacheProvEntry)
    requires
        0 <= n <= i < s.len(),
    ensures
        held(s.update(i, e), n, true) == held(s, n, true),
        held(s.update(i, e), n, false) == held(s, n, false),
        0 <= held(s, n, true) <= held(s, n, false) <= n,
    decreases n,
{
    if n > 0 {
        lemma_held_apart(s, n - 1, i, e);
    }
}

/// A buffer is found to lie over the cache at the first of its pages that does: no page before
/// that has a frame of the cache.
pub proof fn law_first_page_over_the_cache(
    mem: Seq<u64>,
    cr3: u64,
    c: CacheView,
    buf: u64,
    len: u64,
    va: u64,
)
    requires
        buf > 0,
        len > 0,
        buf + len <= u64::MAX,
        va % 4096 == 0,
        buf - buf % 4096 <= va,
        va < buf + len,
    ensures
        ({
            let found = over_cache(mem, cr3, c, buf, len);
            let here = translate(mem, cr3, va) is Some && !c.holders(
                (translate(mem, cr3, va)->0 - translate(mem, cr3, va)->0 % 4096) as u64,
            ).is_empty();
            &&& here ==> found is Some && found->0 <= va
            &&& found == Some(va) ==> here
            &&& found matches Some(f) ==> f % 4096 == 0 && buf - buf % 4096 <= f < buf + len
        }),
{
    let from = buf - buf % 4096;
    let last = (buf + len - 1) / 4096 * 4096;
    assert(from % 4096 == 0 && va <= last && last < buf + len);
    lemma_first_cached(mem, cr3, c, from, last, va as int);
    let found = over_cache(mem, cr3, c, buf, len);
    assert(found == first_cached(mem, cr3, c, from, last));
    let here = translate(mem, cr3, va) is Some && !c.holders(
        (translate(mem, cr3, va)->0 - translate(mem, cr3, va)->0 % 4096) as u64,
    ).is_empty();
    assert(here == cached_frame(mem, cr3, c, va) is Some) by {
        reveal(cached_frame);
    }
}

proof fn lemma_first_cached(
    mem: Seq<u64>,
    cr3: u64,
    c: CacheView,
    from: int,
    last: int,
    va: int,
)
    requires
        0 <= from,
        from % 4096 == 0,
        last <= u64::MAX,
        last % 4096 == 0,
        va % 4096 == 0,
    ensures
        ({
            let found = first_cached(mem, cr3, c, from, last);
            &&& from <= va <= last && cached_frame(mem, cr3, c, va as u64) is Some ==> found is Some
                && found->0 <= va
            &&& found matches Some(f) ==> f % 4096 == 0 && from <= f <= last && cached_frame(
                mem,
                cr3,
                c,
                f,
            ) is Some
        }),
    decreases last + 4096 - from,
{
    if from <= last && cached_frame(mem, cr3, c, from as u64) is None {
        lemma_first_cached(mem, cr3, c, from + 4096, last, va);
    }
}

/// What a shadow tells of a frame: its tick, its age and the caller, or nothing.
pub proof fn law_shadow_tells_the_last_event(s: ShadowView, phys: u64, rip: u64, tick: u64, now: u64)
    requires
        s.wf(),
        phys > 0,
        now >= tick,
    ensures
        ({
            let d = dump_of(s.after_record(phys, rip, tick), phys, now);
            &&& d.hit matches Some(h) && h.tick == tick && h.age_ticks == now - tick && h.caller_rip
                == rip
            &&& d.phys == phys
            &&& d.recorded == s.recorded.wrapping_add(1)
        }),
{
}

/// Events are listed with the newest first.
pub proof fn law_newest_event_comes_first(s: Seq<ProvEntry>, i: int, j: int)
    requires
        0 <= i < j < newest_first(s).len(),
    ensures
        newest_first(s)[i].tick >= newest_first(s)[j].tick,
{
    lemma_newest_sorted(s);
}

proof fn lemma_tick_place(s: Seq<ProvEntry>, tick: u64)
    requires
        forall|i: int, j: int| 0 <= i < j < s.len() ==> s[i].tick >= s[j].tick,
    ensures
        0 <= tick_place(s, tick) <= s.len(),
        forall|i: int| 0 <= i < tick_place(s, tick) ==> (#[trigger] s[i]).tick >= tick,
        forall|i: int| tick_place(s, tick) <= i < s.len() ==> (#[trigger] s[i]).tick < tick,
    decreases s.len(),
{
    if s.len() > 0 && s.last().tick < tick {
        let t = s.drop_last();
        lemma_tick_place(t, tick);
        assert forall|i: int| tick_place(s, tick) <= i < s.len() implies (#[trigger] s[i]).tick
            < tick by {
            if i < t.len() {
                assert(t[i] == s[i]);
            }
        }
        assert forall|i: int| 0 <= i < tick_place(s, tick) implies (#[trigger] s[i]).tick >= tick by {
            assert(t[i] == s[i]);
        }
    }
}

proof fn lemma_newest_sorted(s: Seq<ProvEntry>)
    ensures
        newest_first(s).len() == s.len(),
        forall|i: int, j: int|
            0 <= i < j < newest_first(s).len() ==> newest_first(s)[i].tick >= newest_first(
                s,
            )[j].tick,
    decreases s.len(),
{
    if s.len() > 0 {
        lemma_newest_sorted(s.drop_last());
        lemma_tick_place(newest_first(s.drop_last()), s.last().tick);
    }
}

/// The list holds every event once.
pub proof fn law_every_event_is_listed(s: Seq<ProvEntry>)
    ensures
        newest_first(s).to_multiset() == s.to_multiset(),
    decreases s.len(),
{
    broadcast use vstd::seq_lib::group_to_multiset_ensures;

    if s.len() > 0 {
        let t = s.drop_last();
        law_every_event_is_listed(t);
        lemma_newest_sorted(t);
        let before = newest_first(t);
        let at = tick_place(before, s.last().tick);
        lemma_tick_place(before, s.last().tick);
        let after = before.insert(at, s.last());
        assert(after.remove(at) =~= before);
        assert(after[at] == s.last());
        vstd::seq_lib::to_multiset_remove(after, at);
        after.to_multiset_ensures();
        assert(after.contains(s.last()));
        assert(after.to_multiset() =~= before.to_multiset().insert(s.last()));
        assert(s =~= t.push(s.last()));
    }
}

/// The events of a frame are those of its bucket that name it.
pub proof fn law_events_of_a_frame(
    s: Seq<ProvEntry>,
    bucket: u64,
    n: int,
    phys: u64,
    i: int,
)
    requires
        0 <= n <= 16,
        0 <= i < n,
    ensures
        s[bucket * 16 + i].phys == phys ==> events_in(s, bucket, n, phys).contains(
            s[bucket * 16 + i],
        ),
        forall|k: int|
            0 <= k < events_in(s, bucket, n, phys).len() ==> (#[trigger] events_in(
                s,
                bucket,
                n,
                phys,
            )[k]).phys == phys,
    decreases n,
{
    let before = events_in(s, bucket, n - 1, phys);
    let all = events_in(s, bucket, n, phys);
    if n > 1 {
        law_events_of_a_frame(
            s,
            bucket,
            n - 1,
            phys,
            if i < n - 1 {
                i
            } else {
                0
            },
        );
    }
    let e = s[entry_at(bucket, i)];
    if e.phys == phys {
        if i == n - 1 {
            assert(all[before.len() as int] == e);
        } else {
            let k = choose|k: int| 0 <= k < before.len() && before[k] == e;
            assert(all[k] == e);
        }
    }
}

/// The frames with the most events come first.
pub proof fn law_most_traced_frame_comes_first(s: Seq<(u64, u32)>, i: int, j: int)
    requires
        0 <= i < j < highest_first(s).len(),
    ensures
        highest_first(s)[i].1 >= highest_first(s)[j].1,
        highest_first(s).len() == s.len(),
{
    lemma_highest_sorted(s);
}

proof fn lemma_count_place(s: Seq<(u64, u32)>, count: u32)
    requires
        forall|i: int, j: int| 0 <= i < j < s.len() ==> s[i].1 >= s[j].1,
    ensures
        0 <= count_place(s, count) <= s.len(),
        forall|i: int| 0 <= i < count_place(s, count) ==> (#[trigger] s[i]).1 >= count,
        forall|i: int| count_place(s, count) <= i < s.len() ==> (#[trigger] s[i]).1 < count,
    decreases s.len(),
{
    if s.len() > 0 && s.last().1 < count {
        let t = s.drop_last();
        lemma_count_place(t, count);
        assert forall|i: int| count_place(s, count) <= i < s.len() implies (#[trigger] s[i]).1
            < count by {
            if i < t.len() {
                assert(t[i] == s[i]);
            }
        }
        assert forall|i: int| 0 <= i < count_place(s, count) implies (#[trigger] s[i]).1 >= count by {
            assert(t[i] == s[i]);
        }
    }
}

proof fn lemma_highest_sorted(s: Seq<(u64, u32)>)
    ensures
        highest_first(s).len() == s.len(),
        forall|i: int, j: int|
            0 <= i < j < highest_first(s).len() ==> highest_first(s)[i].1 >= highest_first(s)[j].1,
    decreases s.len(),
{
    if s.len() > 0 {
        lemma_highest_sorted(s.drop_last());
        lemma_count_place(highest_first(s.drop_last()), s.last().1);
    }
}

/// How often a frame occurs among the first `n` entries.
pub open spec fn times_traced(entries: Seq<ProvEntry>, n: int, phys: u64) -> nat
    decreases n,
{
    if n <= 0 {
        0
    } else {
        times_traced(entries, n - 1, phys) + if entries[n - 1].phys == phys {
            1nat
        } else {
            0
        }
    }
}

proof fn lemma_rank(s: Seq<(u64, u32)>, i: int, phys: u64)
    requires
        0 <= i <= s.len(),
    ensures
        i <= rank_of(s, i, phys) <= s.len(),
        rank_of(s, i, phys) < s.len() ==> s[rank_of(s, i, phys)].0 == phys,
        forall|j: int| i <= j < rank_of(s, i, phys) ==> (#[trigger] s[j]).0 != phys,
    decreases s.len() - i,
{
    if i < s.len() && s[i].0 != phys {
        lemma_rank(s, i + 1, phys);
    }
}

proof fn lemma_lowest(s: Seq<(u64, u32)>, n: int)
    requires
        1 <= n <= s.len(),
    ensures
        0 <= lowest(s, n) < n,
        forall|j: int| 0 <= j < n ==> s[lowest(s, n)].1 <= (#[trigger] s[j]).1,
    decreases n,
{
    if n > 1 {
        lemma_lowest(s, n - 1);
    }
}

/// A tally of frames names each once, not more frames than asked for, and credits none with more
/// events than it has.
pub proof fn law_tally_does_not_overcount(entries: Seq<ProvEntry>, n: int, cap: int)
    requires
        0 <= n <= entries.len(),
        cap > 0,
    ensures
        ({
            let t = tally_of(entries, n, cap);
            &&& t.len() <= cap
            &&& forall|i: int|
                0 <= i < t.len() ==> (#[trigger] t[i]).0 > 0 && 1 <= t[i].1 <= times_traced(
                    entries,
                    n,
                    t[i].0,
                )
            &&& forall|i: int, j: int|
                0 <= i < j < t.len() ==> (#[trigger] t[i]).0 != (#[trigger] t[j]).0
        }),
    decreases n,
{
    if n > 0 {
        law_tally_does_not_overcount(entries, n - 1, cap);
        let s = tally_of(entries, n - 1, cap);
        let t = tally_of(entries, n, cap);
        let phys = entries[n - 1].phys;
        lemma_rank(s, 0, phys);
        if s.len() > 0 {
            lemma_lowest(s, s.len() as int);
        }
        assert forall|i: int| 0 <= i < t.len() implies (#[trigger] t[i]).0 > 0 && 1 <= t[i].1
            <= times_traced(entries, n, t[i].0) by {
            if i < s.len() {
                assert(s[i].0 > 0 && 1 <= s[i].1 <= times_traced(entries, n - 1, s[i].0));
            }
        }
        assert forall|i: int, j: int| 0 <= i < j < t.len() implies (#[trigger] t[i]).0 != (
        #[trigger] t[j]).0 by {
            if j < s.len() {
                assert(s[i].0 != s[j].0);
            }
        }
    }
}

/// Where there is room for every frame, each is credited with all its events.
pub proof fn law_tally_is_exact_with_room(entries: Seq<ProvEntry>, n: int, cap: int, phys: u64)
    requires
        0 <= n <= entries.len(),
        n <= cap,
        n <= u32::MAX,
        phys > 0,
        times_traced(entries, n, phys) > 0,
    ensures
        exists|i: int|
            0 <= i < tally_of(entries, n, cap).len() && (#[trigger] tally_of(
                entries,
                n,
                cap,
            )[i]).0 == phys && tally_of(entries, n, cap)[i].1 == times_traced(entries, n, phys),
        tally_of(entries, n, cap).len() <= n,
    decreases n,
{
    lemma_times_bound(entries, n, phys);
    let s = tally_of(entries, n - 1, cap);
    let t = tally_of(entries, n, cap);
    let last = entries[n - 1].phys;
    lemma_tally_small(entries, n - 1, cap);
    lemma_rank(s, 0, last);
    if last == phys {
        if times_traced(entries, n - 1, phys) > 0 {
            law_tally_is_exact_with_room(entries, n - 1, cap, phys);
            law_tally_does_not_overcount(entries, n - 1, cap);
            let i = choose|i: int|
                0 <= i < s.len() && (#[trigger] s[i]).0 == phys && s[i].1 == times_traced(
                    entries,
                    n - 1,
                    phys,
                );
            let r = rank_of(s, 0, phys);
            assert(r == i) by {
                if r < i {
                    assert(s[r].0 != s[i].0);
                }
            }
            assert(t[i].0 == phys);
        } else {
            if n > 1 {
                law_tally_does_not_overcount(entries, n - 1, cap);
            }
            let r = rank_of(s, 0, phys);
            if r < s.len() {
                assert(1 <= s[r].1 <= times_traced(entries, n - 1, s[r].0));
            }
            assert(t[s.len() as int].0 == phys);
        }
    } else {
        law_tally_is_exact_with_room(entries, n - 1, cap, phys);
        let i = choose|i: int|
            0 <= i < s.len() && (#[trigger] s[i]).0 == phys && s[i].1 == times_traced(
                entries,
                n - 1,
                phys,
            );
        assert(t[i] == s[i]);
    }
    lemma_tally_small(entries, n, cap);
}

proof fn lemma_times_bound(entries: Seq<ProvEntry>, n: int, phys: u64)
    requires
        n >= 0,
    ensures
        times_traced(entries, n, phys) <= n,
    decreases n,
{
    if n > 0 {
        lemma_times_bound(entries, n - 1, phys);
    }
}

proof fn lemma_tally_small(entries: Seq<ProvEntry>, n: int, cap: int)
    requires
        n >= 0,
        cap > 0,
    ensures
        tally_of(entries, n, cap).len() <= n,
    decreases n,
{
    if n > 0 {
        lemma_tally_small(entries, n - 1, cap);
        let s = tally_of(entries, n - 1, cap);
        lemma_rank(s, 0, entries[n - 1].phys);
        if s.len() > 0 {
            lemma_lowest(s, s.len() as int);
        }
    }
}

/// Every frame in the list of those with the most events is there with its number once more.
pub proof fn law_seen_frame_counts_once_more(s: Seq<(u64, u32)>, phys: u64, cap: int, i: int)
    requires
        phys > 0,
        0 <= i < s.len(),
        s[i].0 == phys,
        s[i].1 < u32::MAX,
        forall|j: int| 0 <= j < i ==> (#[trigger] s[j]).0 != phys,
    ensures
        seen(s, phys, cap) == s.update(i, (phys, (s[i].1 + 1) as u32)),
{
    lemma_rank(s, 0, phys);
}

} // verus!
