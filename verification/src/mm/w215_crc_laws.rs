//! What the checksum and the table of checksums promise.
use vstd::prelude::*;
use crate::mm::w215_crc::{
    budget, changed, crc_bit, crc_byte, crc_of, crc_run, differs, first_taker, in_use, packed_key,
    page_bytes, plausible, probe_slot, refreshed, report_of, takes, torn, CrcEntry,
};

verus! {

proof fn lemma_bit_back(a: u32, b: u32)
    by (bit_vector)
    ensures
        crc_bit(a) == crc_bit(b) ==> a == b,
{
}

proof fn lemma_byte_back(a: u32, b: u32)
    requires
        crc_byte(a) == crc_byte(b),
    ensures
        a == b,
{
    let (a1, b1) = (crc_bit(a), crc_bit(b));
    let (a2, b2) = (crc_bit(a1), crc_bit(b1));
    let (a3, b3) = (crc_bit(a2), crc_bit(b2));
    let (a4, b4) = (crc_bit(a3), crc_bit(b3));
    let (a5, b5) = (crc_bit(a4), crc_bit(b4));
    let (a6, b6) = (crc_bit(a5), crc_bit(b5));
    let (a7, b7) = (crc_bit(a6), crc_bit(b6));
    lemma_bit_back(a7, b7);
    lemma_bit_back(a6, b6);
    lemma_bit_back(a5, b5);
    lemma_bit_back(a4, b4);
    lemma_bit_back(a3, b3);
    lemma_bit_back(a2, b2);
    lemma_bit_back(a1, b1);
    lemma_bit_back(a, b);
}

proof fn lemma_xor(a: u32, b: u32, c: u32)
    by (bit_vector)
    ensures
        a ^ c == b ^ c ==> a == b,
        c ^ a == c ^ b ==> a == b,
        a ^ a == 0,
{
}

/// Data that differ in one byte have different checksums.
pub proof fn law_changed_byte_changes_the_checksum(a: Seq<u8>, b: Seq<u8>, i: int)
    requires
        a.len() == b.len(),
        0 <= i < a.len(),
        a[i] != b[i],
        forall|j: int| 0 <= j < a.len() && j != i ==> a[j] == b[j],
    ensures
        crc_of(a) != crc_of(b),
{
    lemma_differ(a, b, i, a.len() as int);
    if crc_of(a) == crc_of(b) {
        lemma_xor(crc_run(a, a.len() as int), crc_run(b, b.len() as int), 0xFFFF_FFFF);
    }
}

proof fn lemma_agree(a: Seq<u8>, b: Seq<u8>, n: int)
    requires
        n <= a.len(),
        n <= b.len(),
        forall|j: int| 0 <= j < n ==> a[j] == b[j],
    ensures
        crc_run(a, n) == crc_run(b, n),
    decreases n,
{
    if n > 0 {
        lemma_agree(a, b, n - 1);
    }
}

proof fn lemma_differ(a: Seq<u8>, b: Seq<u8>, i: int, n: int)
    requires
        a.len() == b.len(),
        0 <= i < n <= a.len(),
        a[i] != b[i],
        forall|j: int| 0 <= j < a.len() && j != i ==> a[j] == b[j],
    ensures
        crc_run(a, n) != crc_run(b, n),
    decreases n,
{
    let (x, y) = (crc_run(a, n - 1), crc_run(b, n - 1));
    let (p, q) = (a[n - 1] as u32, b[n - 1] as u32);
    if crc_run(a, n) == crc_run(b, n) {
        lemma_byte_back(x ^ p, y ^ q);
        if n - 1 == i {
            lemma_agree(a, b, i);
            lemma_xor(p, q, x);
        } else {
            lemma_differ(a, b, i, n - 1);
            lemma_xor(x, y, p);
        }
    }
}

/// One step of feeding a state its own complement, byte by byte.
proof fn lemma_feed(s: u32, acc: u32, k: u32, table: u32)
    by (bit_vector)
    requires
        k < 4,
        table == crc_byte((acc ^ 0xFF) & 0xFF),
    ensures
        crc_byte((acc ^ (s >> (8 * k))) ^ (((s ^ 0xFFFF_FFFF) >> (8 * k)) & 0xFF)) == (table ^ (acc
            >> 8)) ^ (s >> (8 * (k + 1))),
{
}

proof fn lemma_residue_steps()
    by (bit_vector)
    ensures
        crc_byte((0u32 ^ 0xFF) & 0xFF) ^ (0u32 >> 8) == 0x2D02_EF8D,
        crc_byte((0x2D02_EF8Du32 ^ 0xFF) & 0xFF) ^ (0x2D02_EF8Du32 >> 8) == 0xBE26_12FF,
        crc_byte((0xBE26_12FFu32 ^ 0xFF) & 0xFF) ^ (0xBE26_12FFu32 >> 8) == 0x00BE_2612,
        crc_byte((0x00BE_2612u32 ^ 0xFF) & 0xFF) ^ (0x00BE_2612u32 >> 8) == 0xDEBB_20E3,
{
}

proof fn lemma_ends(s: u32)
    by (bit_vector)
    ensures
        0u32 ^ (s >> 0u32) == s,
        0xDEBB_20E3u32 ^ (s >> 32u32) == 0xDEBB_20E3u32,
        ((s ^ 0xFFFF_FFFF) >> 0u32) & 0xFF == (s ^ 0xFFFF_FFFF) % 0x100,
        ((s ^ 0xFFFF_FFFF) >> 8u32) & 0xFF == (s ^ 0xFFFF_FFFF) / 0x100 % 0x100,
        ((s ^ 0xFFFF_FFFF) >> 16u32) & 0xFF == (s ^ 0xFFFF_FFFF) / 0x1_0000 % 0x100,
        ((s ^ 0xFFFF_FFFF) >> 24u32) & 0xFF == (s ^ 0xFFFF_FFFF) / 0x100_0000,
{
}

/// Data with their checksum behind them, its lowest byte first, leave the residue of the
/// standard 32-bit checksum, whatever they are.
pub proof fn law_checksum_leaves_the_residue(data: Seq<u8>, tail: Seq<u8>)
    requires
        tail.len() == 4,
        tail[0] == crc_of(data) % 0x100,
        tail[1] == crc_of(data) / 0x100 % 0x100,
        tail[2] == crc_of(data) / 0x1_0000 % 0x100,
        tail[3] == crc_of(data) / 0x100_0000,
    ensures
        crc_run(data + tail, data.len() as int + 4) == 0xDEBB_20E3,
{
    let all = data + tail;
    let n = data.len() as int;
    let s = crc_run(data, n);
    lemma_agree(all, data, n);
    lemma_ends(s);
    lemma_residue_steps();
    lemma_feed(s, 0, 0, crc_byte((0u32 ^ 0xFF) & 0xFF));
    lemma_feed(s, 0x2D02_EF8D, 1, crc_byte((0x2D02_EF8Du32 ^ 0xFF) & 0xFF));
    lemma_feed(s, 0xBE26_12FF, 2, crc_byte((0xBE26_12FFu32 ^ 0xFF) & 0xFF));
    lemma_feed(s, 0x00BE_2612, 3, crc_byte((0x00BE_2612u32 ^ 0xFF) & 0xFF));
    assert(all[n] == tail[0]);
    assert(all[n + 1] == tail[1]);
    assert(all[n + 2] == tail[2]);
    assert(all[n + 3] == tail[3]);
    assert(crc_run(all, n + 1) == 0x2D02_EF8Du32 ^ (s >> 8u32));
    assert(crc_run(all, n + 2) == 0xBE26_12FFu32 ^ (s >> 16u32));
    assert(crc_run(all, n + 3) == 0x00BE_2612u32 ^ (s >> 24u32));
    assert(crc_run(all, n + 4) == 0xDEBB_20E3u32 ^ (s >> 32u32));
}

/// A key holds the number of a file in 48 bits and that of a page in 16, and gives both back in a
/// report.
pub proof fn law_key_gives_back_file_and_page(
    inode: u64,
    offset: u64,
    e: CrcEntry,
    first: Seq<u64>,
    second: Seq<u64>,
)
    requires
        e.key_packed == packed_key(inode, offset),
        inode < 0x1_0000_0000_0000,
        offset < 0x1000_0000,
        offset % 4096 == 0,
    ensures
        report_of(e, first, second).inode == inode,
        report_of(e, first, second).offset == offset,
        report_of(e, first, second).phys == e.phys,
        report_of(e, first, second).expected == e.crc32,
        report_of(e, first, second).actual == crc_of(page_bytes(first, e.phys)),
        report_of(e, first, second).actual2 == crc_of(page_bytes(second, e.phys)),
{
}

/// A frame is looked at where it is aligned and lies between 1 MiB and 16 GiB.
pub proof fn law_which_frames_are_looked_at(phys: u64)
    ensures
        plausible(phys) <==> phys % 4096 == 0 && phys >= 0x10_0000 && phys <= 0x4_0000_0000,
{
}

/// The processors share a budget of 4096 entries for a tick, and leave none out.
pub proof fn law_budget_is_shared(cpus: u32)
    requires
        cpus > 0,
    ensures
        budget(cpus) * cpus >= 4096,
        (budget(cpus) - 1) * cpus < 4096,
        budget(0) == 4096,
{
    let c = cpus as int;
    let b = (4096 + c - 1) / c;
    vstd::arithmetic::div_mod::lemma_fundamental_div_mod(4096 + c - 1, c);
    vstd::arithmetic::div_mod::lemma_mod_bound(4096 + c - 1, c);
    assert(c * b == b * c) by (nonlinear_arith);
    assert((b - 1) * c == b * c - c) by (nonlinear_arith);
}

/// An entry is reported where both reads differ from what it says, and counted as torn where the
/// first does and the second does not; one that agrees at first is neither.
pub proof fn law_what_a_walk_finds(
    s: Seq<CrcEntry>,
    n: int,
    first: Seq<u64>,
    second: Seq<u64>,
    i: int,
)
    requires
        0 <= n <= s.len(),
        0 <= i < n,
    ensures
        crc_of(page_bytes(first, s[i].phys)) != s[i].crc32 && crc_of(
            page_bytes(second, s[i].phys),
        ) != s[i].crc32 ==> changed(s, n, first, second).contains(report_of(s[i], first, second)),
        crc_of(page_bytes(first, s[i].phys)) != s[i].crc32 && crc_of(
            page_bytes(second, s[i].phys),
        ) == s[i].crc32 ==> torn(s, n, first, second) > 0,
        (forall|j: int|
            0 <= j < n ==> crc_of(page_bytes(first, (#[trigger] s[j]).phys)) == s[j].crc32)
            ==> changed(s, n, first, second).len() == 0 && torn(s, n, first, second) == 0,
        changed(s, n, first, second).len() + torn(s, n, first, second) <= n,
        torn(s, n, first, second) >= 0,
    decreases n,
{
    if n > 1 {
        law_what_a_walk_finds(
            s,
            n - 1,
            first,
            second,
            if i < n - 1 {
                i
            } else {
                0
            },
        );
    } else {
        reveal_with_fuel(changed, 2);
        reveal_with_fuel(torn, 2);
    }
    let before = changed(s, n - 1, first, second);
    let all = changed(s, n, first, second);
    let r = report_of(s[i], first, second);
    if i < n - 1 && before.contains(r) {
        let k = choose|k: int| 0 <= k < before.len() && before[k] == r;
        assert(all[k] == r);
    }
    if i == n - 1 && differs(s[i], first) && differs(s[i], second) {
        assert(all[before.len() as int] == r);
    }
}

/// An entry that is filled counts as one that is in use, and so does no other.
pub proof fn law_entries_in_use_are_counted(s: Seq<CrcEntry>, n: int, i: int, e: CrcEntry)
    requires
        0 <= i < n <= s.len(),
    ensures
        in_use(s.update(i, e), n) - in_use(s, n) == (if e.phys > 0 {
            1int
        } else {
            0
        }) - (if s[i].phys > 0 {
            1int
        } else {
            0
        }),
        0 <= in_use(s, n) <= n,
    decreases n,
{
    if i == n - 1 {
        lemma_in_use_apart(s, n - 1, i, e);
    } else {
        law_entries_in_use_are_counted(s, n - 1, i, e);
    }
}

proof fn lemma_in_use_apart(s: Seq<CrcEntry>, n: int, i: int, e: CrcEntry)
    requires
        0 <= n <= i < s.len(),
    ensures
        in_use(s.update(i, e), n) == in_use(s, n),
        0 <= in_use(s, n) <= n,
    decreases n,
{
    if n > 0 {
        lemma_in_use_apart(s, n - 1, i, e);
    }
}

/// A page whose change was noted is silent until it changes again; the entries of other frames
/// stay.
pub proof fn law_noted_change_is_silent(s: Seq<CrcEntry>, phys: u64, mem: Seq<u64>, i: int)
    requires
        0 <= i < s.len(),
    ensures
        ({
            let after = refreshed(s, phys, crc_of(page_bytes(mem, phys)));
            &&& after.len() == s.len()
            &&& s[i].phys == phys ==> !differs(after[i], mem) && after[i].phys == phys
                && after[i].key_packed == s[i].key_packed && after[i].generation
                == s[i].generation.wrapping_add(1)
            &&& s[i].phys != phys ==> after[i] == s[i]
        }),
{
}

/// An entry goes to the first of eight places in a row that is empty or already its own; where
/// one of the eight is, there is one such place.
pub proof fn law_entry_has_one_place(
    s: Seq<CrcEntry>,
    home: u64,
    phys: u64,
    key: u64,
    k: int,
    j: int,
)
    requires
        0 <= k < 8,
        s[(home + k) % 65536].phys == 0 || (s[(home + k) % 65536].phys == phys && s[(home + k)
            % 65536].key_packed == key),
    ensures
        exists|i: int| #[trigger] first_taker(s, home, i, phys, key) && i <= k,
        first_taker(s, home, j, phys, key) ==> 0 <= j <= k,
    decreases k,
{
    assert(takes(s[probe_slot(home, k)], phys, key));
    if exists|i: int| 0 <= i < k && takes(s[#[trigger] probe_slot(home, i)], phys, key) {
        let i = choose|i: int| 0 <= i < k && takes(s[#[trigger] probe_slot(home, i)], phys, key);
        law_entry_has_one_place(s, home, phys, key, i, j);
        let f = choose|f: int| #[trigger] first_taker(s, home, f, phys, key) && f <= i;
        assert(first_taker(s, home, f, phys, key) && f <= k);
    } else {
        assert(first_taker(s, home, k, phys, key));
    }
}

} // verus!
