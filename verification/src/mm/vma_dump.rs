//! The whole address space of a process that is about to be killed for a fault, as
//! lines of text.
use vstd::prelude::*;
use vstd::string::*;
use crate::mm::physmem::PhysMem;
use crate::mm::text::{append_dec, append_hash_hex, dec_text, hash_hex};
use crate::mm::vma::{
    areas_ok, prot_letter, VmArea, VmBacking, VmSpace, PROT_EXEC, PROT_READ, PROT_WRITE,
};
use crate::mm::vmm::{translate, virt_to_phys_in};
use crate::proc::Process;

verus! {

/// Dumps that are made after a start of the machine.
pub const MAX_VMA_DUMPS_PER_BOOT: u32 = 4;

/// Areas that one dump lists.
pub const MAX_VMAS_PER_DUMP: usize = 1024;

/// How many dumps were asked for.
pub struct VmaDump {
    pub emissions: u32,
}

/// The first process from number `i` of the table on that has the number `pid`.
pub open spec fn find_pid(procs: Seq<Process>, i: int, pid: u64) -> Option<int>
    decreases procs.len() - i,
{
    if i < 0 || i >= procs.len() {
        None
    } else if procs[i].pid == pid {
        Some(i)
    } else {
        find_pid(procs, i + 1, pid)
    }
}

/// The first process from number `i` of the table on that has the number `pid` and runs
/// on `cr3`.
pub open spec fn find_sharer(procs: Seq<Process>, i: int, pid: u64, cr3: u64) -> Option<int>
    decreases procs.len() - i,
{
    if i < 0 || i >= procs.len() {
        None
    } else if procs[i].pid == pid && procs[i].cr3 == cr3 && cr3 != 0 {
        Some(i)
    } else {
        find_sharer(procs, i + 1, pid, cr3)
    }
}

/// The process whose address space `pid` runs in: its own, or, where it has none, that of
/// its parent, if the two run on the same root.
pub open spec fn space_owner(procs: Seq<Process>, pid: u64) -> Option<int> {
    match find_pid(procs, 0, pid) {
        None => None,
        Some(i) => if procs[i].vm_space is Some {
            Some(i)
        } else {
            find_sharer(procs, 0, procs[i].parent_pid, procs[i].cr3)
        },
    }
}

/// The areas that are listed.
pub open spec fn listed_areas(procs: Seq<Process>, pid: u64) -> Seq<VmArea> {
    match space_owner(procs, pid) {
        None => Seq::empty(),
        Some(i) => match procs[i].vm_space {
            None => Seq::empty(),
            Some(v) => if v.areas@.len() > MAX_VMAS_PER_DUMP {
                v.areas@.take(MAX_VMAS_PER_DUMP as int)
            } else {
                v.areas@
            },
        },
    }
}

/// Start of every line: who faulted.
pub open spec fn who_text(head: &str, pid: u64, tid: u64) -> Seq<char> {
    head@ + " pid="@ + dec_text(pid as nat) + " tid="@ + dec_text(tid as nat)
}

/// The frame of the first page, if there is one.
pub open spec fn frame_text(phys: Option<u64>) -> Seq<char> {
    match phys {
        Some(p) => hash_hex(p),
        None => "UNMAPPED"@,
    }
}

/// What backs the area: a file, or nothing but memory.
pub open spec fn backing_text(b: VmBacking) -> Seq<char> {
    match b {
        VmBacking::File { .. } => " file=1 anon=0"@,
        VmBacking::Anonymous => " file=0 anon=1"@,
        VmBacking::Device { .. } => " file=0 anon=0"@,
    }
}

/// Where in which file the area lies.
pub open spec fn file_text(b: VmBacking) -> Seq<char> {
    match b {
        VmBacking::File { mount_idx, inode, offset, elf_load_delta } => " file_offset="@
            + hash_hex(offset) + " elf_load_delta="@ + hash_hex(elf_load_delta) + " mount="@
            + dec_text(mount_idx as nat) + " inode="@ + hash_hex(inode),
        _ => Seq::empty(),
    }
}

/// The line for area number `i`, whose first page lies at `phys`.
pub open spec fn area_line(pid: u64, tid: u64, i: int, a: VmArea, phys: Option<u64>) -> Seq<char> {
    who_text("[VMA-DUMP]", pid, tid) + " idx="@ + dec_text(i as nat) + " base="@ + hash_hex(a.base)
        + " end="@ + hash_hex((a.base + a.length) as u64) + " size="@ + hash_hex(a.length)
        + " prot="@ + prot_letter(a.prot & PROT_READ != 0, "r") + prot_letter(
        a.prot & PROT_WRITE != 0,
        "w",
    ) + prot_letter(a.prot & PROT_EXEC != 0, "x") + backing_text(a.backing) + " name=\""@ + a.name@
        + "\" first_page_phys="@ + frame_text(phys) + file_text(a.backing)
}

/// The first line.
pub open spec fn begin_line(pid: u64, tid: u64, cr3: u64, count: nat) -> Seq<char> {
    who_text("[VMA-DUMP-BEGIN]", pid, tid) + " cr3="@ + hash_hex(cr3) + " vma_count="@ + dec_text(
        count,
    )
}

/// The last line.
pub open spec fn end_line(pid: u64, tid: u64) -> Seq<char> {
    who_text("[VMA-DUMP-END]", pid, tid)
}

impl VmaDump {
    pub fn new() -> (r: VmaDump)
        ensures
            r.emissions == 0,
    {
        VmaDump { emissions: 0 }
    }
}

fn append_who(out: &mut String, head: &str, pid: u64, tid: u64)
    ensures
        final(out)@ == old(out)@ + who_text(head, pid, tid),
{
    out.append(head);
    out.append(" pid=");
    append_dec(out, pid);
    out.append(" tid=");
    append_dec(out, tid);
    assert(out@ =~= old(out)@ + who_text(head, pid, tid));
}

fn append_file(out: &mut String, b: &VmBacking)
    ensures
        final(out)@ == old(out)@ + file_text(*b),
{
    match b {
        VmBacking::File { mount_idx, inode, offset, elf_load_delta } => {
            out.append(" file_offset=");
            append_hash_hex(out, *offset);
            out.append(" elf_load_delta=");
            append_hash_hex(out, *elf_load_delta);
            out.append(" mount=");
            append_dec(out, *mount_idx as u64);
            out.append(" inode=");
            append_hash_hex(out, *inode);
        },
        _ => {},
    }
    assert(out@ =~= old(out)@ + file_text(*b));
}

/// The line for area number `i`, whose first page lies at `phys`.
pub fn area_row(pid: u64, tid: u64, i: u64, a: &VmArea, phys: Option<u64>) -> (r: String)
    requires
        a.base + a.length <= u64::MAX,
    ensures
        r@ == area_line(pid, tid, i as int, *a, phys),
{
    let mut out: String = String::new();
    append_who(&mut out, "[VMA-DUMP]", pid, tid);
    out.append(" idx=");
    append_dec(&mut out, i);
    out.append(" base=");
    append_hash_hex(&mut out, a.base);
    out.append(" end=");
    append_hash_hex(&mut out, a.base + a.length);
    out.append(" size=");
    append_hash_hex(&mut out, a.length);
    out.append(" prot=");
    out.append(if a.prot & PROT_READ != 0 { "r" } else { "-" });
    out.append(if a.prot & PROT_WRITE != 0 { "w" } else { "-" });
    out.append(if a.prot & PROT_EXEC != 0 { "x" } else { "-" });
    match a.backing {
        VmBacking::File { .. } => {
            out.append(" file=1 anon=0");
        },
        VmBacking::Anonymous => {
            out.append(" file=0 anon=1");
        },
        VmBacking::Device { .. } => {
            out.append(" file=0 anon=0");
        },
    }
    out.append(" name=\"");
    out.append(a.name);
    out.append("\" first_page_phys=");
    match phys {
        Some(p) => {
            append_hash_hex(&mut out, p);
        },
        None => {
            out.append("UNMAPPED");
        },
    }
    append_file(&mut out, &a.backing);
    assert(out@ =~= area_line(pid, tid, i as int, *a, phys));
    out
}

/// The first process with the number that runs on `cr3`.
fn find_sharing(procs: &Vec<Process>, pid: u64, cr3: u64) -> (r: Option<usize>)
    ensures
        r is None <==> find_sharer(procs@, 0, pid, cr3) is None,
        r matches Some(i) ==> find_sharer(procs@, 0, pid, cr3) == Some(i as int) && i
            < procs@.len(),
{
    let n: usize = procs.len();
    let mut i: usize = 0;
    while i < n
        invariant
            n == procs@.len(),
            i <= n,
            find_sharer(procs@, 0, pid, cr3) == find_sharer(procs@, i as int, pid, cr3),
        decreases n - i,
    {
        if procs[i].pid == pid && procs[i].cr3 == cr3 && cr3 != 0 {
            return Some(i);
        }
        i = i + 1;
    }
    None
}

/// The process whose address space `pid` runs in.
pub fn find_space(procs: &Vec<Process>, pid: u64) -> (r: Option<usize>)
    ensures
        r is None <==> space_owner(procs@, pid) is None,
        r matches Some(i) ==> space_owner(procs@, pid) == Some(i as int) && i < procs@.len(),
{
    let n: usize = procs.len();
    let mut i: usize = 0;
    while i < n
        invariant
            n == procs@.len(),
            i <= n,
            find_pid(procs@, 0, pid) == find_pid(procs@, i as int, pid),
        decreases n - i,
    {
        if procs[i].pid == pid {
            if procs[i].vm_space.is_some() {
                return Some(i);
            }
            return find_sharing(procs, procs[i].parent_pid, procs[i].cr3);
        }
        i = i + 1;
    }
    None
}

/// The areas of every address space end within 64 bits.
pub open spec fn spaces_ok(procs: Seq<Process>) -> bool {
    forall|i: int|
        0 <= i < procs.len() ==> ((#[trigger] procs[i]).vm_space matches Some(v) ==> areas_ok(
            v.areas@,
        ))
}

/// The lines for the areas of a space, `cr3` being the root that the processor runs on.
fn area_rows(space: &VmSpace, mem: &PhysMem, pid: u64, tid: u64, cr3: u64) -> (r: Vec<String>)
    requires
        areas_ok(space.areas@),
    ensures
        r@.len() == (if space.areas@.len() > MAX_VMAS_PER_DUMP {
            MAX_VMAS_PER_DUMP as nat
        } else {
            space.areas@.len()
        }),
        forall|i: int|
            0 <= i < r@.len() ==> (#[trigger] r@[i])@ == area_line(
                pid,
                tid,
                i,
                space.areas@[i],
                translate(mem@, cr3, space.areas@[i].base),
            ),
{
    let mut rows: Vec<String> = Vec::new();
    let len: usize = space.areas.len();
    let n: usize = if len > MAX_VMAS_PER_DUMP {
        MAX_VMAS_PER_DUMP
    } else {
        len
    };
    let mut i: usize = 0;
    while i < n
        invariant
            n <= space.areas@.len(),
            i <= n,
            areas_ok(space.areas@),
            rows@.len() == i,
            forall|j: int|
                0 <= j < i ==> (#[trigger] rows@[j])@ == area_line(
                    pid,
                    tid,
                    j,
                    space.areas@[j],
                    translate(mem@, cr3, space.areas@[j].base),
                ),
        decreases n - i,
    {
        let phys: Option<u64> = virt_to_phys_in(mem, cr3, space.areas[i].base);
        assert(space.areas@[i as int].ok());
        rows.push(area_row(pid, tid, i as u64, &space.areas[i], phys));
        i = i + 1;
    }
    rows
}

/// The address space that process `pid` runs in, as lines of text: a first line, one per
/// area, a last line.  Nothing once [`MAX_VMA_DUMPS_PER_BOOT`] dumps were made.
pub fn dump_for_fault(
    d: &mut VmaDump,
    procs: &Vec<Process>,
    mem: &PhysMem,
    pid: u64,
    tid: u64,
    cr3: u64,
) -> (r: Option<Vec<String>>)
    requires
        spaces_ok(procs@),
    ensures
        final(d).emissions == old(d).emissions.wrapping_add(1),
        r is None <==> old(d).emissions >= MAX_VMA_DUMPS_PER_BOOT,
        r is None <==> old(d).emissions >= 4,
        r matches Some(lines) ==> {
            let areas = listed_areas(procs@, pid);
            &&& lines@.len() == areas.len() + 2
            &&& lines@[0]@ == begin_line(pid, tid, cr3, areas.len())
            &&& forall|i: int|
                0 <= i < areas.len() ==> #[trigger] lines@[i + 1]@ == area_line(
                    pid,
                    tid,
                    i,
                    areas[i],
                    translate(mem@, cr3, areas[i].base),
                )
            &&& lines@.last()@ == end_line(pid, tid)
        },
{
    let n: u32 = d.emissions;
    d.emissions = n.wrapping_add(1);
    if n >= MAX_VMA_DUMPS_PER_BOOT {
        return None;
    }
    let ghost areas = listed_areas(procs@, pid);
    let rows: Vec<String> = match find_space(procs, pid) {
        None => Vec::new(),
        Some(i) => match &procs[i].vm_space {
            None => Vec::new(),
            Some(space) => area_rows(space, mem, pid, tid, cr3),
        },
    };
    assert(rows@.len() == areas.len());
    let mut lines: Vec<String> = Vec::new();
    let mut begin: String = String::new();
    append_who(&mut begin, "[VMA-DUMP-BEGIN]", pid, tid);
    begin.append(" cr3=");
    append_hash_hex(&mut begin, cr3);
    begin.append(" vma_count=");
    append_dec(&mut begin, rows.len() as u64);
    assert(begin@ =~= begin_line(pid, tid, cr3, areas.len()));
    lines.push(begin);
    let ghost listed = rows@;
    let mut rest = rows;
    lines.append(&mut rest);
    let mut end: String = String::new();
    append_who(&mut end, "[VMA-DUMP-END]", pid, tid);
    assert(end@ =~= end_line(pid, tid));
    lines.push(end);
    proof {
        assert forall|i: int| 0 <= i < areas.len() implies #[trigger] lines@[i + 1]@ == area_line(
            pid,
            tid,
            i,
            areas[i],
            translate(mem@, cr3, areas[i].base),
        ) by {
            assert(lines@[i + 1] == listed[i]);
        }
    }
    Some(lines)
}

} // verus!
