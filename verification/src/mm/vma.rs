//! Virtual memory areas: the regions of a process's address space.
//!
//! An area is a contiguous range of pages with one protection and one backing.  The
//! areas of an address space are kept in order of their start.
use std::collections::BTreeMap;
use std::sync::Arc;
use vstd::multiset::Multiset;
use vstd::prelude::*;
use vstd::string::*;
use crate::mm::lock::{new_rw_lock, share_rw_lock};
use crate::mm::physmem::{slot, with_frame, zero_frame, PhysMem};
use crate::mm::pmm::{alloc_page, Frames, FramesView};
use crate::mm::text::{append_dec, append_hash_hex, append_hex, dec_text, hash_hex, hex_text};
use crate::mm::tlb::Tlb;
use crate::mm::vmm::{
    after_unmap_range, get_cr3, pages_in, unmap_and_free_range_in, Unmapped, ADDR_MASK,
    PAGE_NO_EXECUTE, PAGE_PRESENT, PAGE_USER, PAGE_WRITABLE,
};

verus! {

/// Protection of an area.
pub type VmProt = u32;

/// The pages can be read.
pub const PROT_READ: u32 = 0x1;

/// The pages can be written.
pub const PROT_WRITE: u32 = 0x2;

/// The pages can be executed.
pub const PROT_EXEC: u32 = 0x4;

/// The pages cannot be accessed at all.
pub const PROT_NONE: u32 = 0;

/// Kind of a mapping.
pub type VmFlags = u32;

/// Writes are seen by every mapper.
pub const MAP_SHARED: u32 = 0x1;

/// Writes are private.
pub const MAP_PRIVATE: u32 = 0x2;

/// The mapping is at a fixed address.
pub const MAP_FIXED: u32 = 0x10;

/// No file backs the mapping.
pub const MAP_ANONYMOUS: u32 = 0x20;

/// The mapping is a stack.
pub const MAP_STACK: u32 = 0x2_0000;

/// First address that is not in user space.
pub const USER_END: u64 = 0x8000_0000_0000;

/// What backs the pages of an area.
#[derive(Clone, Copy, Debug)]
pub enum VmBacking {
    /// Memory that starts as zeros.
    Anonymous,
    /// A file.
    File {
        mount_idx: usize,
        inode: u64,
        /// Offset in the file of the first byte of the area.
        offset: u64,
        /// For a loaded program segment, its address less its offset in the file.
        elf_load_delta: u64,
    },
    /// Device memory.
    Device { phys_base: u64 },
}

/// One region of an address space.
#[derive(Clone, Copy)]
pub struct VmArea {
    pub base: u64,
    pub length: u64,
    pub prot: u32,
    pub flags: u32,
    pub backing: VmBacking,
    /// What the region is, for people.
    pub name: &'static str,
}

impl VmArea {
    /// First address behind the area.
    pub open spec fn spec_end(self) -> int {
        self.base + self.length
    }

    /// The area ends within 64 bits, and so does the part of a file behind it.
    pub open spec fn ok(self) -> bool {
        &&& self.base + self.length <= u64::MAX
        &&& self.backing matches VmBacking::File { offset, .. } ==> offset + self.length
            <= u64::MAX
    }

    /// Whether `addr` lies in the area.
    pub open spec fn has(self, addr: int) -> bool {
        self.base <= addr < self.spec_end()
    }

    /// Whether the area and the range `[base, end)` overlap.
    pub open spec fn meets(self, base: int, end: int) -> bool {
        self.base < end && base < self.spec_end()
    }

    /// First address behind the area.
    pub fn end(&self) -> (r: u64)
        requires
            self.base + self.length <= u64::MAX,
        ensures
            r == self.spec_end(),
    {
        self.base + self.length
    }

    /// Whether `addr` lies in the area.
    pub fn contains(&self, addr: u64) -> (r: bool)
        requires
            self.base + self.length <= u64::MAX,
        ensures
            r == self.has(addr as int),
    {
        addr >= self.base && addr < self.end()
    }

    /// Whether the area and the range `[base, base + length)` overlap.
    pub fn overlaps(&self, base: u64, length: u64) -> (r: bool)
        requires
            self.base + self.length <= u64::MAX,
            base + length <= u64::MAX,
        ensures
            r == self.meets(base as int, base + length),
    {
        self.base < base + length && base < self.end()
    }

    /// Page-table flags for the pages of the area.
    pub fn to_page_flags(&self) -> (r: u64)
        ensures
            r == page_flags(*self),
    {
        let mut flags: u64 = PAGE_PRESENT;
        if self.prot & PROT_WRITE != 0 {
            flags = flags | PAGE_WRITABLE;
        }
        if self.prot & PROT_EXEC == 0 {
            flags = flags | PAGE_NO_EXECUTE;
        }
        if self.base < USER_END {
            flags = flags | PAGE_USER;
        }
        flags
    }
}

/// Page-table flags for the pages of an area: writable and executable as its
/// protection says, and open to user code below the kernel's half.
pub open spec fn page_flags(v: VmArea) -> u64 {
    let w = if v.prot & PROT_WRITE != 0 {
        PAGE_PRESENT | PAGE_WRITABLE
    } else {
        PAGE_PRESENT
    };
    let x = if v.prot & PROT_EXEC == 0 {
        w | PAGE_NO_EXECUTE
    } else {
        w
    };
    if v.base < USER_END {
        x | PAGE_USER
    } else {
        x
    }
}

/// Class of the access that faulted.
#[derive(Copy, Clone, Debug, PartialEq, Eq, Structural)]
pub enum FaultAccess {
    InstructionFetch,
    Write,
    Read,
}

impl FaultAccess {
    /// Class of the access that a page-fault error code reports: bit 4 marks an
    /// instruction fetch, bit 1 a write.
    pub open spec fn of_error_code(err: u64) -> FaultAccess {
        if err & 0x10 != 0 {
            FaultAccess::InstructionFetch
        } else if err & 0x02 != 0 {
            FaultAccess::Write
        } else {
            FaultAccess::Read
        }
    }

    /// Class of the access that a page-fault error code reports.
    pub fn from_error_code(err: u64) -> (r: Self)
        ensures
            r == FaultAccess::of_error_code(err),
    {
        if err & 0x10 != 0 {
            FaultAccess::InstructionFetch
        } else if err & 0x02 != 0 {
            FaultAccess::Write
        } else {
            FaultAccess::Read
        }
    }
}

/// Whether a protection lets an access through.  Whatever can be written or executed
/// can be read.
pub open spec fn access_permitted(prot: u32, access: FaultAccess) -> bool {
    prot != PROT_NONE && match access {
        FaultAccess::InstructionFetch => prot & PROT_EXEC != 0,
        FaultAccess::Write => prot & PROT_WRITE != 0,
        FaultAccess::Read => prot & (PROT_READ | PROT_WRITE | PROT_EXEC) != 0,
    }
}

/// Whether a protection lets an access through.
pub fn fault_access_permitted(prot: u32, access: FaultAccess) -> (r: bool)
    ensures
        r == access_permitted(prot, access),
{
    if prot == PROT_NONE {
        return false;
    }
    match access {
        FaultAccess::InstructionFetch => prot & PROT_EXEC != 0,
        FaultAccess::Write => prot & PROT_WRITE != 0,
        FaultAccess::Read => prot & (PROT_READ | PROT_WRITE | PROT_EXEC) != 0,
    }
}

/// `addr` rounded up to a page.
pub open spec fn align_up(addr: int) -> int {
    (addr + 0xFFF) / 0x1000 * 0x1000
}

/// `addr` rounded up to a page.
pub fn page_align_up(addr: u64) -> (r: u64)
    requires
        addr + 0xFFF <= u64::MAX,
    ensures
        r == align_up(addr as int),
        r % 0x1000 == 0,
        addr <= r < addr + 0x1000,
{
    (addr + 0xFFF) / 0x1000 * 0x1000
}

/// `addr` rounded down to a page.
pub fn page_align_down(addr: u64) -> (r: u64)
    ensures
        r == addr as int / 0x1000 * 0x1000,
        r % 0x1000 == 0,
        r <= addr < r + 0x1000,
{
    addr / 0x1000 * 0x1000
}

/// What can go wrong with an area.
#[derive(Debug, Clone, Copy, PartialEq, Eq, Structural)]
pub enum VmaError {
    /// The range overlaps an area.
    Overlap,
    /// There is no room in the address space.
    NoSpace,
    /// There is no frame left.
    OutOfMemory,
    /// The arguments make no sense.
    InvalidArg,
    /// The access is not allowed.
    PermissionDenied,
}

/// A file, as its mount and inode number.
#[derive(Clone, Copy, Debug, PartialEq, Eq, Structural)]
pub struct InodeKey {
    pub mount_idx: usize,
    pub inode: u64,
}

/// References that keep inodes alive: one per file-backed area.
pub struct InodePins {
    pub held: Vec<InodeKey>,
}

impl View for InodePins {
    type V = Multiset<InodeKey>;

    open spec fn view(&self) -> Multiset<InodeKey> {
        self.held@.to_multiset()
    }
}

impl InodePins {
    /// No references.
    pub fn new() -> (r: InodePins)
        ensures
            r@ == Multiset::<InodeKey>::empty(),
    {
        let r = InodePins { held: Vec::new() };
        proof {
            broadcast use vstd::seq_lib::group_to_multiset_ensures;
            assert(r@ =~= Multiset::empty());
        }
        r
    }

    /// Takes one reference to an inode.
    pub fn pin_inode(&mut self, key: InodeKey)
        ensures
            final(self)@ == old(self)@.insert(key),
    {
        proof {
            broadcast use vstd::seq_lib::group_to_multiset_ensures;
        }
        self.held.push(key);
    }

    /// Drops one reference to an inode, if there is one.
    pub fn unpin_inode(&mut self, key: InodeKey)
        ensures
            final(self)@ == old(self)@.remove(key),
    {
        proof {
            broadcast use vstd::seq_lib::group_to_multiset_ensures;
        }
        let mut i: usize = 0;
        while i < self.held.len()
            invariant
                self.held@ == old(self).held@,
                forall|j: int| 0 <= j < i ==> self.held@[j] != key,
            decreases self.held@.len() - i,
        {
            if self.held[i] == key {
                proof {
                    broadcast use vstd::seq_lib::group_to_multiset_ensures;
                }
                self.held.remove(i);
                return;
            }
            i = i + 1;
        }
        proof {
            assert(!self.held@.contains(key));
            assert(self@.count(key) == 0);
            assert(self@ =~= old(self)@.remove(key));
        }
    }

    /// Number of references to an inode.
    pub fn pin_count(&self, key: InodeKey) -> (n: usize)
        ensures
            n == self@.count(key),
    {
        let mut n: usize = 0;
        let mut i: usize = 0;
        proof {
            broadcast use vstd::seq_lib::group_to_multiset_ensures;
            assert(self.held@.take(0).to_multiset() =~= Multiset::empty());
        }
        while i < self.held.len()
            invariant
                i <= self.held@.len(),
                n <= i,
                n == self.held@.take(i as int).to_multiset().count(key),
            decreases self.held@.len() - i,
        {
            proof {
                broadcast use vstd::seq_lib::group_to_multiset_ensures;
                assert(self.held@.take(i + 1) =~= self.held@.take(i as int).push(
                    self.held@[i as int],
                ));
            }
            if self.held[i] == key {
                n = n + 1;
            }
            i = i + 1;
        }
        assert(self.held@.take(i as int) =~= self.held@);
        n
    }
}

/// The file behind an area, if a file backs it.
pub open spec fn file_of(v: VmArea) -> Option<InodeKey> {
    match v.backing {
        VmBacking::File { mount_idx, inode, .. } => Some(InodeKey { mount_idx, inode }),
        _ => None,
    }
}

/// References with one more for the file of an area.
pub open spec fn with_pin(pins: Multiset<InodeKey>, v: VmArea) -> Multiset<InodeKey> {
    match file_of(v) {
        Some(k) => pins.insert(k),
        None => pins,
    }
}

/// References with one less for the file of an area.
pub open spec fn without_pin(pins: Multiset<InodeKey>, v: VmArea) -> Multiset<InodeKey> {
    match file_of(v) {
        Some(k) => pins.remove(k),
        None => pins,
    }
}

/// Takes the reference that a file-backed area holds on its file.
pub fn pin_file_vma(pins: &mut InodePins, vma: &VmArea)
    ensures
        final(pins)@ == with_pin(old(pins)@, *vma),
{
    match vma.backing {
        VmBacking::File { mount_idx, inode, offset: _, elf_load_delta: _ } => {
            pins.pin_inode(InodeKey { mount_idx, inode });
        },
        _ => {},
    }
}

/// Drops the reference that a file-backed area held on its file.
pub fn unpin_file_vma(pins: &mut InodePins, vma: &VmArea)
    ensures
        final(pins)@ == without_pin(old(pins)@, *vma),
{
    match vma.backing {
        VmBacking::File { mount_idx, inode, offset: _, elf_load_delta: _ } => {
            pins.unpin_inode(InodeKey { mount_idx, inode });
        },
        _ => {},
    }
}

/// Lock of an address space, by a number that tells it from every other.
pub struct MmSem {
    pub id: u64,
    pub lock: Arc<spin::RwLock<()>>,
}

impl MmSem {
    /// Another handle on the same lock.
    pub fn share(&self) -> (r: MmSem)
        ensures
            r == *self,
    {
        MmSem { id: self.id, lock: share_rw_lock(&self.lock) }
    }
}

/// Locks and change counters of address spaces, found by page-table root.
pub struct MmRegistry {
    /// Lock of the address space with a given root.
    pub sems: BTreeMap<u64, MmSem>,
    /// Number of the change counter of the address space with a given root.
    pub gens: BTreeMap<u64, u64>,
    /// For each lock, the address spaces that share it.
    pub sem_holders: Vec<u64>,
    /// For each change counter, the address spaces that share it.
    pub gen_holders: Vec<u64>,
    /// The change counters.
    pub generations: Vec<u64>,
}

/// What the registry knows.
#[verifier::ext_equal]
pub struct MmRegistryView {
    pub sems: Map<u64, MmSem>,
    pub gens: Map<u64, u64>,
    pub sem_holders: Seq<u64>,
    pub gen_holders: Seq<u64>,
    pub generations: Seq<u64>,
}

impl View for MmRegistry {
    type V = MmRegistryView;

    open spec fn view(&self) -> MmRegistryView {
        MmRegistryView {
            sems: self.sems@,
            gens: self.gens@,
            sem_holders: self.sem_holders@,
            gen_holders: self.gen_holders@,
            generations: self.generations@,
        }
    }
}

impl MmRegistryView {
    /// Every change counter has a number of holders, and everything that is registered
    /// exists.
    pub open spec fn wf(self) -> bool {
        &&& self.gen_holders.len() == self.generations.len()
        &&& forall|k: u64|
            self.gens.contains_key(k) ==> #[trigger] self.gens[k] < self.generations.len()
        &&& forall|k: u64|
            self.sems.contains_key(k) ==> (#[trigger] self.sems[k]).id < self.sem_holders.len()
    }

    /// The registry with change counter `id` one further.
    pub open spec fn bumped(self, id: u64) -> MmRegistryView {
        MmRegistryView {
            generations: self.generations.update(
                id as int,
                self.generations[id as int].wrapping_add(1),
            ),
            ..self
        }
    }

    /// The registry with a lock for the root `cr3`; the null root is never registered.
    pub open spec fn with_sem(self, cr3: u64, sem: MmSem) -> MmRegistryView {
        if cr3 == 0 {
            self
        } else {
            MmRegistryView { sems: self.sems.insert(cr3, sem), ..self }
        }
    }

    /// The registry with a change counter for the root `cr3`.
    pub open spec fn with_gen(self, cr3: u64, id: u64) -> MmRegistryView {
        if cr3 == 0 {
            self
        } else {
            MmRegistryView { gens: self.gens.insert(cr3, id), ..self }
        }
    }

    /// The registry after a change in the address space with the root `cr3`.
    pub open spec fn bumped_for(self, cr3: u64) -> MmRegistryView {
        if cr3 != 0 && self.gens.contains_key(cr3) {
            self.bumped(self.gens[cr3])
        } else {
            self
        }
    }

    /// The registry with one more lock, held once.
    pub open spec fn with_new_sem(self) -> MmRegistryView {
        MmRegistryView { sem_holders: self.sem_holders.push(1), ..self }
    }

    /// The registry with one more change counter at zero, held once.
    pub open spec fn with_new_gen(self) -> MmRegistryView {
        MmRegistryView {
            gen_holders: self.gen_holders.push(1),
            generations: self.generations.push(0),
            ..self
        }
    }
}

impl MmRegistry {
    /// A registry that knows no address space.
    pub fn new() -> (r: MmRegistry)
        ensures
            r@ == (MmRegistryView {
                sems: Map::empty(),
                gens: Map::empty(),
                sem_holders: Seq::empty(),
                gen_holders: Seq::empty(),
                generations: Seq::empty(),
            }),
            r@.wf(),
    {
        MmRegistry {
            sems: BTreeMap::new(),
            gens: BTreeMap::new(),
            sem_holders: Vec::new(),
            gen_holders: Vec::new(),
            generations: Vec::new(),
        }
    }
}

/// Registers the lock of the address space with the root `cr3`, in place of an earlier
/// one.  The null root is ignored.
pub fn register_mm_sem(reg: &mut MmRegistry, cr3: u64, sem: MmSem)
    ensures
        final(reg)@ == old(reg)@.with_sem(cr3, sem),
{
    if cr3 == 0 {
        return;
    }
    proof {
        broadcast use vstd::std_specs::btree::group_btree_axioms;
    }
    reg.sems.insert(cr3, sem);
}

/// Forgets the lock of the address space with the root `cr3`.
pub fn unregister_mm_sem(reg: &mut MmRegistry, cr3: u64)
    ensures
        final(reg)@ == (if cr3 == 0 {
            old(reg)@
        } else {
            MmRegistryView { sems: old(reg)@.sems.remove(cr3), ..old(reg)@ }
        }),
{
    if cr3 == 0 {
        return;
    }
    proof {
        broadcast use vstd::std_specs::btree::group_btree_axioms;
    }
    let _was: Option<MmSem> = reg.sems.remove(&cr3);
}

/// The lock of the address space with the root `cr3`.
pub fn mm_sem_for_cr3(reg: &MmRegistry, cr3: u64) -> (r: Option<MmSem>)
    ensures
        r is Some <==> cr3 != 0 && reg@.sems.contains_key(cr3),
        r matches Some(s) ==> s == reg@.sems[cr3],
{
    if cr3 == 0 {
        return None;
    }
    proof {
        broadcast use vstd::std_specs::btree::group_btree_axioms;
    }
    match reg.sems.get(&cr3) {
        Some(s) => Some(s.share()),
        None => None,
    }
}

/// Registers the change counter of the address space with the root `cr3`, in place of
/// an earlier one.  The null root is ignored.
pub fn register_mm_generation(reg: &mut MmRegistry, cr3: u64, id: u64)
    ensures
        final(reg)@ == old(reg)@.with_gen(cr3, id),
{
    if cr3 == 0 {
        return;
    }
    proof {
        broadcast use vstd::std_specs::btree::group_btree_axioms;
    }
    reg.gens.insert(cr3, id);
}

/// Forgets the change counter of the address space with the root `cr3`.
pub fn unregister_mm_generation(reg: &mut MmRegistry, cr3: u64)
    ensures
        final(reg)@ == (if cr3 == 0 {
            old(reg)@
        } else {
            MmRegistryView { gens: old(reg)@.gens.remove(cr3), ..old(reg)@ }
        }),
{
    if cr3 == 0 {
        return;
    }
    proof {
        broadcast use vstd::std_specs::btree::group_btree_axioms;
    }
    let _was: Option<u64> = reg.gens.remove(&cr3);
}

/// Notes a change in the address space with the root `cr3`, if it is known.
pub fn bump_generation_for_cr3(reg: &mut MmRegistry, cr3: u64)
    requires
        old(reg)@.wf(),
    ensures
        final(reg)@.wf(),
        final(reg)@ == old(reg)@.bumped_for(cr3),
{
    if cr3 == 0 {
        return;
    }
    proof {
        broadcast use vstd::std_specs::btree::group_btree_axioms;
    }
    let id: u64 = match reg.gens.get(&cr3) {
        Some(g) => *g,
        None => {
            return;
        },
    };
    assert(reg@.gens[cr3] < reg@.generations.len());
    bump(reg, id);
}

/// Moves change counter `id` one further.
pub(crate) fn bump(reg: &mut MmRegistry, id: u64)
    requires
        old(reg)@.wf(),
        id < old(reg)@.generations.len(),
    ensures
        final(reg)@.wf(),
        final(reg)@ == old(reg)@.bumped(id),
{
    let _len: usize = reg.generations.len();
    let g: u64 = reg.generations[id as usize];
    reg.generations.set(id as usize, g.wrapping_add(1));
    proof {
        lemma_still_wf(old(reg)@, reg@);
    }
}

proof fn lemma_still_wf(a: MmRegistryView, b: MmRegistryView)
    requires
        a.wf(),
        a.gens == b.gens,
        a.sems == b.sems,
        a.generations.len() <= b.generations.len(),
        a.sem_holders.len() <= b.sem_holders.len(),
        b.gen_holders.len() == b.generations.len(),
    ensures
        b.wf(),
{
    assert forall|k: u64| b.gens.contains_key(k) implies #[trigger] b.gens[k]
        < b.generations.len() by {
        assert(a.gens[k] < a.generations.len());
    }
    assert forall|k: u64| b.sems.contains_key(k) implies (#[trigger] b.sems[k]).id
        < b.sem_holders.len() by {
        assert(a.sems[k].id < a.sem_holders.len());
    }
}

/// A new lock, held by one address space and not registered.
pub fn make_mm_sem_for_test(reg: &mut MmRegistry) -> (r: MmSem)
    requires
        old(reg)@.wf(),
    ensures
        final(reg)@.wf(),
        final(reg)@ == old(reg)@.with_new_sem(),
        r.id == old(reg)@.sem_holders.len(),
{
    let id: u64 = reg.sem_holders.len() as u64;
    reg.sem_holders.push(1);
    proof {
        lemma_still_wf(old(reg)@, reg@);
    }
    MmSem { id, lock: Arc::new(new_rw_lock()) }
}

/// A new change counter at zero, held by one address space and not registered.
pub fn make_generation_for_test(reg: &mut MmRegistry) -> (id: u64)
    requires
        old(reg)@.wf(),
    ensures
        final(reg)@.wf(),
        final(reg)@ == old(reg)@.with_new_gen(),
        id == old(reg)@.generations.len(),
{
    let id: u64 = reg.generations.len() as u64;
    reg.generations.push(0);
    reg.gen_holders.push(1);
    proof {
        lemma_still_wf(old(reg)@, reg@);
    }
    id
}

/// Highest address at which a mapping without a fixed address is placed.
pub const MMAP_BASE: u64 = 0x7F00_0000_0000;

/// Start of the heap of a new address space.
pub const HEAP_BASE: u64 = 0x40_0000_0000;

/// First address of the window for thread stacks.
pub const STACK_ASLR_MIN: u64 = 0x7F00_0000_0000;

/// First address behind the window for thread stacks.
pub const STACK_ASLR_MAX: u64 = 0x7F40_0000_0000;

/// Attempts at a place for a stack before the general search takes over.
pub const STACK_PLACE_RETRIES: u64 = 16;

/// The address space of a process.
pub struct VmSpace {
    /// Physical address of the page-table root.
    pub cr3: u64,
    /// The areas, in order of their start.
    pub areas: Vec<VmArea>,
    /// Where the search for a free range starts, going down.
    pub mmap_hint: u64,
    /// Where the search for a place for a stack starts.
    pub stack_aslr_base: u64,
    /// End of the heap.
    pub brk: u64,
    /// Start of the heap.
    pub brk_start: u64,
    /// Lock of the address space.
    pub mm_sem: MmSem,
    /// Number of the change counter.
    pub generation: u64,
}

/// What an address space is made of.
#[verifier::ext_equal]
pub struct VmSpaceView {
    pub cr3: u64,
    pub areas: Seq<VmArea>,
    pub mmap_hint: u64,
    pub stack_aslr_base: u64,
    pub brk: u64,
    pub brk_start: u64,
    pub mm_sem: MmSem,
    pub generation: u64,
}

impl View for VmSpace {
    type V = VmSpaceView;

    open spec fn view(&self) -> VmSpaceView {
        VmSpaceView {
            cr3: self.cr3,
            areas: self.areas@,
            mmap_hint: self.mmap_hint,
            stack_aslr_base: self.stack_aslr_base,
            brk: self.brk,
            brk_start: self.brk_start,
            mm_sem: self.mm_sem,
            generation: self.generation,
        }
    }
}

/// Every area ends within 64 bits.
pub open spec fn areas_ok(areas: Seq<VmArea>) -> bool {
    forall|i: int| 0 <= i < areas.len() ==> (#[trigger] areas[i]).ok()
}

/// The areas are in order, do not overlap, and none is empty.
pub open spec fn sorted(areas: Seq<VmArea>) -> bool {
    &&& forall|i: int| 0 <= i < areas.len() ==> (#[trigger] areas[i]).length > 0
    &&& forall|i: int, j: int|
        0 <= i < j < areas.len() ==> (#[trigger] areas[i]).spec_end() <= (#[trigger] areas[j]).base
}

/// Whether some area overlaps `[base, end)`.
pub open spec fn hits(areas: Seq<VmArea>, base: int, end: int) -> bool {
    exists|i: int| 0 <= i < areas.len() && (#[trigger] areas[i]).meets(base, end)
}

/// Place of a new area that starts at `base`: before the first area, from number `i`
/// on, that starts behind it.
pub open spec fn insert_pos(areas: Seq<VmArea>, base: u64, i: int) -> int
    decreases areas.len() - i,
{
    if i >= areas.len() {
        areas.len() as int
    } else if areas[i].base > base {
        i
    } else {
        insert_pos(areas, base, i + 1)
    }
}

/// The backing of what is left of an area when its first `delta` bytes go.
pub open spec fn advanced(b: VmBacking, delta: int) -> VmBacking {
    match b {
        VmBacking::File { mount_idx, inode, offset, elf_load_delta } => VmBacking::File {
            mount_idx,
            inode,
            offset: (offset + delta) as u64,
            elf_load_delta,
        },
        _ => b,
    }
}

/// The part of an area in front of `base`.
pub open spec fn front_part(v: VmArea, base: int) -> VmArea {
    VmArea { length: (base - v.base) as u64, ..v }
}

/// The part of an area behind `end`, with its file offset moved along.
pub open spec fn back_part(v: VmArea, end: int) -> VmArea {
    VmArea {
        base: end as u64,
        length: (v.spec_end() - end) as u64,
        backing: advanced(v.backing, end - v.base),
        ..v
    }
}

/// What is left of an area when `[base, end)` is taken out.
pub open spec fn pieces(v: VmArea, base: int, end: int) -> Seq<VmArea> {
    if !v.meets(base, end) {
        seq![v]
    } else if v.base >= base && v.spec_end() <= end {
        Seq::empty()
    } else if v.base < base && v.spec_end() > end {
        seq![front_part(v, base), back_part(v, end)]
    } else if v.base < base {
        seq![front_part(v, base)]
    } else {
        seq![back_part(v, end)]
    }
}

/// What is left of a list of areas when `[base, end)` is taken out.
pub open spec fn remaining(areas: Seq<VmArea>, base: int, end: int) -> Seq<VmArea>
    decreases areas.len(),
{
    if areas.len() == 0 {
        Seq::empty()
    } else {
        remaining(areas.drop_last(), base, end) + pieces(areas.last(), base, end)
    }
}

/// What is done to the references to files.
pub enum PinOp {
    /// One more to the file.
    Take(InodeKey),
    /// One less to the file.
    Drop(InodeKey),
}

/// What an area does to the references when `[base, end)` is taken out: where it is touched
/// it gives its reference up, and each of its pieces takes one.
pub open spec fn ops_of(v: VmArea, base: int, end: int) -> Seq<PinOp> {
    match file_of(v) {
        Some(k) if v.meets(base, end) => seq![PinOp::Drop(k)] + Seq::new(
            pieces(v, base, end).len(),
            |i: int| PinOp::Take(k),
        ),
        _ => Seq::empty(),
    }
}

/// What taking `[base, end)` out of a list of areas does to the references, in order.
pub open spec fn removal_ops(areas: Seq<VmArea>, base: int, end: int) -> Seq<PinOp>
    decreases areas.len(),
{
    if areas.len() == 0 {
        Seq::empty()
    } else {
        removal_ops(areas.drop_last(), base, end) + ops_of(areas.last(), base, end)
    }
}

/// The references after something was done to them.
pub open spec fn after_ops(pins: Multiset<InodeKey>, ops: Seq<PinOp>) -> Multiset<InodeKey>
    decreases ops.len(),
{
    if ops.len() == 0 {
        pins
    } else {
        match ops.last() {
            PinOp::Take(k) => after_ops(pins, ops.drop_last()).insert(k),
            PinOp::Drop(k) => after_ops(pins, ops.drop_last()).remove(k),
        }
    }
}

/// How often `op` is done.
pub open spec fn times(ops: Seq<PinOp>, op: PinOp) -> nat
    decreases ops.len(),
{
    if ops.len() == 0 {
        0
    } else {
        times(ops.drop_last(), op) + if ops.last() == op {
            1nat
        } else {
            0
        }
    }
}

proof fn lemma_ops_concat(pins: Multiset<InodeKey>, x: Seq<PinOp>, y: Seq<PinOp>)
    ensures
        after_ops(pins, x + y) == after_ops(after_ops(pins, x), y),
    decreases y.len(),
{
    if y.len() == 0 {
        assert(x + y =~= x);
    } else {
        lemma_ops_concat(pins, x, y.drop_last());
        assert((x + y).drop_last() =~= x + y.drop_last());
        assert((x + y).last() == y.last());
    }
}

/// The references after the pieces of an area that was touched took theirs.
proof fn lemma_area_ops(pins: Multiset<InodeKey>, v: VmArea, base: int, end: int)
    ensures
        after_ops(pins, ops_of(v, base, end)) == (if !v.meets(base, end) {
            pins
        } else if pieces(v, base, end).len() == 0 {
            without_pin(pins, v)
        } else if pieces(v, base, end).len() == 1 {
            with_pin(without_pin(pins, v), v)
        } else {
            with_pin(with_pin(without_pin(pins, v), v), v)
        }),
{
    let ops = ops_of(v, base, end);
    if let Some(k) = file_of(v) {
        if v.meets(base, end) {
            reveal_with_fuel(after_ops, 4);
            let n = pieces(v, base, end).len();
            if n == 0 {
                assert(ops.drop_last() =~= Seq::empty());
            } else if n == 1 {
                assert(ops.drop_last() =~= seq![PinOp::Drop(k)]);
                assert(ops.drop_last().drop_last() =~= Seq::empty());
            } else {
                assert(ops.drop_last() =~= seq![PinOp::Drop(k), PinOp::Take(k)]);
                assert(ops.drop_last().drop_last() =~= seq![PinOp::Drop(k)]);
                assert(ops.drop_last().drop_last().drop_last() =~= Seq::empty());
            }
        }
    }
}

/// Result of the search for a free range of `size` bytes below `candidate`: it goes
/// down past the last area in the way, in no more than `steps` steps, and stays clear
/// of the first page.
pub open spec fn walk_down(areas: Seq<VmArea>, candidate: int, size: int, steps: nat) -> Option<int>
    decreases steps,
{
    if steps == 0 || candidate < size {
        None
    } else {
        let base = candidate - size;
        if !hits(areas, base, candidate) {
            if base >= 0x1000 {
                Some(base)
            } else {
                walk_down(areas, base, size, (steps - 1) as nat)
            }
        } else {
            walk_down(
                areas,
                areas[last_hit(areas, base, candidate)].base as int,
                size,
                (steps - 1) as nat,
            )
        }
    }
}

/// Number `i` is the last area that overlaps `[base, end)`.
pub open spec fn is_last_hit(areas: Seq<VmArea>, base: int, end: int, i: int) -> bool {
    &&& 0 <= i < areas.len()
    &&& areas[i].meets(base, end)
    &&& forall|j: int| i < j < areas.len() ==> !(#[trigger] areas[j]).meets(base, end)
}

/// The last area that overlaps `[base, end)`.
pub open spec fn last_hit(areas: Seq<VmArea>, base: int, end: int) -> int {
    choose|i: int| is_last_hit(areas, base, end, i)
}

impl VmSpace {
    /// The areas are sound, and the change counter exists.
    pub open spec fn wf(self, reg: MmRegistryView) -> bool {
        &&& areas_ok(self@.areas)
        &&& self.generation < reg.generations.len()
    }

    /// Whether some area overlaps `[base, base + size)`.
    fn any_overlap(&self, base: u64, size: u64) -> (r: bool)
        requires
            areas_ok(self@.areas),
            base + size <= u64::MAX,
        ensures
            r == hits(self@.areas, base as int, base + size),
    {
        let mut i: usize = 0;
        while i < self.areas.len()
            invariant
                areas_ok(self@.areas),
                base + size <= u64::MAX,
                i <= self.areas@.len(),
                forall|j: int|
                    0 <= j < i ==> !(#[trigger] self@.areas[j]).meets(base as int, base + size),
            decreases self.areas@.len() - i,
        {
            assert(self@.areas[i as int].ok());
            if self.areas[i].overlaps(base, size) {
                return true;
            }
            i = i + 1;
        }
        false
    }

    /// The area that `addr` lies in.
    pub fn find_vma(&self, addr: u64) -> (r: Option<&VmArea>)
        requires
            areas_ok(self@.areas),
        ensures
            r is None <==> forall|i: int|
                0 <= i < self@.areas.len() ==> !(#[trigger] self@.areas[i]).has(addr as int),
            r matches Some(v) ==> exists|i: int|
                {
                    &&& 0 <= i < self@.areas.len()
                    &&& #[trigger] self@.areas[i] == *v
                    &&& v.has(addr as int)
                    &&& forall|j: int| 0 <= j < i ==> !(#[trigger] self@.areas[j]).has(addr as int)
                },
    {
        let mut i: usize = 0;
        while i < self.areas.len()
            invariant
                areas_ok(self@.areas),
                i <= self.areas@.len(),
                forall|j: int| 0 <= j < i ==> !(#[trigger] self@.areas[j]).has(addr as int),
            decreases self.areas@.len() - i,
        {
            assert(self@.areas[i as int].ok());
            if self.areas[i].contains(addr) {
                assert(self@.areas[i as int] == self.areas@[i as int]);
                return Some(&self.areas[i]);
            }
            i = i + 1;
        }
        None
    }

    /// The area that `addr` lies in, to be changed.
    pub fn find_vma_mut(&mut self, addr: u64) -> (r: Option<&mut VmArea>)
        requires
            areas_ok(old(self)@.areas),
        ensures
            r is None <==> forall|i: int|
                0 <= i < old(self)@.areas.len() ==> !(#[trigger] old(self)@.areas[i]).has(
                    addr as int,
                ),
            r is None ==> final(self)@ == old(self)@,
            r matches Some(v) ==> exists|i: int|
                {
                    &&& 0 <= i < old(self)@.areas.len()
                    &&& #[trigger] old(self)@.areas[i] == *v
                    &&& v.has(addr as int)
                    &&& forall|j: int|
                        0 <= j < i ==> !(#[trigger] old(self)@.areas[j]).has(addr as int)
                    &&& final(self)@ == (VmSpaceView {
                        areas: old(self)@.areas.update(i, *final(v)),
                        ..old(self)@
                    })
                },
    {
        let mut i: usize = 0;
        while i < self.areas.len()
            invariant
                *self == *old(self),
                areas_ok(self@.areas),
                i <= self.areas@.len(),
                forall|j: int| 0 <= j < i ==> !(#[trigger] self@.areas[j]).has(addr as int),
            decreases self.areas@.len() - i,
        {
            assert(self@.areas[i as int].ok());
            if self.areas[i].contains(addr) {
                assert(old(self)@.areas[i as int] == self.areas@[i as int]);
                return Some(&mut self.areas[i]);
            }
            i = i + 1;
        }
        None
    }

    /// Lowers the start of the search for free ranges to `base`, where the mapping was
    /// placed by that search: neither at a fixed address nor as a stack.
    pub fn note_mmap_placement(&mut self, base: u64, is_fixed: bool, is_stack_alloc: bool)
        ensures
            final(self)@ == (VmSpaceView {
                mmap_hint: if !is_fixed && !is_stack_alloc && base < old(self)@.mmap_hint {
                    base
                } else {
                    old(self)@.mmap_hint
                },
                ..old(self)@
            }),
            final(self)@.mmap_hint <= old(self)@.mmap_hint,
            is_fixed || is_stack_alloc ==> final(self)@.mmap_hint == old(self)@.mmap_hint,
            !is_fixed && !is_stack_alloc ==> final(self)@.mmap_hint <= base,
            final(self)@.mmap_hint == base || final(self)@.mmap_hint == old(self)@.mmap_hint,
    {
        if !is_fixed && !is_stack_alloc && base < self.mmap_hint {
            self.mmap_hint = base;
        }
    }

    /// Adds an area.  Fails where it overlaps another one; then nothing changes.
    pub fn insert_vma(
        &mut self,
        reg: &mut MmRegistry,
        pins: &mut InodePins,
        vma: VmArea,
    ) -> (r: Result<(), VmaError>)
        requires
            old(self).wf(old(reg)@),
            old(reg)@.wf(),
            vma.ok(),
        ensures
            final(self).wf(final(reg)@),
            final(reg)@.wf(),
            r is Err <==> hits(old(self)@.areas, vma.base as int, vma.spec_end()),
            r matches Err(e) ==> e == VmaError::Overlap,
            r is Err ==> final(self)@ == old(self)@ && final(reg)@ == old(reg)@ && final(pins)@
                == old(pins)@,
            r is Ok ==> {
                &&& final(self)@ == (VmSpaceView {
                    areas: old(self)@.areas.insert(
                        insert_pos(old(self)@.areas, vma.base, 0),
                        vma,
                    ),
                    ..old(self)@
                })
                &&& final(reg)@ == old(reg)@.bumped(old(self)@.generation)
                &&& final(pins)@ == with_pin(old(pins)@, vma)
            },
    {
        if self.any_overlap(vma.base, vma.length) {
            return Err(VmaError::Overlap);
        }
        let mut pos: usize = 0;
        while pos < self.areas.len() && self.areas[pos].base <= vma.base
            invariant
                self@ == old(self)@,
                pos <= self.areas@.len(),
                insert_pos(self@.areas, vma.base, 0) == insert_pos(
                    self@.areas,
                    vma.base,
                    pos as int,
                ),
            decreases self.areas@.len() - pos,
        {
            pos = pos + 1;
        }
        pin_file_vma(pins, &vma);
        self.areas.insert(pos, vma);
        bump(reg, self.generation);
        proof {
            assert forall|i: int| 0 <= i < self@.areas.len() implies (#[trigger] self@.areas[i]).ok() by {
                if i < pos {
                    assert(old(self)@.areas[i].ok());
                } else if i > pos {
                    assert(old(self)@.areas[i - 1].ok());
                }
            }
        }
        Ok(())
    }

    /// Takes `[base, base + length)` out of the address space: areas in it go, areas
    /// that reach into it are cut, and an area around it becomes two.
    pub fn remove_range(
        &mut self,
        reg: &mut MmRegistry,
        pins: &mut InodePins,
        base: u64,
        length: u64,
    ) -> (r: Result<(), VmaError>)
        requires
            old(self).wf(old(reg)@),
            old(reg)@.wf(),
            base + length <= u64::MAX,
        ensures
            final(self).wf(final(reg)@),
            final(reg)@.wf(),
            r is Ok,
            final(self)@ == (VmSpaceView {
                areas: remaining(old(self)@.areas, base as int, base + length),
                ..old(self)@
            }),
            final(reg)@ == old(reg)@.bumped(old(self)@.generation),
            final(pins)@ == after_ops(
                old(pins)@,
                removal_ops(old(self)@.areas, base as int, base + length),
            ),
    {
        bump(reg, self.generation);
        let end: u64 = base + length;
        let mut kept: Vec<VmArea> = Vec::new();
        let mut i: usize = 0;
        proof {
            assert(self@.areas.take(0) =~= Seq::empty());
        }
        while i < self.areas.len()
            invariant
                *self == *old(self),
                areas_ok(self@.areas),
                end == base + length,
                i <= self.areas@.len(),
                areas_ok(kept@),
                kept@ == remaining(self@.areas.take(i as int), base as int, end as int),
                pins@ == after_ops(
                    old(pins)@,
                    removal_ops(self@.areas.take(i as int), base as int, end as int),
                ),
            decreases self.areas@.len() - i,
        {
            let vma: VmArea = self.areas[i];
            let ghost before = kept@;
            proof {
                assert(self@.areas[i as int].ok());
                assert(self@.areas.take(i + 1).drop_last() =~= self@.areas.take(i as int));
                assert(self@.areas.take(i + 1).last() == vma);
                lemma_ops_concat(
                    old(pins)@,
                    removal_ops(self@.areas.take(i as int), base as int, end as int),
                    ops_of(vma, base as int, end as int),
                );
                lemma_area_ops(pins@, vma, base as int, end as int);
            }
            if !vma.overlaps(base, length) {
                kept.push(vma);
            } else if vma.base >= base && vma.end() <= end {
                unpin_file_vma(pins, &vma);
            } else if vma.base < base && vma.end() > end {
                let right_delta: u64 = end - vma.base;
                let left = VmArea { length: base - vma.base, ..vma };
                let right = VmArea {
                    base: end,
                    length: vma.end() - end,
                    backing: advance(vma.backing, right_delta),
                    ..vma
                };
                unpin_file_vma(pins, &vma);
                pin_file_vma(pins, &right);
                pin_file_vma(pins, &left);
                kept.push(left);
                kept.push(right);
            } else if vma.base < base {
                let left = VmArea { length: base - vma.base, ..vma };
                unpin_file_vma(pins, &vma);
                pin_file_vma(pins, &left);
                kept.push(left);
            } else {
                let left_delta: u64 = end - vma.base;
                let right = VmArea {
                    base: end,
                    length: vma.length - left_delta,
                    backing: advance(vma.backing, left_delta),
                    ..vma
                };
                unpin_file_vma(pins, &vma);
                pin_file_vma(pins, &right);
                kept.push(right);
            }
            assert(kept@ =~= before + pieces(vma, base as int, end as int));
            i = i + 1;
        }
        proof {
            assert(self@.areas.take(i as int) =~= self@.areas);
        }
        self.areas = kept;
        Ok(())
    }

    /// A free range of `size` bytes, rounded up to pages, below the start of the search.
    pub fn find_free_range(&self, size: u64) -> (r: Option<u64>)
        requires
            areas_ok(self@.areas),
            size + 0xFFF <= u64::MAX,
        ensures
            r is Some <==> walk_down(
                self@.areas,
                self@.mmap_hint as int,
                align_up(size as int),
                1000,
            ) is Some,
            r matches Some(b) ==> {
                &&& walk_down(self@.areas, self@.mmap_hint as int, align_up(size as int), 1000)
                    == Some(b as int)
                &&& b >= 0x1000
                &&& b + align_up(size as int) <= self@.mmap_hint
                &&& !hits(self@.areas, b as int, b + align_up(size as int))
            },
    {
        let want: u64 = page_align_up(size);
        let mut candidate: u64 = self.mmap_hint;
        let mut steps: u64 = 1000;
        while steps > 0
            invariant
                areas_ok(self@.areas),
                want == align_up(size as int),
                candidate <= self@.mmap_hint,
                walk_down(self@.areas, self@.mmap_hint as int, want as int, 1000) == walk_down(
                    self@.areas,
                    candidate as int,
                    want as int,
                    steps as nat,
                ),
            decreases steps,
        {
            if candidate < want {
                return None;
            }
            let base: u64 = candidate - want;
            match self.last_overlap(base, want) {
                None => {
                    if base >= 0x1000 {
                        return Some(base);
                    }
                    candidate = base;
                },
                Some(i) => {
                    candidate = self.areas[i].base;
                },
            }
            steps = steps - 1;
        }
        None
    }

    /// The last area that overlaps `[base, base + size)`.
    fn last_overlap(&self, base: u64, size: u64) -> (r: Option<usize>)
        requires
            areas_ok(self@.areas),
            base + size <= u64::MAX,
        ensures
            r is None <==> !hits(self@.areas, base as int, base + size),
            r matches Some(i) ==> {
                &&& is_last_hit(self@.areas, base as int, base + size, i as int)
                &&& i == last_hit(self@.areas, base as int, base + size)
            },
    {
        let mut i: usize = self.areas.len();
        while i > 0
            invariant
                areas_ok(self@.areas),
                base + size <= u64::MAX,
                i <= self.areas@.len(),
                forall|j: int|
                    i <= j < self@.areas.len() ==> !(#[trigger] self@.areas[j]).meets(
                        base as int,
                        base + size,
                    ),
            decreases i,
        {
            assert(self@.areas[i - 1].ok());
            if self.areas[i - 1].overlaps(base, size) {
                proof {
                    assert(is_last_hit(self@.areas, base as int, base + size, i - 1));
                    let k = last_hit(self@.areas, base as int, base + size);
                    assert(is_last_hit(self@.areas, base as int, base + size, k));
                }
                return Some(i - 1);
            }
            i = i - 1;
        }
        None
    }
}

/// The backing of what is left of an area when its first `delta` bytes go.
fn advance(b: VmBacking, delta: u64) -> (r: VmBacking)
    requires
        b matches VmBacking::File { offset, .. } ==> offset + delta <= u64::MAX,
    ensures
        r == advanced(b, delta as int),
{
    match b {
        VmBacking::File { mount_idx, inode, offset, elf_load_delta } => VmBacking::File {
            mount_idx,
            inode,
            offset: offset + delta,
            elf_load_delta,
        },
        _ => b,
    }
}

/// Whether an area is the heap.
pub open spec fn is_heap(v: VmArea) -> bool {
    v.name@ == "[heap]"@
}

/// Whether an area is the heap.
fn named_heap(v: &VmArea) -> (r: bool)
    ensures
        r == is_heap(*v),
{
    v.name.to_owned() == "[heap]".to_owned()
}

/// Number `i` is the first area that is the heap.
pub open spec fn first_heap(areas: Seq<VmArea>, i: int) -> bool {
    &&& 0 <= i < areas.len()
    &&& is_heap(areas[i])
    &&& forall|j: int| 0 <= j < i ==> !is_heap(#[trigger] areas[j])
}

/// Whether there is a heap.
pub open spec fn has_heap(areas: Seq<VmArea>) -> bool {
    exists|i: int| first_heap(areas, i)
}

/// The first area that is the heap.
pub open spec fn heap_at(areas: Seq<VmArea>) -> int {
    choose|i: int| first_heap(areas, i)
}

/// The area of a new heap that ends at `brk`.
pub open spec fn new_heap(brk_start: u64, brk: int) -> VmArea {
    VmArea {
        base: brk_start,
        length: (brk - brk_start) as u64,
        prot: PROT_READ | PROT_WRITE,
        flags: MAP_PRIVATE | MAP_ANONYMOUS,
        backing: VmBacking::Anonymous,
        name: "[heap]",
    }
}

/// The areas after the end of the heap moved to `brk`: the heap area gets its new
/// length, one is made where there is none and room for it, and it goes with the last
/// byte.
pub open spec fn areas_after_brk(s: VmSpaceView, brk: int) -> Seq<VmArea> {
    let i = heap_at(s.areas);
    let resized = s.areas.update(
        i,
        VmArea { length: (brk - s.areas[i].base) as u64, ..s.areas[i] },
    );
    if brk < s.brk_start || brk == s.brk {
        s.areas
    } else if brk > s.brk {
        if has_heap(s.areas) {
            resized
        } else if hits(s.areas, s.brk_start as int, brk) {
            s.areas
        } else {
            s.areas.insert(insert_pos(s.areas, s.brk_start, 0), new_heap(s.brk_start, brk))
        }
    } else if !has_heap(s.areas) {
        s.areas
    } else if brk <= s.brk_start {
        s.areas.filter(|v: VmArea| !is_heap(v))
    } else {
        resized
    }
}

/// Whether moving the end of the heap to `brk` gives the heap area a new length.
pub open spec fn brk_resizes(s: VmSpaceView, brk: int) -> bool {
    &&& has_heap(s.areas)
    &&& brk >= s.brk_start
    &&& brk > s.brk || s.brk_start < brk < s.brk
}

/// The registry after the end of the heap moved to `brk`: the change is noted, and once more
/// where an area is added for it or pages are unmapped.
pub open spec fn reg_after_brk(reg: MmRegistryView, s: VmSpaceView, brk: int) -> MmRegistryView {
    if brk < s.brk_start || brk == s.brk {
        reg
    } else if brk < s.brk {
        reg.bumped(s.generation).bumped_for(s.cr3)
    } else if !has_heap(s.areas) && !hits(s.areas, s.brk_start as int, brk) {
        reg.bumped(s.generation).bumped(s.generation)
    } else {
        reg.bumped(s.generation)
    }
}

impl VmSpace {
    /// The first area that is the heap.
    fn find_heap(&self) -> (r: Option<usize>)
        ensures
            r is Some <==> has_heap(self@.areas),
            r matches Some(i) ==> first_heap(self@.areas, i as int) && i == heap_at(self@.areas),
    {
        let mut i: usize = 0;
        while i < self.areas.len()
            invariant
                i <= self.areas@.len(),
                forall|j: int| 0 <= j < i ==> !is_heap(#[trigger] self@.areas[j]),
            decreases self.areas@.len() - i,
        {
            if named_heap(&self.areas[i]) {
                proof {
                    assert(first_heap(self@.areas, i as int));
                    let k = heap_at(self@.areas);
                    assert(first_heap(self@.areas, k));
                }
                return Some(i);
            }
            i = i + 1;
        }
        None
    }

    /// Removes every area that is the heap.
    fn drop_heap(&mut self)
        ensures
            final(self)@ == (VmSpaceView {
                areas: old(self)@.areas.filter(|v: VmArea| !is_heap(v)),
                ..old(self)@
            }),
    {
        let mut kept: Vec<VmArea> = Vec::new();
        let mut i: usize = 0;
        let ghost keep = |v: VmArea| !is_heap(v);
        proof {
            assert(self@.areas.take(0).filter(keep) =~= Seq::empty()) by {
                reveal(Seq::filter);
            }
        }
        while i < self.areas.len()
            invariant
                *self == *old(self),
                i <= self.areas@.len(),
                keep == (|v: VmArea| !is_heap(v)),
                kept@ == self@.areas.take(i as int).filter(keep),
            decreases self.areas@.len() - i,
        {
            let v: VmArea = self.areas[i];
            proof {
                reveal(Seq::filter);
                assert(self@.areas.take(i + 1).drop_last() =~= self@.areas.take(i as int));
                assert(self@.areas.take(i + 1).last() == v);
            }
            if !named_heap(&v) {
                kept.push(v);
            }
            i = i + 1;
        }
        assert(self@.areas.take(i as int) =~= self@.areas);
        self.areas = kept;
    }

    /// Moves the end of the heap to `new_brk`, rounded up to a page, and returns where it
    /// is then.  It does not go below the start of the heap.
    ///
    /// When the heap shrinks, its pages are unmapped.  The caller, on processor `self_cpu`,
    /// then carries through the invalidation that comes back, and gives the frames back with
    /// its outcome, as after [`unmap_and_free_range_in`].
    pub fn adjust_brk(
        &mut self,
        reg: &mut MmRegistry,
        pins: &mut InodePins,
        mem: &mut PhysMem,
        f: &mut Frames,
        t: &mut Tlb,
        new_brk: u64,
        self_cpu: u64,
    ) -> (r: (u64, Option<Unmapped>))
        requires
            old(self).wf(old(reg)@),
            old(reg)@.wf(),
            old(f).wf(),
            old(f)@.refs.counts is Some,
            old(t)@.wf(),
            new_brk + 0xFFF <= u64::MAX,
            align_up(new_brk as int) < old(self)@.brk ==> old(self)@.brk <= u64::MAX - 0xFFF,
            brk_resizes(old(self)@, align_up(new_brk as int)) ==> {
                let v = old(self)@.areas[heap_at(old(self)@.areas)];
                let brk = align_up(new_brk as int);
                v.base <= brk && (VmArea { length: (brk - v.base) as u64, ..v }).ok()
            },
        ensures
            final(self).wf(final(reg)@),
            final(reg)@.wf(),
            final(f).wf(),
            final(t)@.wf(),
            r.0 == final(self)@.brk,
            old(self)@.brk >= old(self)@.brk_start ==> r.0 >= old(self)@.brk_start,
            new_brk >= old(self)@.brk_start ==> new_brk <= r.0 < new_brk + 0x1000 && r.0 % 0x1000
                == 0,
            new_brk > old(self)@.brk_start && r.0 != old(self)@.brk ==> forall|i: int|
                0 <= i < old(self)@.areas.len() && (#[trigger] old(self)@.areas[i]).name@
                    == "[heap]"@ && (forall|j: int|
                    0 <= j < i ==> (#[trigger] old(self)@.areas[j]).name@ != "[heap]"@)
                    ==> final(self)@.areas[i].base == old(self)@.areas[i].base
                    && final(self)@.areas[i].base + final(self)@.areas[i].length == r.0,
            ({
                let s = old(self)@;
                let brk = align_up(new_brk as int);
                let moves = brk >= s.brk_start && brk != s.brk;
                &&& final(self)@ == (VmSpaceView {
                    areas: areas_after_brk(s, brk),
                    brk: if moves {
                        brk as u64
                    } else {
                        s.brk
                    },
                    ..s
                })
                &&& final(reg)@ == reg_after_brk(old(reg)@, s, brk)
                &&& final(pins)@ == old(pins)@
                &&& r.1 is Some <==> moves && brk < s.brk
                &&& match r.1 {
                    Some(left) => {
                        let length = (s.brk - brk) as u64;
                        let (m, refs, _gone) = after_unmap_range(
                            old(mem)@,
                            old(f)@.refs,
                            s.cr3,
                            brk as u64,
                            pages_in(brk as u64, length),
                        );
                        &&& final(mem)@ == m
                        &&& final(f)@ == (FramesView { refs, ..old(f)@ })
                        &&& final(t)@ == old(t)@.published(
                            old(t)@.targets(s.cr3, self_cpu),
                            s.cr3,
                            brk as u64,
                            s.brk,
                        )
                        &&& left.follows(
                            old(mem)@,
                            old(f)@.refs,
                            old(t)@,
                            s.cr3,
                            brk as u64,
                            length,
                            self_cpu,
                        )
                    },
                    None => {
                        &&& final(mem)@ == old(mem)@
                        &&& final(f)@ == old(f)@
                        &&& final(t)@ == old(t)@
                    },
                }
            }),
    {
        let ghost wanted = new_brk;
        let new_brk: u64 = page_align_up(new_brk);
        if new_brk < self.brk_start {
            return (self.brk, None);
        }
        if new_brk == self.brk {
            return (self.brk, None);
        }
        bump(reg, self.generation);
        let mut left: Option<Unmapped> = None;
        if new_brk > self.brk {
            match self.find_heap() {
                Some(i) => {
                    let v: VmArea = self.areas[i];
                    proof {
                        assert(self@.areas[i as int].ok());
                    }
                    self.areas.set(i, VmArea { length: new_brk - v.base, ..v });
                    proof {
                        assert forall|k: int| 0 <= k < self@.areas.len() implies (
                        #[trigger] self@.areas[k]).ok() by {
                            if k != i {
                                assert(old(self)@.areas[k].ok());
                            }
                        }
                    }
                },
                None => {
                    let heap = VmArea {
                        base: self.brk_start,
                        length: new_brk - self.brk_start,
                        prot: PROT_READ | PROT_WRITE,
                        flags: MAP_PRIVATE | MAP_ANONYMOUS,
                        backing: VmBacking::Anonymous,
                        name: "[heap]",
                    };
                    let _placed: Result<(), VmaError> = self.insert_vma(reg, pins, heap);
                },
            }
        } else {
            let old_brk: u64 = self.brk;
            match self.find_heap() {
                Some(i) => {
                    if new_brk <= self.brk_start {
                        self.drop_heap();
                        proof {
                            lemma_filter_ok(old(self)@.areas);
                        }
                    } else {
                        let v: VmArea = self.areas[i];
                        proof {
                            assert(self@.areas[i as int].ok());
                        }
                        self.areas.set(i, VmArea { length: new_brk - v.base, ..v });
                        proof {
                            assert forall|k: int| 0 <= k < self@.areas.len() implies (
                            #[trigger] self@.areas[k]).ok() by {
                                if k != i {
                                    assert(old(self)@.areas[k].ok());
                                }
                            }
                        }
                    }
                },
                None => {},
            }
            left =
            Some(
                unmap_and_free_range_in(
                    mem,
                    f,
                    t,
                    reg,
                    self.cr3,
                    new_brk,
                    old_brk - new_brk,
                    self_cpu,
                ),
            );
        }
        self.brk = new_brk;
        proof {
            let s = old(self)@;
            if wanted > s.brk_start {
                assert forall|i: int|
                    0 <= i < s.areas.len() && (#[trigger] s.areas[i]).name@ == "[heap]"@ && (forall|
                        j: int,
                    |
                        0 <= j < i ==> (#[trigger] s.areas[j]).name@
                            != "[heap]"@) implies self@.areas[i].base == s.areas[i].base
                    && self@.areas[i].base + self@.areas[i].length == self.brk by {
                    assert(first_heap(s.areas, i));
                    assert(first_heap(s.areas, heap_at(s.areas)));
                }
            }
        }
        (self.brk, left)
    }
}

proof fn lemma_filter_ok(areas: Seq<VmArea>)
    requires
        areas_ok(areas),
    ensures
        areas_ok(areas.filter(|v: VmArea| !is_heap(v))),
    decreases areas.len(),
{
    let keep = |v: VmArea| !is_heap(v);
    reveal(Seq::filter);
    if areas.len() > 0 {
        lemma_filter_ok(areas.drop_last());
        let front = areas.drop_last().filter(keep);
        assert forall|i: int| 0 <= i < areas.filter(keep).len() implies (#[trigger] areas.filter(
            keep,
        )[i]).ok() by {
            if i < front.len() {
                assert(front[i].ok());
            } else {
                assert(areas[areas.len() - 1].ok());
            }
        }
    }
}

/// One letter of a protection: `letter` where the bit is set, a dash where it is not.
pub open spec fn prot_letter(set: bool, letter: &str) -> Seq<char> {
    if set {
        letter@
    } else {
        "-"@
    }
}

/// An area as a line of text: its bounds, its protection and its name.
pub open spec fn area_text(v: VmArea) -> Seq<char> {
    "VMA 0x"@ + hex_text(v.base as int, 16) + "-0x"@ + hex_text(v.spec_end(), 16) + " "@
        + prot_letter(v.prot & PROT_READ != 0, "r") + prot_letter(v.prot & PROT_WRITE != 0, "w")
        + prot_letter(v.prot & PROT_EXEC != 0, "x") + " "@ + v.name@
}

/// An address space as a line of text: its root, the number of its areas and the end of its
/// heap.
pub open spec fn space_text(s: VmSpaceView) -> Seq<char> {
    "  VmSpace CR3="@ + hash_hex(s.cr3) + ", "@ + dec_text(s.areas.len()) + " VMAs, brk="@
        + hash_hex(s.brk) + ":"@
}

impl VmArea {
    /// The area as a line of text.
    pub fn describe(&self) -> (r: String)
        requires
            self.base + self.length <= u64::MAX,
        ensures
            r@ == area_text(*self),
    {
        let mut out: String = String::new();
        self.append_to(&mut out);
        assert(out@ =~= area_text(*self));
        out
    }

    /// Appends the line of text of the area.
    fn append_to(&self, out: &mut String)
        requires
            self.base + self.length <= u64::MAX,
        ensures
            final(out)@ == old(out)@ + area_text(*self),
    {
        out.append("VMA 0x");
        append_hex(out, self.base, 16);
        out.append("-0x");
        append_hex(out, self.end(), 16);
        out.append(" ");
        out.append(if self.prot & PROT_READ != 0 { "r" } else { "-" });
        out.append(if self.prot & PROT_WRITE != 0 { "w" } else { "-" });
        out.append(if self.prot & PROT_EXEC != 0 { "x" } else { "-" });
        out.append(" ");
        out.append(self.name);
        assert(out@ =~= old(out)@ + area_text(*self));
    }
}

/// Where a search with the given offset looks for a place for a stack: from the start
/// of the search on, but inside the window.
pub open spec fn stack_candidate(base: u64, jitter: u64, size: int) -> int {
    let raw = base.saturating_add(jitter) as int;
    let top = STACK_ASLR_MAX - size;
    let capped = if raw < top {
        raw
    } else {
        top
    };
    if capped > STACK_ASLR_MIN {
        capped
    } else {
        STACK_ASLR_MIN as int
    }
}

/// The first offset, from number `i` on, whose place is free.
pub open spec fn first_free_jitter(s: VmSpaceView, jitters: Seq<u64>, size: int, i: int) -> int
    decreases 16 - i,
{
    let c = stack_candidate(s.stack_aslr_base, jitters[i], size);
    if i >= 16 {
        16
    } else if !hits(s.areas, c, c + size) {
        i
    } else {
        first_free_jitter(s, jitters, size, i + 1)
    }
}

impl VmSpace {
    /// A place of `size` bytes, rounded up to pages, for a stack.  Each of the random
    /// offsets is tried in turn; where none leads to a free place, the general search
    /// takes over.
    pub fn find_free_stack_range(&self, size: u64, jitters: &Vec<u64>) -> (r: Option<u64>)
        requires
            areas_ok(self@.areas),
            size + 0xFFF <= u64::MAX,
            jitters@.len() == STACK_PLACE_RETRIES,
        ensures
            ({
                let want = align_up(size as int);
                let k = first_free_jitter(self@, jitters@, want, 0);
                if want == 0 || want > STACK_ASLR_MAX - STACK_ASLR_MIN {
                    r is None
                } else if k < 16 {
                    &&& r matches Some(b)
                    &&& b == stack_candidate(self@.stack_aslr_base, jitters@[k], want)
                    &&& STACK_ASLR_MIN <= b
                    &&& b + want <= STACK_ASLR_MAX
                    &&& !hits(self@.areas, b as int, b + want)
                } else {
                    match walk_down(self@.areas, self@.mmap_hint as int, want, 1000) {
                        Some(b) => r matches Some(x) && x == b,
                        None => r is None,
                    }
                }
            }),
    {
        let want: u64 = page_align_up(size);
        if want == 0 || want > STACK_ASLR_MAX - STACK_ASLR_MIN {
            return None;
        }
        let mut i: u64 = 0;
        while i < STACK_PLACE_RETRIES
            invariant
                areas_ok(self@.areas),
                jitters@.len() == STACK_PLACE_RETRIES,
                want == align_up(size as int),
                0 < want <= STACK_ASLR_MAX - STACK_ASLR_MIN,
                i <= 16,
                first_free_jitter(self@, jitters@, want as int, 0) == first_free_jitter(
                    self@,
                    jitters@,
                    want as int,
                    i as int,
                ),
            decreases 16 - i,
        {
            let raw: u64 = self.stack_aslr_base.saturating_add(jitters[i as usize]);
            let max_base: u64 = STACK_ASLR_MAX - want;
            let capped: u64 = if raw < max_base {
                raw
            } else {
                max_base
            };
            let candidate: u64 = if capped > STACK_ASLR_MIN {
                capped
            } else {
                STACK_ASLR_MIN
            };
            if !self.any_overlap(candidate, want) {
                return Some(candidate);
            }
            i = i + 1;
        }
        self.find_free_range(want)
    }

    /// The first line of a dump: the root, the number of areas and the end of the heap.
    fn header(&self) -> (r: String)
        ensures
            r@ == space_text(self@),
    {
        let mut out: String = String::new();
        out.append("  VmSpace CR3=");
        append_hash_hex(&mut out, self.cr3);
        out.append(", ");
        append_dec(&mut out, self.areas.len() as u64);
        out.append(" VMAs, brk=");
        append_hash_hex(&mut out, self.brk);
        out.append(":");
        assert(out@ =~= space_text(self@));
        out
    }

    /// The address space as lines of text: one for itself, then one for each area.
    pub fn dump(&self) -> (r: Vec<String>)
        requires
            areas_ok(self@.areas),
        ensures
            r@.len() == self@.areas.len() + 1,
            r@[0]@ == space_text(self@),
            forall|i: int|
                0 <= i < self@.areas.len() ==> #[trigger] r@[i + 1]@ == "    "@ + area_text(
                    self@.areas[i],
                ),
    {
        let mut r: Vec<String> = Vec::new();
        r.push(self.header());
        let mut i: usize = 0;
        while i < self.areas.len()
            invariant
                areas_ok(self@.areas),
                i <= self.areas@.len(),
                r@.len() == i + 1,
                r@[0]@ == space_text(self@),
                forall|j: int|
                    0 <= j < i ==> #[trigger] r@[j + 1]@ == "    "@ + area_text(self@.areas[j]),
            decreases self.areas@.len() - i,
        {
            assert(self@.areas[i as int].ok());
            let mut line: String = String::new();
            line.append("    ");
            self.areas[i].append_to(&mut line);
            assert(line@ =~= "    "@ + area_text(self@.areas[i as int]));
            r.push(line);
            i = i + 1;
        }
        r
    }
}

/// Start of the search for free ranges in a new address space, given a random offset.
pub fn randomised_mmap_hint(offset: u64) -> (r: u64)
    ensures
        r == MMAP_BASE.saturating_sub(offset),
        offset <= 0x7F00_0000_0000 ==> r + offset == 0x7F00_0000_0000,
        offset >= 0x7F00_0000_0000 ==> r == 0,
{
    MMAP_BASE.saturating_sub(offset)
}

/// Start of the search for places for stacks, given a random offset: inside the window.
pub fn randomised_stack_aslr_base(page_offset: u64) -> (r: u64)
    ensures
        r == (if STACK_ASLR_MIN.saturating_add(page_offset) < STACK_ASLR_MAX - 0x1000 {
            STACK_ASLR_MIN + page_offset
        } else {
            STACK_ASLR_MAX - 0x1000
        }),
        STACK_ASLR_MIN <= r < STACK_ASLR_MAX,
        page_offset < 0x3F_FFFF_F000 ==> r == 0x7F00_0000_0000 + page_offset,
        page_offset >= 0x3F_FFFF_F000 ==> r == 0x7F3F_FFFF_F000,
{
    let raw: u64 = STACK_ASLR_MIN.saturating_add(page_offset);
    if raw < STACK_ASLR_MAX - 0x1000 {
        raw
    } else {
        STACK_ASLR_MAX - 0x1000
    }
}

/// An address space without areas.
pub open spec fn empty_space(
    cr3: u64,
    mmap_hint: u64,
    stack_aslr_base: u64,
    mm_sem: MmSem,
    generation: u64,
) -> VmSpaceView {
    VmSpaceView {
        cr3,
        areas: Seq::empty(),
        mmap_hint,
        stack_aslr_base,
        brk: HEAP_BASE,
        brk_start: HEAP_BASE,
        mm_sem,
        generation,
    }
}

/// The registry after an address space with a lock and a change counter of its own was
/// set up for the root `cr3`.
pub open spec fn registered(reg: MmRegistryView, cr3: u64, sem: MmSem) -> MmRegistryView {
    reg.with_new_sem().with_sem(cr3, sem).with_new_gen().with_gen(
        cr3,
        reg.generations.len() as u64,
    )
}

/// Makes a lock and a change counter and registers both for the root `cr3`.
pub(crate) fn register_new(reg: &mut MmRegistry, cr3: u64) -> (r: (MmSem, u64))
    requires
        old(reg)@.wf(),
    ensures
        final(reg)@.wf(),
        r.0.id == old(reg)@.sem_holders.len(),
        r.1 == old(reg)@.generations.len(),
        final(reg)@ == registered(old(reg)@, cr3, r.0),
{
    let sem: MmSem = make_mm_sem_for_test(reg);
    register_mm_sem(reg, cr3, sem.share());
    proof {
        lemma_registered_wf(old(reg)@.with_new_sem(), reg@);
    }
    let ghost mid = reg@;
    let id: u64 = make_generation_for_test(reg);
    let ghost mid2 = reg@;
    register_mm_generation(reg, cr3, id);
    proof {
        lemma_registered_wf(mid2, reg@);
    }
    (sem, id)
}

proof fn lemma_registered_wf(a: MmRegistryView, b: MmRegistryView)
    requires
        a.wf(),
        b.gen_holders == a.gen_holders,
        b.generations == a.generations,
        b.sem_holders == a.sem_holders,
        forall|k: u64|
            b.gens.contains_key(k) ==> (a.gens.contains_key(k) && #[trigger] b.gens[k] == a.gens[k])
                || b.gens[k] < b.generations.len(),
        forall|k: u64|
            b.sems.contains_key(k) ==> (a.sems.contains_key(k) && #[trigger] b.sems[k] == a.sems[k])
                || b.sems[k].id < b.sem_holders.len(),
    ensures
        b.wf(),
{
    assert forall|k: u64| b.gens.contains_key(k) implies #[trigger] b.gens[k]
        < b.generations.len() by {
        assert(a.gens.contains_key(k) ==> a.gens[k] < a.generations.len());
    }
    assert forall|k: u64| b.sems.contains_key(k) implies (#[trigger] b.sems[k]).id
        < b.sem_holders.len() by {
        assert(a.sems.contains_key(k) ==> a.sems[k].id < a.sem_holders.len());
    }
}

impl VmSpace {
    /// The address space of a kernel process: it uses the current page tables, whose CR3
    /// register reads `cr3`.
    pub fn new_kernel(reg: &mut MmRegistry, cr3: u64) -> (r: VmSpace)
        requires
            old(reg)@.wf(),
        ensures
            final(reg)@.wf(),
            r.wf(final(reg)@),
            r.mm_sem.id == old(reg)@.sem_holders.len(),
            r@ == empty_space(
                cr3 & ADDR_MASK,
                MMAP_BASE,
                STACK_ASLR_MIN,
                r.mm_sem,
                old(reg)@.generations.len() as u64,
            ),
            final(reg)@ == registered(old(reg)@, cr3 & ADDR_MASK, r.mm_sem),
    {
        let root: u64 = get_cr3(cr3);
        let (mm_sem, generation) = register_new(reg, root);
        let r = VmSpace {
            cr3: root,
            areas: Vec::new(),
            mmap_hint: MMAP_BASE,
            stack_aslr_base: STACK_ASLR_MIN,
            brk: HEAP_BASE,
            brk_start: HEAP_BASE,
            mm_sem,
            generation,
        };
        r
    }
}

/// Contents of a new root: an empty user half under the kernel half of `root`.
pub open spec fn root_contents(mem: Seq<u64>, root: u64) -> Seq<u64> {
    Seq::new(
        512,
        |i: int|
            if i < 256 {
                0
            } else {
                slot(mem, root, i)
            },
    )
}

/// Memory after a root with an empty user half was made in the frame `np`, with the
/// kernel half of `root`.
pub open spec fn with_new_root(mem: Seq<u64>, np: u64, root: u64) -> Seq<u64> {
    let cleared = with_frame(mem, np, zero_frame());
    with_frame(cleared, np, root_contents(cleared, root))
}

/// Makes a root with an empty user half in the frame `np`.
pub(crate) fn make_root(mem: &mut PhysMem, np: u64, root: u64)
    ensures
        final(mem)@ == with_new_root(old(mem)@, np, root),
{
    mem.zero_frame(np);
    let mut contents: Vec<u64> = Vec::new();
    let mut i: u64 = 0;
    while i < 512
        invariant
            i <= 512,
            contents@ =~= root_contents(mem@, root).take(i as int),
        decreases 512 - i,
    {
        if i < 256 {
            contents.push(0);
        } else {
            contents.push(mem.read(root, i));
        }
        i = i + 1;
    }
    assert(contents@ =~= root_contents(mem@, root));
    mem.write_frame(np, &contents);
}

impl MmRegistryView {
    /// The registry with one more holder of lock `id`.
    pub open spec fn sem_shared(self, id: u64) -> MmRegistryView {
        MmRegistryView {
            sem_holders: self.sem_holders.update(
                id as int,
                (self.sem_holders[id as int] + 1) as u64,
            ),
            ..self
        }
    }

    /// The registry with one more holder of change counter `id`.
    pub open spec fn gen_shared(self, id: u64) -> MmRegistryView {
        MmRegistryView {
            gen_holders: self.gen_holders.update(
                id as int,
                (self.gen_holders[id as int] + 1) as u64,
            ),
            ..self
        }
    }

    /// Whether the lock of an address space goes from the registry with it: it is the
    /// one that is registered for its root, and no other address space holds it.
    pub open spec fn evicts_sem(self, s: VmSpaceView) -> bool {
        &&& s.cr3 != 0
        &&& self.sems.contains_key(s.cr3)
        &&& self.sems[s.cr3].id == s.mm_sem.id
        &&& self.sem_holders[s.mm_sem.id as int] == 1
    }

    /// Whether the change counter goes as well.
    pub open spec fn evicts_gen(self, s: VmSpaceView) -> bool {
        &&& self.evicts_sem(s)
        &&& self.gens.contains_key(s.cr3)
        &&& self.gens[s.cr3] == s.generation
        &&& self.gen_holders[s.generation as int] == 1
    }

    /// The registry after an address space is gone.
    pub open spec fn after_release(self, s: VmSpaceView) -> MmRegistryView {
        MmRegistryView {
            sems: if self.evicts_sem(s) {
                self.sems.remove(s.cr3)
            } else {
                self.sems
            },
            gens: if self.evicts_gen(s) {
                self.gens.remove(s.cr3)
            } else {
                self.gens
            },
            sem_holders: self.sem_holders.update(
                s.mm_sem.id as int,
                (self.sem_holders[s.mm_sem.id as int] - 1) as u64,
            ),
            gen_holders: self.gen_holders.update(
                s.generation as int,
                (self.gen_holders[s.generation as int] - 1) as u64,
            ),
            ..self
        }
    }

    /// The address space is one of the holders of its lock and of its change counter.
    pub open spec fn counts_holder(self, s: VmSpaceView) -> bool {
        &&& s.mm_sem.id < self.sem_holders.len()
        &&& s.generation < self.gen_holders.len()
        &&& self.sem_holders[s.mm_sem.id as int] > 0
        &&& self.gen_holders[s.generation as int] > 0
    }
}

impl VmSpace {
    /// An address space of its own areas on the page tables of another one, whose lock it
    /// shares.  It shares the change counter as well, where one is registered.
    pub fn from_existing_cr3(
        reg: &mut MmRegistry,
        cr3: u64,
        parent_mm_sem: MmSem,
        stack_offset: u64,
    ) -> (r: VmSpace)
        requires
            old(reg)@.wf(),
            parent_mm_sem.id < old(reg)@.sem_holders.len(),
            old(reg)@.sem_holders[parent_mm_sem.id as int] < u64::MAX,
            old(reg)@.gens.contains_key(cr3) ==> old(reg)@.gen_holders[old(reg)@.gens[cr3] as int] < u64::MAX,
        ensures
            final(reg)@.wf(),
            r.wf(final(reg)@),
            r.generation == (if old(reg)@.gens.contains_key(cr3) {
                old(reg)@.gens[cr3] as int
            } else {
                old(reg)@.generations.len() as int
            }),
            r@ == empty_space(cr3, MMAP_BASE, r.stack_aslr_base, parent_mm_sem, r.generation),
            r.stack_aslr_base == (if STACK_ASLR_MIN.saturating_add(stack_offset) < STACK_ASLR_MAX
                - 0x1000 {
                STACK_ASLR_MIN + stack_offset
            } else {
                STACK_ASLR_MAX - 0x1000
            }),
            final(reg)@ == (if old(reg)@.gens.contains_key(cr3) {
                old(reg)@.gen_shared(old(reg)@.gens[cr3])
            } else {
                old(reg)@.with_new_gen().with_gen(cr3, old(reg)@.generations.len() as u64)
            }).sem_shared(parent_mm_sem.id),
    {
        proof {
            broadcast use vstd::std_specs::btree::group_btree_axioms;
        }
        let known: Option<u64> = match reg.gens.get(&cr3) {
            Some(g) => Some(*g),
            None => None,
        };
        let generation: u64 = match known {
            Some(g) => {
                assert(reg@.gens[cr3] < reg@.generations.len());
                let _len: usize = reg.gen_holders.len();
                let n: u64 = reg.gen_holders[g as usize];
                reg.gen_holders.set(g as usize, n + 1);
                proof {
                    lemma_still_wf(old(reg)@, reg@);
                }
                g
            },
            None => {
                let g: u64 = make_generation_for_test(reg);
                let ghost mid = reg@;
                register_mm_generation(reg, cr3, g);
                proof {
                    lemma_registered_wf(mid, reg@);
                }
                g
            },
        };
        let ghost mid = reg@;
        let _len: usize = reg.sem_holders.len();
        let n: u64 = reg.sem_holders[parent_mm_sem.id as usize];
        reg.sem_holders.set(parent_mm_sem.id as usize, n + 1);
        proof {
            lemma_still_wf(mid, reg@);
        }
        VmSpace {
            cr3,
            areas: Vec::new(),
            mmap_hint: MMAP_BASE,
            stack_aslr_base: randomised_stack_aslr_base(stack_offset),
            brk: HEAP_BASE,
            brk_start: HEAP_BASE,
            mm_sem: parent_mm_sem,
            generation,
        }
    }

    /// A new user address space: a root of its own with an empty user half and the
    /// kernel half of the current one, whose CR3 register reads `cr3`.  The offsets are
    /// random.
    ///
    /// `None` says that no frame is free.  Nothing has happened then, so that the caller can
    /// have memory freed and call once more.
    pub fn new_user(
        mem: &mut PhysMem,
        f: &mut Frames,
        reg: &mut MmRegistry,
        cr3: u64,
        mmap_offset: u64,
        stack_offset: u64,
        now: u64,
    ) -> (r: Option<VmSpace>)
        requires
            old(f).wf(),
            old(reg)@.wf(),
        ensures
            final(f).wf(),
            final(reg)@.wf(),
            final(f)@ == old(f)@.allocated(now).1,
            r is None <==> old(f)@.allocated(now).0 is None,
            r is None ==> {
                &&& final(mem)@ == old(mem)@
                &&& final(reg)@ == old(reg)@
                &&& final(f)@.pmm.free.is_empty()
            },
            r matches Some(s) ==> {
                &&& s.wf(final(reg)@)
                &&& s.mm_sem.id == old(reg)@.sem_holders.len()
                &&& old(f)@.allocated(now).0 == Some(s.cr3)
                &&& final(mem)@ == with_new_root(old(mem)@, s.cr3, cr3 & ADDR_MASK)
                &&& final(reg)@ == registered(old(reg)@, s.cr3, s.mm_sem)
                &&& s@ == empty_space(
                    s.cr3,
                    MMAP_BASE.saturating_sub(mmap_offset),
                    s.stack_aslr_base,
                    s.mm_sem,
                    old(reg)@.generations.len() as u64,
                )
                &&& s.stack_aslr_base == (if STACK_ASLR_MIN.saturating_add(stack_offset)
                    < STACK_ASLR_MAX - 0x1000 {
                    STACK_ASLR_MIN + stack_offset
                } else {
                    STACK_ASLR_MAX - 0x1000
                })
            },
    {
        let new_pml4: u64 = match alloc_page(f, now) {
            Some(p) => p,
            None => {
                return None;
            },
        };
        make_root(mem, new_pml4, get_cr3(cr3));
        let (mm_sem, generation) = register_new(reg, new_pml4);
        Some(
            VmSpace {
                cr3: new_pml4,
                areas: Vec::new(),
                mmap_hint: randomised_mmap_hint(mmap_offset),
                stack_aslr_base: randomised_stack_aslr_base(stack_offset),
                brk: HEAP_BASE,
                brk_start: HEAP_BASE,
                mm_sem,
                generation,
            },
        )
    }

    /// Gives an address space up.  Its lock and change counter leave the registry with
    /// their last holder, unless others were registered in their place.
    pub fn release(self, reg: &mut MmRegistry)
        requires
            old(reg)@.wf(),
            old(reg)@.counts_holder(self@),
        ensures
            final(reg)@.wf(),
            final(reg)@ == old(reg)@.after_release(self@),
    {
        proof {
            broadcast use vstd::std_specs::btree::group_btree_axioms;
        }
        let _len1: usize = reg.sem_holders.len();
        let _len2: usize = reg.gen_holders.len();
        let sems_left: u64 = reg.sem_holders[self.mm_sem.id as usize];
        let gens_left: u64 = reg.gen_holders[self.generation as usize];
        if self.cr3 != 0 {
            let ours: bool = match reg.sems.get(&self.cr3) {
                Some(slot) => slot.id == self.mm_sem.id,
                None => false,
            };
            if ours && sems_left == 1 {
                unregister_mm_sem(reg, self.cr3);
                let same: bool = match reg.gens.get(&self.cr3) {
                    Some(g) => *g == self.generation,
                    None => false,
                };
                if same && gens_left == 1 {
                    unregister_mm_generation(reg, self.cr3);
                }
            }
        }
        let ghost mid = reg@;
        proof {
            lemma_registered_wf(old(reg)@, mid);
        }
        reg.sem_holders.set(self.mm_sem.id as usize, sems_left - 1);
        reg.gen_holders.set(self.generation as usize, gens_left - 1);
        proof {
            lemma_still_wf(mid, reg@);
        }
    }
}

/// An address space that shares the lock of another one leaves the registry's entry in
/// place when it goes: the other still finds its lock.
pub proof fn law_shared_lock_survives_release(reg: MmRegistryView, child: VmSpaceView)
    requires
        reg.wf(),
        reg.counts_holder(child),
        reg.sem_holders[child.mm_sem.id as int] > 1,
    ensures
        reg.after_release(child).sems == reg.sems,
        reg.after_release(child).gens == reg.gens,
{
}

/// The last holder takes the entry with it.
pub proof fn law_last_release_evicts(reg: MmRegistryView, s: VmSpaceView)
    requires
        reg.wf(),
        reg.counts_holder(s),
        s.cr3 != 0,
        reg.sems.contains_key(s.cr3),
        reg.sems[s.cr3].id == s.mm_sem.id,
        reg.sem_holders[s.mm_sem.id as int] == 1,
    ensures
        !reg.after_release(s).sems.contains_key(s.cr3),
{
}

proof fn lemma_insert_pos(areas: Seq<VmArea>, base: u64, i: int)
    requires
        0 <= i <= areas.len(),
        forall|j: int| 0 <= j < i ==> (#[trigger] areas[j]).base <= base,
    ensures
        ({
            let p = insert_pos(areas, base, i);
            &&& i <= p <= areas.len()
            &&& forall|j: int| 0 <= j < p ==> (#[trigger] areas[j]).base <= base
            &&& p < areas.len() ==> areas[p].base > base
        }),
    decreases areas.len() - i,
{
    if i < areas.len() && areas[i].base <= base {
        lemma_insert_pos(areas, base, i + 1);
    }
}

/// Adding an area that overlaps none keeps the areas in order and apart.
pub proof fn law_insert_keeps_order(areas: Seq<VmArea>, v: VmArea)
    requires
        areas_ok(areas),
        sorted(areas),
        v.ok(),
        v.length > 0,
        !hits(areas, v.base as int, v.spec_end()),
    ensures
        sorted(areas.insert(insert_pos(areas, v.base, 0), v)),
{
    let p = insert_pos(areas, v.base, 0);
    lemma_insert_pos(areas, v.base, 0);
    let n = areas.insert(p, v);
    assert forall|i: int| 0 <= i < n.len() implies (#[trigger] n[i]).length > 0 by {
        if i < p {
            assert(areas[i].length > 0);
        } else if i > p {
            assert(areas[i - 1].length > 0);
        }
    }
    assert forall|i: int, j: int| 0 <= i < j < n.len() implies (#[trigger] n[i]).spec_end() <= (
    #[trigger] n[j]).base by {
        if j == p {
            assert(!areas[i].meets(v.base as int, v.spec_end()));
            assert(areas[i].length > 0);
        } else if i == p {
            let k = j - 1;
            assert(!areas[k].meets(v.base as int, v.spec_end()));
            assert(areas[k].length > 0);
            if k > p {
                assert(areas[p].spec_end() <= areas[k].base);
            }
        } else {
            let a = if i < p {
                i
            } else {
                i - 1
            };
            let b = if j < p {
                j
            } else {
                j - 1
            };
            assert(areas[a].spec_end() <= areas[b].base);
        }
    }
}

proof fn lemma_remaining_order(areas: Seq<VmArea>, base: int, end: int)
    requires
        areas_ok(areas),
        sorted(areas),
        0 <= base <= end <= u64::MAX,
    ensures
        sorted(remaining(areas, base, end)),
        areas.len() > 0 ==> forall|k: int|
            0 <= k < remaining(areas, base, end).len() ==> (#[trigger] remaining(
                areas,
                base,
                end,
            )[k]).spec_end() <= areas.last().spec_end(),
    decreases areas.len(),
{
    if areas.len() > 0 {
        let dl = areas.drop_last();
        let v = areas.last();
        assert(v == areas[areas.len() - 1]);
        assert(v.ok() && v.length > 0);
        assert forall|i: int| 0 <= i < dl.len() implies (#[trigger] dl[i]).ok() by {
            assert(areas[i].ok());
        }
        lemma_remaining_order(dl, base, end);
        let r0 = remaining(dl, base, end);
        let ps = pieces(v, base, end);
        let r = r0 + ps;
        assert(remaining(areas, base, end) == r);
        assert forall|k: int| 0 <= k < r0.len() implies (#[trigger] r0[k]).spec_end() <= v.base by {
            assert(dl.last() == areas[areas.len() - 2]);
            assert(r0[k].spec_end() <= dl.last().spec_end());
            assert(areas[areas.len() - 2].spec_end() <= areas[areas.len() - 1].base);
        }
        assert forall|k: int| 0 <= k < ps.len() implies {
            &&& (#[trigger] ps[k]).length > 0
            &&& ps[k].base >= v.base
            &&& ps[k].spec_end() <= v.spec_end()
        } by {}
        assert forall|i: int| 0 <= i < r.len() implies (#[trigger] r[i]).length > 0 by {
            if i < r0.len() {
                assert(r0[i].length > 0);
            } else {
                assert(ps[i - r0.len()].length > 0);
            }
        }
        assert forall|i: int, j: int| 0 <= i < j < r.len() implies (#[trigger] r[i]).spec_end() <= (
        #[trigger] r[j]).base by {
            if j < r0.len() {
                assert(r0[i].spec_end() <= r0[j].base);
            } else if i < r0.len() {
                assert(r0[i].spec_end() <= v.base);
                assert(ps[j - r0.len()].base >= v.base);
            } else {
                assert(r[i] == ps[i - r0.len()]);
                assert(r[j] == ps[j - r0.len()]);
            }
        }
        assert forall|k: int| 0 <= k < r.len() implies (#[trigger] r[k]).spec_end()
            <= v.spec_end() by {
            if k < r0.len() {
                assert(r0[k].spec_end() <= v.base);
            } else {
                assert(ps[k - r0.len()].spec_end() <= v.spec_end());
            }
        }
    }
}

/// Taking a range out keeps the areas in order and apart.
pub proof fn law_remove_keeps_order(areas: Seq<VmArea>, base: int, end: int)
    requires
        areas_ok(areas),
        sorted(areas),
        0 <= base <= end <= u64::MAX,
    ensures
        sorted(remaining(areas, base, end)),
{
    lemma_remaining_order(areas, base, end);
}

/// Whether some area holds the address `a`.
pub open spec fn covered(areas: Seq<VmArea>, a: int) -> bool {
    exists|i: int| 0 <= i < areas.len() && (#[trigger] areas[i]).has(a)
}

proof fn lemma_covered_concat(x: Seq<VmArea>, y: Seq<VmArea>, a: int)
    ensures
        covered(x + y, a) == (covered(x, a) || covered(y, a)),
{
    let z = x + y;
    if covered(x, a) {
        let i = choose|i: int| 0 <= i < x.len() && (#[trigger] x[i]).has(a);
        assert(z[i].has(a));
    }
    if covered(y, a) {
        let i = choose|i: int| 0 <= i < y.len() && (#[trigger] y[i]).has(a);
        assert(z[i + x.len()].has(a));
    }
    if covered(z, a) {
        let i = choose|i: int| 0 <= i < z.len() && (#[trigger] z[i]).has(a);
        if i < x.len() {
            assert(x[i].has(a));
        } else {
            assert(y[i - x.len()].has(a));
        }
    }
}

/// Taking a range out removes its addresses and no others.
pub proof fn law_remove_takes_exactly_the_range(
    areas: Seq<VmArea>,
    base: int,
    end: int,
    a: int,
)
    requires
        areas_ok(areas),
        0 <= base <= end <= u64::MAX,
    ensures
        covered(remaining(areas, base, end), a) <==> covered(areas, a) && !(base <= a < end),
    decreases areas.len(),
{
    if areas.len() > 0 {
        let dl = areas.drop_last();
        let v = areas.last();
        assert(v == areas[areas.len() - 1]);
        assert(v.ok());
        assert forall|i: int| 0 <= i < dl.len() implies (#[trigger] dl[i]).ok() by {
            assert(areas[i].ok());
        }
        law_remove_takes_exactly_the_range(dl, base, end, a);
        let ps = pieces(v, base, end);
        lemma_covered_concat(remaining(dl, base, end), ps, a);
        assert(areas =~= dl + seq![v]);
        lemma_covered_concat(dl, seq![v], a);
        assert(covered(seq![v], a) == v.has(a)) by {
            assert(seq![v][0].has(a) == v.has(a));
        }
        assert(covered(ps, a) <==> v.has(a) && !(base <= a < end)) by {
            if v.has(a) && !(base <= a < end) {
                if ps.len() == 1 {
                    assert(ps[0].has(a));
                } else {
                    assert(ps[0].has(a) || ps[1].has(a));
                }
            }
        }
    }
}

/// Every piece of a file-backed area maps each address to the place in the file where
/// the whole area mapped it.
pub proof fn law_pieces_keep_file_positions(v: VmArea, base: int, end: int, k: int)
    requires
        v.ok(),
        0 <= base <= end <= u64::MAX,
        v.backing is File,
        0 <= k < pieces(v, base, end).len(),
    ensures
        ({
            let p = pieces(v, base, end)[k];
            &&& file_of(p) == file_of(v)
            &&& p.backing is File
            &&& p.backing->File_offset - p.base == v.backing->File_offset - v.base
            &&& p.backing->File_elf_load_delta == v.backing->File_elf_load_delta
        }),
{
}

/// Number of areas that map the file `k`.
pub open spec fn mappings(areas: Seq<VmArea>, k: InodeKey) -> nat
    decreases areas.len(),
{
    if areas.len() == 0 {
        0
    } else {
        mappings(areas.drop_last(), k) + if file_of(areas.last()) == Some(k) {
            1nat
        } else {
            0
        }
    }
}

proof fn lemma_mappings_concat(x: Seq<VmArea>, y: Seq<VmArea>, k: InodeKey)
    ensures
        mappings(x + y, k) == mappings(x, k) + mappings(y, k),
    decreases y.len(),
{
    if y.len() == 0 {
        assert(x + y =~= x);
    } else {
        lemma_mappings_concat(x, y.drop_last(), k);
        assert((x + y).drop_last() =~= x + y.drop_last());
        assert((x + y).last() == y.last());
    }
}

proof fn lemma_times_concat(x: Seq<PinOp>, y: Seq<PinOp>, op: PinOp)
    ensures
        times(x + y, op) == times(x, op) + times(y, op),
    decreases y.len(),
{
    if y.len() == 0 {
        assert(x + y =~= x);
    } else {
        lemma_times_concat(x, y.drop_last(), op);
        assert((x + y).drop_last() =~= x + y.drop_last());
        assert((x + y).last() == y.last());
    }
}

/// The references that the pieces of an area take and give up, and the mappings they are.
proof fn lemma_area_balance(v: VmArea, base: int, end: int, k: InodeKey)
    ensures
        ({
            let ops = ops_of(v, base, end);
            let ps = pieces(v, base, end);
            let one: nat = if file_of(v) == Some(k) {
                1
            } else {
                0
            };
            &&& mappings(ps, k) == one * ps.len()
            &&& times(ops, PinOp::Take(k)) - times(ops, PinOp::Drop(k)) == mappings(ps, k) - one
            &&& times(ops, PinOp::Drop(k)) <= one
        }),
{
    let ops = ops_of(v, base, end);
    let ps = pieces(v, base, end);
    reveal_with_fuel(mappings, 3);
    assert(ps.len() <= 2);
    if ps.len() == 1 {
        assert(ps.drop_last() =~= Seq::empty());
    } else if ps.len() == 2 {
        assert(ps.drop_last() =~= seq![ps[0]]);
        assert(seq![ps[0]].drop_last() =~= Seq::empty());
    }
    if let Some(j) = file_of(v) {
        if v.meets(base, end) {
            reveal_with_fuel(times, 4);
            if ps.len() == 0 {
                assert(ops.drop_last() =~= Seq::empty());
            } else if ps.len() == 1 {
                assert(ops.drop_last() =~= seq![PinOp::Drop(j)]);
                assert(ops.drop_last().drop_last() =~= Seq::empty());
            } else {
                assert(ops.drop_last() =~= seq![PinOp::Drop(j), PinOp::Take(j)]);
                assert(ops.drop_last().drop_last() =~= seq![PinOp::Drop(j)]);
                assert(ops.drop_last().drop_last().drop_last() =~= Seq::empty());
            }
        }
    }
}

/// Taking a range out takes and gives up references to a file in balance with its mappings:
/// the references taken less those given up are the mappings after less those before.
pub proof fn law_removal_balances_references(
    areas: Seq<VmArea>,
    base: int,
    end: int,
    k: InodeKey,
)
    ensures
        ({
            let ops = removal_ops(areas, base, end);
            times(ops, PinOp::Take(k)) - times(ops, PinOp::Drop(k)) == mappings(
                remaining(areas, base, end),
                k,
            ) - mappings(areas, k)
        }),
    decreases areas.len(),
{
    if areas.len() > 0 {
        let dl = areas.drop_last();
        let v = areas.last();
        let (x, y) = (removal_ops(dl, base, end), ops_of(v, base, end));
        law_removal_balances_references(dl, base, end, k);
        lemma_area_balance(v, base, end, k);
        lemma_times_concat(x, y, PinOp::Take(k));
        lemma_times_concat(x, y, PinOp::Drop(k));
        lemma_mappings_concat(remaining(dl, base, end), pieces(v, base, end), k);
    }
}

/// Where every file-backed area held a reference to its file, taking a range out leaves
/// one reference for each area that is left: the references change by as much as the
/// mappings do.
pub proof fn law_references_follow_mappings(
    pins: Multiset<InodeKey>,
    areas: Seq<VmArea>,
    base: int,
    end: int,
    k: InodeKey,
)
    requires
        mappings(areas, k) <= pins.count(k),
    ensures
        after_ops(pins, removal_ops(areas, base, end)).count(k) == pins.count(k) - mappings(
            areas,
            k,
        ) + mappings(remaining(areas, base, end), k),
    decreases areas.len(),
{
    broadcast use vstd::multiset::group_multiset_axioms;

    if areas.len() > 0 {
        let dl = areas.drop_last();
        let v = areas.last();
        let ps = pieces(v, base, end);
        law_references_follow_mappings(pins, dl, base, end, k);
        let ops = removal_ops(dl, base, end);
        let p = after_ops(pins, ops);
        lemma_ops_concat(pins, ops, ops_of(v, base, end));
        lemma_area_ops(p, v, base, end);
        lemma_area_balance(v, base, end, k);
        lemma_mappings_concat(remaining(dl, base, end), ps, k);
        assert(ps.len() <= 2);
    }
}

/// In ordered areas an address lies in one area at most.
pub proof fn law_address_lies_in_one_area(areas: Seq<VmArea>, a: int, i: int, j: int)
    requires
        sorted(areas),
        0 <= i < areas.len(),
        0 <= j < areas.len(),
        areas[i].has(a),
        areas[j].has(a),
    ensures
        i == j,
{
    if i < j {
        assert(areas[i].spec_end() <= areas[j].base);
    } else if j < i {
        assert(areas[j].spec_end() <= areas[i].base);
    }
}

/// A range that the search found and that is then filled overlaps no area: adding the
/// area cannot fail.
pub proof fn law_found_range_is_free(areas: Seq<VmArea>, candidate: int, size: int, steps: nat)
    requires
        walk_down(areas, candidate, size, steps) is Some,
    ensures
        ({
            let b = walk_down(areas, candidate, size, steps)->0;
            &&& !hits(areas, b, b + size)
            &&& b >= 0x1000
        }),
    decreases steps,
{
    let base = candidate - size;
    if !hits(areas, base, candidate) {
        if base < 0x1000 {
            law_found_range_is_free(areas, base, size, (steps - 1) as nat);
        }
    } else {
        law_found_range_is_free(
            areas,
            areas[last_hit(areas, base, candidate)].base as int,
            size,
            (steps - 1) as nat,
        );
    }
}

} // verus!
