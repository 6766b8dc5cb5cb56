//! Physical and virtual memory management for a multi-level paged machine:
//! address types, a bootstrap bump allocator, a buddy-style frame allocator
//! with in-band per-page usage metadata, a multi-level page-table walker and
//! mapper, TLB flush obligation tokens, and a software-emulated machine
//! backend for exercising the whole stack on a host.

use vstd::prelude::*;

mod arch;
mod buddy;
mod bump;
mod emulate;
mod flush;
mod frame;
mod mapper;
mod table;

pub use arch::Arch;
pub use arch::ENTRY_ADDRESS_MASK;
pub use arch::ENTRY_FLAGS_MASK;
pub use arch::ENTRY_FLAG_GLOBAL;
pub use arch::ENTRY_FLAG_HUGE;
pub use arch::ENTRY_FLAG_NO_EXEC;
pub use arch::ENTRY_FLAG_PRESENT;
pub use arch::ENTRY_FLAG_USER;
pub use arch::ENTRY_FLAG_WRITABLE;
pub use arch::PAGE_ADDRESS_MASK;
pub use arch::PAGE_ENTRIES;
pub use arch::PAGE_ENTRY_MASK;
pub use arch::PAGE_ENTRY_SHIFT;
pub use arch::PAGE_ENTRY_SIZE;
pub use arch::PAGE_LEVELS;
pub use arch::PAGE_OFFSET_MASK;
pub use arch::PAGE_SHIFT;
pub use arch::PAGE_SIZE;
pub use arch::PHYS_LIMIT;
pub use arch::PHYS_OFFSET;
pub use arch::phys_to_virt;
pub use arch::cache_is_walk;
pub use arch::translate_walk;
pub use buddy::BUDDY_ENTRIES;
pub use buddy::BuddyAllocator;
pub use buddy::BuddyEntry;
pub use buddy::buddy_fit;
pub use buddy::count_ones;
pub use buddy::entry_cleared;
pub use buddy::entry_fresh;
pub use buddy::entry_marked;
pub use buddy::entry_of;
pub use buddy::fit_from;
pub use buddy::in_entries;
pub use buddy::lemma_adjacent_regions_coalesce;
pub use buddy::lemma_alloc_post_props;
pub use buddy::lemma_allocate_free_round_trip;
pub use buddy::lemma_free_post_props;
pub use buddy::lemma_metadata_self_consistency;
pub use buddy::lemma_no_double_allocation;
pub use buddy::lemma_usage_bounds;
pub use buddy::remainders;
pub use buddy::run_free;
pub use buddy::runs_of;
pub use buddy::runs_seq;
pub use buddy::sum_pages;
pub use buddy::sum_used;
pub use bump::BumpAllocator;
pub use bump::bump_find;
pub use bump::in_areas;
pub use bump::pool_of;
pub use bump::pos_of;
pub use emulate::BOOT_WINDOW;
pub use emulate::EMULATE_MEMORY_SIZE;
pub use emulate::EmulateArch;
pub use emulate::Machine;
pub use flush::PageFlush;
pub use flush::PageFlushAll;
pub use frame::FrameAllocator;
pub use frame::FrameCount;
pub use frame::FrameUsage;
pub use mapper::PageMapper;
pub use mapper::frame_usable;
pub use mapper::path_distinct;
pub use mapper::path_e0;
pub use mapper::path_e1;
pub use mapper::path_e2;
pub use mapper::path_e3;
pub use mapper::path_f0;
pub use mapper::path_f1;
pub use mapper::path_f2;
pub use mapper::path_i0;
pub use mapper::walk_ready;
pub use table::PageEntry;
pub use table::PageTable;
pub use table::lemma_index_of_entry_base;

verus! {

pub const KILO_BYTE: u64 = 1024;

pub const MEGA_BYTE: u64 = KILO_BYTE * KILO_BYTE;

pub const GIGA_BYTE: u64 = MEGA_BYTE * KILO_BYTE;

pub const TERA_BYTE: u64 = GIGA_BYTE * KILO_BYTE;

/// A physical memory address: a transparent wrapper over a machine-word
/// offset into physical space. Existence implies no validity; validity is
/// established only by a successful allocator or table lookup.
#[derive(Clone, Copy, Debug, PartialEq, Eq, Structural, PartialOrd, Ord)]
pub struct PhysicalAddress(u64);

impl PhysicalAddress {
    /// The raw offset, for use in contracts.
    pub closed spec fn spec_data(self) -> u64 {
        self.0
    }

    pub fn new(address: u64) -> (r: Self)
        ensures
            r.spec_data() == address,
    {
        PhysicalAddress(address)
    }

    pub fn data(&self) -> (r: u64)
        ensures
            r == self.spec_data(),
    {
        self.0
    }

    pub fn add(self, offset: u64) -> (r: Self)
        requires
            self.spec_data() + offset <= u64::MAX,
        ensures
            r.spec_data() == self.spec_data() + offset,
    {
        PhysicalAddress(self.0 + offset)
    }

    /// Spec-level constructor, for contracts that need to name an address.
    pub closed spec fn spec_new(address: u64) -> PhysicalAddress {
        PhysicalAddress(address)
    }
}

pub broadcast proof fn lemma_phys_spec_new(address: u64)
    ensures
        (#[trigger] PhysicalAddress::spec_new(address)).spec_data() == address,
{
}

/// Two physical addresses with the same offset are the same address.
pub proof fn lemma_addresses_equal(a: PhysicalAddress, b: PhysicalAddress)
    requires
        a.spec_data() == b.spec_data(),
    ensures
        a == b,
{
}

/// A virtual memory address: a transparent wrapper over a machine-word
/// offset into some address space.
#[derive(Clone, Copy, Debug, PartialEq, Eq, Structural, PartialOrd, Ord)]
pub struct VirtualAddress(u64);

impl VirtualAddress {
    /// The raw offset, for use in contracts.
    pub closed spec fn spec_data(self) -> u64 {
        self.0
    }

    pub fn new(address: u64) -> (r: Self)
        ensures
            r.spec_data() == address,
    {
        VirtualAddress(address)
    }

    pub fn data(&self) -> (r: u64)
        ensures
            r == self.spec_data(),
    {
        self.0
    }

    pub fn add(self, offset: u64) -> (r: Self)
        requires
            self.spec_data() + offset <= u64::MAX,
        ensures
            r.spec_data() == self.spec_data() + offset,
    {
        VirtualAddress(self.0 + offset)
    }
}

/// One maximal contiguous range of usable physical memory, as reported by
/// firmware or architecture bring-up.
#[derive(Clone, Copy, Debug)]
pub struct MemoryArea {
    pub base: PhysicalAddress,
    pub size: u64,
}

impl MemoryArea {
    /// One past the last physical offset of the area.
    pub open spec fn spec_end(self) -> int {
        self.base.spec_data() + self.size
    }
}

/// Well-formedness of a firmware-reported region list: every area is
/// non-empty, page-aligned, of page-multiple size, lies below the
/// direct-mappable limit, and the areas are sorted and pairwise disjoint
/// (adjacency is allowed). Bring-up owns this normalization: a backend
/// whose firmware reports an unsorted map, or one with a partial page at
/// a boundary, must sort it and trim to page granularity before
/// reporting it, as `Arch::init` promises.
pub open spec fn areas_wf(areas: Seq<MemoryArea>) -> bool {
    forall|i: int|
        0 <= i < areas.len() ==> {
            &&& (#[trigger] areas[i]).size > 0
            &&& areas[i].size % PAGE_SIZE == 0
            &&& areas[i].base.spec_data() % PAGE_SIZE == 0
            &&& areas[i].spec_end() <= PHYS_LIMIT
            &&& (i + 1 < areas.len() ==> areas[i].spec_end() <= areas[i + 1].base.spec_data())
        }
}

/// The total number of bytes covered by the first `n` areas of a list.
pub open spec fn areas_prefix_size(areas: Seq<MemoryArea>, n: int) -> int
    decreases n,
{
    if n <= 0 {
        0
    } else {
        areas_prefix_size(areas, n - 1) + areas[n - 1].size
    }
}

/// The total number of bytes covered by a region list.
pub open spec fn areas_total_size(areas: Seq<MemoryArea>) -> int {
    areas_prefix_size(areas, areas.len() as int)
}

} // verus!
