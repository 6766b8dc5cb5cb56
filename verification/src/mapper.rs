//! The mutating table walker: creates and destroys mappings in a
//! multi-level table, materializing missing intermediate levels from a
//! supplied frame allocator. Every mutation leaves the translation cache
//! untouched and hands back a flush token: the new state of the table is
//! not visible through the translation path until the token is
//! discharged. After mutating, each operation re-walks the table
//! read-only and reports success only once the in-memory table
//! demonstrably holds the requested state; success is owed whenever the
//! walked path already exists, is reachable through the direct mapping,
//! and visits pairwise distinct frames.

use vstd::prelude::*;

use crate::PhysicalAddress;
use crate::VirtualAddress;
use crate::arch::Arch;
use crate::arch::ENTRY_FLAG_PRESENT;
use crate::arch::ENTRY_FLAG_WRITABLE;
use crate::arch::PAGE_ADDRESS_MASK;
use crate::arch::PAGE_ADDRESS_SIZE;
use crate::arch::PAGE_ENTRIES;
use crate::arch::PAGE_ENTRY_SIZE;
use crate::arch::PAGE_SIZE;
use crate::arch::PHYS_LIMIT;
use crate::arch::direct_mapped_rw;
use crate::arch::entry_address;
use crate::arch::entry_present;
use crate::arch::lemma_direct_mapped_access;
use crate::arch::lemma_level_entry_span_pos;
use crate::arch::lemma_page_mask;
use crate::arch::level_entry_span;
use crate::arch::level_span;
use crate::arch::phys_to_virt;
use crate::arch::seq_update_range;
use crate::arch::translate_walk;
use crate::arch::walk_entry;
use crate::arch::word_at;
use crate::flush::PageFlush;
use crate::frame::FrameAllocator;
use crate::frame::FrameCount;

verus! {

broadcast use crate::lemma_phys_spec_new;

use vstd::bytes::spec_u64_to_le_bytes;

/// Whether `frame` can be read and written through the direct mapping
/// and lies within the backend's memory: the condition under which the
/// walker may touch it.
pub open spec fn frame_usable<A: Arch>(arch: &A, frame: u64) -> bool {
    &&& direct_mapped_rw(arch.cache(), frame)
    &&& frame + PAGE_SIZE <= arch.mem().len()
}

/// The raw entry that governs the relative offset `vrel` in the table
/// frame `frame` whose entries each span `span` bytes.
pub open spec fn path_entry(mem: Seq<u8>, frame: u64, span: int, vrel: int) -> u64 {
    word_at(mem, frame + vrel / span * (PAGE_ENTRY_SIZE as int))
}

/// The entries and frames that a walk for the page `vmask` visits, level
/// by level: entry `e3` of the top table leads to frame `f2`, and so on
/// down to the leaf table `f0` whose entry `e0` decides the translation.
pub open spec fn path_e3(mem: Seq<u8>, table: u64, vmask: u64) -> u64 {
    path_entry(mem, table, level_entry_span(3), vmask as int)
}

pub open spec fn path_f2(mem: Seq<u8>, table: u64, vmask: u64) -> u64 {
    entry_address(path_e3(mem, table, vmask))
}

pub open spec fn path_v2(vmask: u64) -> int {
    vmask as int % level_entry_span(3)
}

pub open spec fn path_e2(mem: Seq<u8>, table: u64, vmask: u64) -> u64 {
    path_entry(mem, path_f2(mem, table, vmask), level_entry_span(2), path_v2(vmask))
}

pub open spec fn path_f1(mem: Seq<u8>, table: u64, vmask: u64) -> u64 {
    entry_address(path_e2(mem, table, vmask))
}

pub open spec fn path_v1(vmask: u64) -> int {
    path_v2(vmask) % level_entry_span(2)
}

pub open spec fn path_e1(mem: Seq<u8>, table: u64, vmask: u64) -> u64 {
    path_entry(mem, path_f1(mem, table, vmask), level_entry_span(1), path_v1(vmask))
}

pub open spec fn path_f0(mem: Seq<u8>, table: u64, vmask: u64) -> u64 {
    entry_address(path_e1(mem, table, vmask))
}

pub open spec fn path_v0(vmask: u64) -> int {
    path_v1(vmask) % level_entry_span(1)
}

pub open spec fn path_i0(vmask: u64) -> int {
    path_v0(vmask) / (PAGE_SIZE as int)
}

pub open spec fn path_e0(mem: Seq<u8>, table: u64, vmask: u64) -> u64 {
    path_entry(mem, path_f0(mem, table, vmask), level_entry_span(0), path_v0(vmask))
}

/// The whole path from the top table down to the leaf table already
/// exists and every frame on it is reachable through the direct mapping:
/// under this condition (plus distinctness) the walker's outcome is
/// fully determined and success is owed.
pub open spec fn walk_ready<A: Arch>(arch: &A, table: u64, vmask: u64) -> bool {
    let m = arch.mem();
    &&& frame_usable(arch, table)
    &&& entry_present(path_e3(m, table, vmask))
    &&& frame_usable(arch, path_f2(m, table, vmask))
    &&& entry_present(path_e2(m, table, vmask))
    &&& frame_usable(arch, path_f1(m, table, vmask))
    &&& entry_present(path_e1(m, table, vmask))
    &&& frame_usable(arch, path_f0(m, table, vmask))
}

/// The four frames the walk visits are pairwise distinct, so a write
/// into the leaf table cannot disturb the path that reaches it.
pub open spec fn path_distinct(mem: Seq<u8>, table: u64, vmask: u64) -> bool {
    let f2 = path_f2(mem, table, vmask);
    let f1 = path_f1(mem, table, vmask);
    let f0 = path_f0(mem, table, vmask);
    &&& table != f2
    &&& table != f1
    &&& table != f0
    &&& f2 != f1
    &&& f2 != f0
    &&& f1 != f0
}

/// Two distinct page-aligned frames occupy disjoint pages.
proof fn lemma_frames_disjoint(a: u64, b: u64)
    requires
        a % PAGE_SIZE == 0,
        b % PAGE_SIZE == 0,
        a != b,
    ensures
        a + PAGE_SIZE <= b || b + PAGE_SIZE <= a,
{
    let qa = a as int / (PAGE_SIZE as int);
    let qb = b as int / (PAGE_SIZE as int);
    vstd::arithmetic::div_mod::lemma_fundamental_div_mod(a as int, PAGE_SIZE as int);
    vstd::arithmetic::div_mod::lemma_fundamental_div_mod(b as int, PAGE_SIZE as int);
    assert(a + PAGE_SIZE <= b || b + PAGE_SIZE <= a) by (nonlinear_arith)
        requires
            a == (PAGE_SIZE as int) * qa,
            b == (PAGE_SIZE as int) * qb,
            a != b,
            PAGE_SIZE == 0x1000,
    {}
}

/// The remainder of a page-aligned offset by a page-multiple span is
/// page-aligned and within the span.
proof fn lemma_rest_aligned(vrel: int, span: int)
    requires
        0 <= vrel,
        0 < span,
        vrel % (PAGE_SIZE as int) == 0,
        span % (PAGE_SIZE as int) == 0,
    ensures
        (vrel % span) % (PAGE_SIZE as int) == 0,
        0 <= vrel % span < span,
{
    let k = span / (PAGE_SIZE as int);
    let q = vrel / span;
    vstd::arithmetic::div_mod::lemma_fundamental_div_mod(vrel, span);
    assert(span == (PAGE_SIZE as int) * k) by (nonlinear_arith)
        requires
            span % (PAGE_SIZE as int) == 0,
            k == span / (PAGE_SIZE as int),
            span > 0,
            PAGE_SIZE == 0x1000,
    {}
    assert(span * q == (PAGE_SIZE as int) * (k * q)) by (nonlinear_arith)
        requires
            span == (PAGE_SIZE as int) * k,
    {}
    vstd::arithmetic::div_mod::lemma_mod_multiples_basic(k * q, PAGE_SIZE as int);
    assert((vrel % span) % (PAGE_SIZE as int) == 0) by (nonlinear_arith)
        requires
            vrel % span == vrel - span * q,
            vrel % (PAGE_SIZE as int) == 0,
            ((PAGE_SIZE as int) * (k * q)) % (PAGE_SIZE as int) == 0,
            span * q == (PAGE_SIZE as int) * (k * q),
            PAGE_SIZE == 0x1000,
    {}
}

/// Runtime check for `frame_usable`: true exactly when the frame is
/// page-aligned, below the direct-map limit, inside memory, and the
/// direct mapping currently translates it read-write.
fn check_frame<A: Arch>(arch: &A, frame: u64) -> (r: bool)
    ensures
        r <==> frame_usable(arch, frame),
{
    if frame % PAGE_SIZE != 0 || frame >= PHYS_LIMIT {
        return false;
    }
    let ms = arch.mem_size();
    if ms < PAGE_SIZE || frame > ms - PAGE_SIZE {
        return false;
    }
    match arch.translate(phys_to_virt(PhysicalAddress::new(frame))) {
        Some((p, flags)) => {
            proof {
                crate::arch::lemma_direct_map_offset(frame, 0);
                let e = crate::arch::cached_entry(
                    arch.cache(),
                    crate::arch::spec_phys_to_virt(frame),
                );
                assert(((e & 0xFFFF_0000_0000_0FFFu64) & 0x2u64 != 0) == (e & 0x2u64 != 0))
                    by (bit_vector);
            }
            p.data() == frame && flags & ENTRY_FLAG_WRITABLE != 0
        },
        None => false,
    }
}

/// Reads the raw word of slot `idx` of the table frame at `frame`.
fn read_slot<A: Arch>(arch: &A, frame: u64, idx: u64) -> (r: u64)
    requires
        frame_usable(arch, frame),
        idx < PAGE_ENTRIES,
    ensures
        r == word_at(arch.mem(), frame + idx * PAGE_ENTRY_SIZE),
{
    proof {
        lemma_direct_mapped_access(arch.cache(), frame, (idx * PAGE_ENTRY_SIZE) as u64);
    }
    arch.read_word(phys_to_virt(PhysicalAddress::new(frame)).add(idx * PAGE_ENTRY_SIZE))
}

/// Writes the raw word of slot `idx` of the table frame at `frame`. The
/// write changes exactly those eight bytes of memory; no cached
/// translation moves.
fn write_slot<A: Arch>(arch: &mut A, frame: u64, idx: u64, word: u64)
    requires
        frame_usable(&*old(arch), frame),
        idx < PAGE_ENTRIES,
    ensures
        final(arch).mem() == seq_update_range(
            old(arch).mem(),
            frame + idx * PAGE_ENTRY_SIZE,
            spec_u64_to_le_bytes(word),
        ),
        final(arch).mem().len() == old(arch).mem().len(),
        final(arch).cache() == old(arch).cache(),
        final(arch).table_root() == old(arch).table_root(),
{
    proof {
        lemma_direct_mapped_access(old(arch).cache(), frame, (idx * PAGE_ENTRY_SIZE) as u64);
    }
    arch.write_word(phys_to_virt(PhysicalAddress::new(frame)).add(idx * PAGE_ENTRY_SIZE), word);
}

/// One read-only descent step: decodes the entry governing `vrel` at
/// this level and reports the child frame exactly when the entry is
/// present and the child is reachable.
#[verifier::rlimit(100)]
fn lookup_step<A: Arch>(arch: &A, frame: u64, level: u64, vrel: u64) -> (r: Option<(u64, u64)>)
    requires
        frame_usable(arch, frame),
        1 <= level <= 3,
        vrel < PAGE_ENTRIES * level_entry_span(level as nat),
        vrel % PAGE_SIZE == 0,
    ensures
        ({
            let e = path_entry(arch.mem(), frame, level_entry_span(level as nat), vrel as int);
            let rest = vrel as int % level_entry_span(level as nat);
            &&& (r is Some <==> entry_present(e) && frame_usable(arch, entry_address(e)))
            &&& r matches Some(t) ==> t.0 == entry_address(e) && t.1 == rest && t.1
                < PAGE_ENTRIES * level_entry_span((level - 1) as nat) && t.1 % PAGE_SIZE == 0
            &&& walk_entry(arch.mem(), frame as int, level as nat, vrel as int) == (
            if entry_present(e) {
                walk_entry(arch.mem(), entry_address(e) as int, (level - 1) as nat, rest)
            } else {
                None
            })
        }),
{
    let span = level_span(level);
    let idx = vrel / span;
    proof {
        lemma_level_entry_span_pos(level as nat);
        lemma_level_entry_span_pos((level - 1) as nat);
        assert(idx < PAGE_ENTRIES && idx * (PAGE_ENTRY_SIZE as int) + 8 <= PAGE_SIZE && idx
            == vrel as int / (span as int)) by (nonlinear_arith)
            requires
                0 <= vrel < PAGE_ENTRIES * span,
                span > 0,
                idx == vrel / span,
                PAGE_ENTRIES == 512,
                PAGE_ENTRY_SIZE == 8,
                PAGE_SIZE == 0x1000,
        {}
        lemma_rest_aligned(vrel as int, span as int);
        assert(PAGE_ENTRIES * level_entry_span((level - 1) as nat) == span as int);
    }
    let w = read_slot(arch, frame, idx);
    proof {
        assert(w == path_entry(arch.mem(), frame, level_entry_span(level as nat), vrel as int));
    }
    if w & ENTRY_FLAG_PRESENT == 0 {
        return None;
    }
    let child = w & 0xFFFF_FFFF_F000;
    proof {
        assert(child == entry_address(w));
    }
    if !check_frame(arch, child) {
        return None;
    }
    let rest = vrel % span;
    Some((child, rest))
}

/// Read-only walk of the table rooted at `table` for the page-aligned
/// virtual base `vmask`: locates the leaf slot governing it. On success
/// the reported leaf word decides the translation exactly; when the
/// whole path is ready the walk cannot fail and lands on exactly the
/// path's leaf slot.
#[verifier::rlimit(100)]
fn walk_lookup<A: Arch>(arch: &A, table: u64, vmask: u64) -> (r: Option<(u64, u64, u64)>)
    requires
        frame_usable(arch, table),
        vmask % PAGE_SIZE == 0,
        vmask < PAGE_ADDRESS_SIZE,
    ensures
        r matches Some(t) ==> {
            &&& t.1 < PAGE_ENTRIES
            &&& frame_usable(arch, t.0)
            &&& t.2 == word_at(arch.mem(), t.0 + t.1 * PAGE_ENTRY_SIZE)
            &&& translate_walk(arch.mem(), table as int, vmask) == (if entry_present(t.2) {
                Some(t.2)
            } else {
                None
            })
        },
        walk_ready(arch, table, vmask) ==> r == Some(
            (
                path_f0(arch.mem(), table, vmask),
                path_i0(vmask) as u64,
                path_e0(arch.mem(), table, vmask),
            ),
        ),
{
    proof {
        lemma_level_entry_span_pos(3);
        lemma_level_entry_span_pos(0);
        assert(PAGE_ENTRIES * level_entry_span(3) == PAGE_ADDRESS_SIZE);
    }
    let (f2, v2) = match lookup_step(arch, table, 3, vmask) {
        None => {
            return None;
        },
        Some(t) => t,
    };
    proof {
        assert(f2 == path_f2(arch.mem(), table, vmask) && v2 as int == path_v2(vmask));
    }
    let (f1, v1) = match lookup_step(arch, f2, 2, v2) {
        None => {
            return None;
        },
        Some(t) => t,
    };
    proof {
        assert(f1 == path_f1(arch.mem(), table, vmask) && v1 as int == path_v1(vmask));
    }
    let (f0, v0) = match lookup_step(arch, f1, 1, v1) {
        None => {
            return None;
        },
        Some(t) => t,
    };
    proof {
        assert(f0 == path_f0(arch.mem(), table, vmask) && v0 as int == path_v0(vmask));
    }
    let idx = v0 / PAGE_SIZE;
    proof {
        assert(idx < PAGE_ENTRIES && idx * (PAGE_ENTRY_SIZE as int) + 8 <= PAGE_SIZE && idx
            == v0 as int / (PAGE_SIZE as int)) by (nonlinear_arith)
            requires
                0 <= v0 < PAGE_ENTRIES * PAGE_SIZE,
                idx == v0 / PAGE_SIZE,
                PAGE_ENTRIES == 512,
                PAGE_ENTRY_SIZE == 8,
                PAGE_SIZE == 0x1000,
        {}
    }
    let w = read_slot(arch, f0, idx);
    proof {
        assert(w == path_e0(arch.mem(), table, vmask));
        assert(idx as int == path_i0(vmask));
        assert(walk_entry(arch.mem(), f0 as int, 0, v0 as int) == (if entry_present(w) {
            Some(w)
        } else {
            None
        }));
    }
    Some((f0, idx, w))
}

/// Descends one level for a mutation: returns the child table frame
/// under slot `idx`, materializing it from the allocator — zero-filled
/// and installed present and writable — when the slot is empty. A
/// present slot is followed without touching anything. Fails when the
/// allocator is exhausted or a frame cannot be reached through the
/// direct mapping; failure changes no memory.
#[verifier::rlimit(100)]
fn ensure_child<A: Arch, F: FrameAllocator>(
    arch: &mut A,
    allocator: &mut F,
    frame: u64,
    idx: u64,
) -> (r: Option<u64>)
    requires
        old(allocator).wf(),
        frame_usable(&*old(arch), frame),
        idx < PAGE_ENTRIES,
    ensures
        final(allocator).wf(),
        final(allocator).pool() == old(allocator).pool(),
        final(allocator).total_count() == old(allocator).total_count(),
        final(arch).cache() == old(arch).cache(),
        final(arch).table_root() == old(arch).table_root(),
        final(arch).mem().len() == old(arch).mem().len(),
        r matches Some(c) ==> frame_usable(&*final(arch), c),
        r is None ==> final(arch).mem() == old(arch).mem(),
        ({
            let e = word_at(old(arch).mem(), frame + idx * PAGE_ENTRY_SIZE);
            &&& (entry_present(e) ==> final(arch).mem() == old(arch).mem() && *final(allocator)
                == *old(allocator) && r == (if frame_usable(&*old(arch), entry_address(e)) {
                Some(entry_address(e))
            } else {
                None
            }))
            &&& (!entry_present(e) ==> (r matches Some(c) ==> {
                &&& c != frame
                &&& word_at(final(arch).mem(), frame + idx * PAGE_ENTRY_SIZE) == (c
                    | ENTRY_FLAG_PRESENT | ENTRY_FLAG_WRITABLE)
                &&& forall|j: int| c <= j < c + PAGE_SIZE ==> final(arch).mem()[j] == 0
                &&& final(allocator).alloc_post(
                    *old(allocator),
                    1,
                    Some(PhysicalAddress::spec_new(c)),
                )
            }))
        }),
{
    proof {
        assert(idx * (PAGE_ENTRY_SIZE as int) + 8 <= PAGE_SIZE) by (nonlinear_arith)
            requires
                0 <= idx < PAGE_ENTRIES,
                PAGE_ENTRIES == 512,
                PAGE_ENTRY_SIZE == 8,
                PAGE_SIZE == 0x1000,
        {}
    }
    let w = read_slot(arch, frame, idx);
    if w & ENTRY_FLAG_PRESENT != 0 {
        let child = w & 0xFFFF_FFFF_F000;
        proof {
            assert(child == entry_address(w));
        }
        if check_frame(arch, child) {
            Some(child)
        } else {
            None
        }
    } else {
        let fresh = match allocator.allocate(FrameCount::new(1)) {
            None => {
                return None;
            },
            Some(p) => p,
        };
        let c = fresh.data();
        if !check_frame(arch, c) {
            return None;
        }
        if c == frame {
            return None;
        }
        let ghost m0 = arch.mem();
        proof {
            lemma_direct_mapped_access(arch.cache(), c, 0);
            crate::arch::lemma_direct_map_offset(c, 0);
        }
        arch.write_bytes(phys_to_virt(PhysicalAddress::new(c)), 0, PAGE_SIZE);
        proof {
            assert(frame_usable(&*arch, frame));
            assert(frame_usable(&*arch, c));
        }
        let ghost m1 = arch.mem();
        write_slot(arch, frame, idx, c | ENTRY_FLAG_PRESENT | ENTRY_FLAG_WRITABLE);
        proof {
            vstd::bytes::lemma_auto_spec_u64_to_from_le_bytes();
            let a = frame + idx * (PAGE_ENTRY_SIZE as int);
            crate::arch::lemma_word_at_update_hit(
                m1,
                a,
                (c | ENTRY_FLAG_PRESENT | ENTRY_FLAG_WRITABLE) as u64,
            );
            lemma_frames_disjoint(c, frame);
            assert forall|j: int| c <= j < c + PAGE_SIZE implies arch.mem()[j] == 0 by {
                assert(!(a <= j < a + 8));
                assert(m1[j] == 0);
            }
            assert(frame_usable(&*arch, c));
            crate::lemma_addresses_equal(fresh, PhysicalAddress::spec_new(c));
        }
        Some(c)
    }
}

/// The mutating walker: the top-level table frame of one address space.
/// `create` builds a fresh space, `current` wraps the active one; the
/// mutating operations take the architecture and a frame allocator for
/// intermediate levels.
pub struct PageMapper {
    table_phys: PhysicalAddress,
}

impl PageMapper {
    /// The top-level table frame, for use in contracts.
    pub closed spec fn spec_table(&self) -> u64 {
        self.table_phys.spec_data()
    }

    /// Builds a brand-new, empty top-level table from one freshly
    /// allocated, zero-filled frame: the address space to construct
    /// before it becomes active. Fails exactly when the allocator is
    /// exhausted or hands out a frame the direct mapping cannot reach.
    pub fn create<A: Arch, F: FrameAllocator>(arch: &mut A, allocator: &mut F) -> (r: Option<
        PageMapper,
    >)
        requires
            old(allocator).wf(),
        ensures
            final(allocator).wf(),
            final(allocator).pool() == old(allocator).pool(),
            final(allocator).total_count() == old(allocator).total_count(),
            final(arch).cache() == old(arch).cache(),
            final(arch).table_root() == old(arch).table_root(),
            final(arch).mem().len() == old(arch).mem().len(),
            r matches Some(m) ==> {
                &&& frame_usable(&*final(arch), m.spec_table())
                &&& final(allocator).alloc_post(
                    *old(allocator),
                    1,
                    Some(PhysicalAddress::spec_new(m.spec_table())),
                )
                &&& forall|j: int|
                    m.spec_table() <= j < m.spec_table() + PAGE_SIZE ==> final(arch).mem()[j] == 0
            },
            r is None ==> final(arch).mem() == old(arch).mem() && (final(allocator).alloc_post(
                *old(allocator),
                1,
                None,
            ) || (exists|p: PhysicalAddress|
                final(allocator).alloc_post(*old(allocator), 1, Some(p)) && !frame_usable(
                    &*final(arch),
                    p.spec_data(),
                ))),
    {
        let frame = match allocator.allocate(FrameCount::new(1)) {
            None => {
                return None;
            },
            Some(p) => p,
        };
        let f = frame.data();
        if !check_frame(arch, f) {
            proof {
                crate::lemma_addresses_equal(frame, PhysicalAddress::spec_new(f));
                assert(final(allocator).alloc_post(*old(allocator), 1, Some(frame)));
            }
            return None;
        }
        proof {
            lemma_direct_mapped_access(arch.cache(), f, 0);
        }
        arch.write_bytes(phys_to_virt(PhysicalAddress::new(f)), 0, PAGE_SIZE);
        proof {
            assert(frame_usable(&*arch, f));
            crate::lemma_addresses_equal(frame, PhysicalAddress::spec_new(f));
        }
        Some(PageMapper { table_phys: frame })
    }

    /// Wraps the architecture's currently active table.
    pub fn current<A: Arch>(arch: &A) -> (r: PageMapper)
        ensures
            r.spec_table() == arch.table_root(),
    {
        PageMapper { table_phys: arch.table() }
    }

    /// The physical frame of this mapper's top-level table.
    pub fn table(&self) -> (r: PhysicalAddress)
        ensures
            r.spec_data() == self.spec_table(),
    {
        self.table_phys
    }

    /// Installs this mapper's table as the architecture's active table,
    /// implicitly invalidating every cached translation.
    pub fn make_current<A: Arch>(&self, arch: &mut A)
        ensures
            final(arch).mem() == old(arch).mem(),
            final(arch).table_root() == self.spec_table(),
            crate::arch::cache_is_walk(
                final(arch).cache(),
                final(arch).mem(),
                self.spec_table() as int,
            ),
    {
        arch.set_table(self.table_phys);
    }

    /// Creates (or overwrites) the mapping of the page of `virt` to the
    /// frame of `physical`, materializing intermediate levels from the
    /// allocator. On success the in-memory table translates the page to
    /// exactly `physical | flags | PRESENT`, no cached translation has
    /// moved, and the returned token owes the flush that will make the
    /// mapping visible. Success is owed whenever the whole path already
    /// exists, is direct-map reachable, and visits distinct frames;
    /// otherwise failure means allocator exhaustion or an unreachable or
    /// degenerate table.
    #[verifier::loop_isolation(false)]
    #[verifier::rlimit(100)]
    pub fn map_phys<A: Arch, F: FrameAllocator>(
        &self,
        arch: &mut A,
        allocator: &mut F,
        virt: VirtualAddress,
        physical: PhysicalAddress,
        flags: u64,
    ) -> (r: Option<PageFlush>)
        requires
            old(allocator).wf(),
        ensures
            final(allocator).wf(),
            final(allocator).pool() == old(allocator).pool(),
            final(arch).cache() == old(arch).cache(),
            final(arch).table_root() == old(arch).table_root(),
            r matches Some(flush) ==> {
                &&& flush.spec_virt() == virt.spec_data()
                &&& translate_walk(
                    final(arch).mem(),
                    self.spec_table() as int,
                    virt.spec_data() & PAGE_ADDRESS_MASK,
                ) == Some((physical.spec_data() | flags | ENTRY_FLAG_PRESENT) as u64)
            },
            walk_ready(
                &*old(arch),
                self.spec_table(),
                virt.spec_data() & PAGE_ADDRESS_MASK,
            ) && path_distinct(
                old(arch).mem(),
                self.spec_table(),
                virt.spec_data() & PAGE_ADDRESS_MASK,
            ) ==> r is Some,
            !frame_usable(&*old(arch), self.spec_table()) ==> r is None && final(arch).mem()
                == old(arch).mem(),
    {
        let vmask = virt.data() & PAGE_ADDRESS_MASK;
        proof {
            lemma_page_mask(virt.spec_data());
            lemma_level_entry_span_pos(3);
            lemma_level_entry_span_pos(2);
            lemma_level_entry_span_pos(1);
            lemma_level_entry_span_pos(0);
            assert(PAGE_ENTRIES * level_entry_span(3) == PAGE_ADDRESS_SIZE);
        }
        let t = self.table_phys.data();
        let ghost ready = walk_ready(&*old(arch), t, vmask) && path_distinct(
            old(arch).mem(),
            t,
            vmask,
        );
        if !check_frame(arch, t) {
            return None;
        }
        let sp3 = level_span(3);
        let i3 = vmask / sp3;
        proof {
            assert(i3 < PAGE_ENTRIES && i3 == vmask as int / (sp3 as int)) by (nonlinear_arith)
                requires
                    0 <= vmask < PAGE_ENTRIES * sp3,
                    sp3 > 0,
                    i3 == vmask / sp3,
                    PAGE_ENTRIES == 512,
            {}
        }
        let f2 = match ensure_child(arch, allocator, t, i3) {
            None => {
                return None;
            },
            Some(c) => c,
        };
        let v2 = vmask % sp3;
        proof {
            lemma_rest_aligned(vmask as int, sp3 as int);
            if ready {
                assert(f2 == path_f2(old(arch).mem(), t, vmask));
                assert(arch.mem() == old(arch).mem());
            }
        }
        let sp2 = level_span(2);
        let i2 = v2 / sp2;
        proof {
            assert(i2 < PAGE_ENTRIES && i2 == v2 as int / (sp2 as int)) by (nonlinear_arith)
                requires
                    0 <= v2 < PAGE_ENTRIES * sp2,
                    sp2 > 0,
                    i2 == v2 / sp2,
                    PAGE_ENTRIES == 512,
            {}
        }
        let f1 = match ensure_child(arch, allocator, f2, i2) {
            None => {
                return None;
            },
            Some(c) => c,
        };
        let v1 = v2 % sp2;
        proof {
            lemma_rest_aligned(v2 as int, sp2 as int);
            if ready {
                assert(f1 == path_f1(old(arch).mem(), t, vmask));
                assert(arch.mem() == old(arch).mem());
            }
        }
        let sp1 = level_span(1);
        let i1 = v1 / sp1;
        proof {
            assert(i1 < PAGE_ENTRIES && i1 == v1 as int / (sp1 as int)) by (nonlinear_arith)
                requires
                    0 <= v1 < PAGE_ENTRIES * sp1,
                    sp1 > 0,
                    i1 == v1 / sp1,
                    PAGE_ENTRIES == 512,
            {}
        }
        let f0 = match ensure_child(arch, allocator, f1, i1) {
            None => {
                return None;
            },
            Some(c) => c,
        };
        let v0 = v1 % sp1;
        proof {
            lemma_rest_aligned(v1 as int, sp1 as int);
            if ready {
                assert(f0 == path_f0(old(arch).mem(), t, vmask));
                assert(arch.mem() == old(arch).mem());
            }
        }
        let i0 = v0 / PAGE_SIZE;
        proof {
            assert(i0 < PAGE_ENTRIES && i0 == v0 as int / (PAGE_SIZE as int)) by (nonlinear_arith)
                requires
                    0 <= v0 < PAGE_ENTRIES * PAGE_SIZE,
                    i0 == v0 / PAGE_SIZE,
                    PAGE_ENTRIES == 512,
                    PAGE_SIZE == 0x1000,
            {}
        }
        let word = physical.data() | flags | ENTRY_FLAG_PRESENT;
        let ghost m0 = arch.mem();
        write_slot(arch, f0, i0, word);
        proof {
            if ready {
                vstd::bytes::lemma_auto_spec_u64_to_from_le_bytes();
                let om = old(arch).mem();
                let nm = arch.mem();
                let a = f0 + i0 * (PAGE_ENTRY_SIZE as int);
                let bytes = spec_u64_to_le_bytes(word);
                crate::arch::lemma_word_at_update_hit(om, a, word);
                lemma_frames_disjoint(t, f0);
                lemma_frames_disjoint(path_f2(om, t, vmask), f0);
                lemma_frames_disjoint(path_f1(om, t, vmask), f0);
                crate::arch::lemma_word_at_update_miss(
                    om,
                    a,
                    bytes,
                    t + (vmask as int / level_entry_span(3)) * (PAGE_ENTRY_SIZE as int),
                );
                crate::arch::lemma_word_at_update_miss(
                    om,
                    a,
                    bytes,
                    path_f2(om, t, vmask) + (path_v2(vmask) / level_entry_span(2)) * (
                    PAGE_ENTRY_SIZE as int),
                );
                crate::arch::lemma_word_at_update_miss(
                    om,
                    a,
                    bytes,
                    path_f1(om, t, vmask) + (path_v1(vmask) / level_entry_span(1)) * (
                    PAGE_ENTRY_SIZE as int),
                );
                assert(path_e3(nm, t, vmask) == path_e3(om, t, vmask));
                assert(path_f2(nm, t, vmask) == path_f2(om, t, vmask));
                assert(path_e2(nm, t, vmask) == path_e2(om, t, vmask));
                assert(path_f1(nm, t, vmask) == path_f1(om, t, vmask));
                assert(path_e1(nm, t, vmask) == path_e1(om, t, vmask));
                assert(path_f0(nm, t, vmask) == path_f0(om, t, vmask));
                assert(path_e0(nm, t, vmask) == word) by {
                    assert(path_v0(vmask) / level_entry_span(0) == i0 as int);
                }
                assert(walk_ready(&*arch, t, vmask));
                let wd = word;
                let pd = physical.spec_data();
                assert(wd & 0x1u64 != 0) by (bit_vector)
                    requires
                        wd == pd | flags | 0x1u64,
                ;
            }
        }
        if !check_frame(arch, t) {
            return None;
        }
        match walk_lookup(arch, t, vmask) {
            Some((_lf, _li, lw)) => {
                if lw == word {
                    proof {
                        let wd = word;
                        let pd = physical.spec_data();
                        assert(wd & 0x1u64 != 0) by (bit_vector)
                            requires
                                wd == pd | flags | 0x1u64,
                        ;
                    }
                    Some(PageFlush::new(virt))
                } else {
                    proof {
                        assert(!ready);
                    }
                    None
                }
            },
            None => {
                proof {
                    assert(!ready);
                }
                None
            },
        }
    }

    /// Allocates a backing frame and maps the page of `virt` to it: the
    /// in-memory table then translates the page to exactly that frame
    /// with the requested flags. Success is owed under the same path
    /// conditions as `map_phys` whenever the allocator cannot fail.
    pub fn map<A: Arch, F: FrameAllocator>(
        &self,
        arch: &mut A,
        allocator: &mut F,
        virt: VirtualAddress,
        flags: u64,
    ) -> (r: Option<PageFlush>)
        requires
            old(allocator).wf(),
        ensures
            final(allocator).wf(),
            final(allocator).pool() == old(allocator).pool(),
            final(arch).cache() == old(arch).cache(),
            final(arch).table_root() == old(arch).table_root(),
            r matches Some(flush) ==> {
                &&& flush.spec_virt() == virt.spec_data()
                &&& exists|mid: F, p: PhysicalAddress|
                    mid.alloc_post(*old(allocator), 1, Some(p)) && translate_walk(
                        final(arch).mem(),
                        self.spec_table() as int,
                        virt.spec_data() & PAGE_ADDRESS_MASK,
                    ) == Some((p.spec_data() | flags | ENTRY_FLAG_PRESENT) as u64)
            },
            walk_ready(
                &*old(arch),
                self.spec_table(),
                virt.spec_data() & PAGE_ADDRESS_MASK,
            ) && path_distinct(
                old(arch).mem(),
                self.spec_table(),
                virt.spec_data() & PAGE_ADDRESS_MASK,
            ) && (forall|s2: F| !s2.alloc_post(*old(allocator), 1, None)) ==> r is Some,
            !frame_usable(&*old(arch), self.spec_table()) ==> r is None && final(arch).mem()
                == old(arch).mem(),
    {
        let physical = match allocator.allocate(FrameCount::new(1)) {
            None => {
                return None;
            },
            Some(p) => p,
        };
        let ghost mid = *allocator;
        let r = self.map_phys(arch, allocator, virt, physical, flags);
        proof {
            if r is Some {
                assert(mid.alloc_post(*old(allocator), 1, Some(physical)) && translate_walk(
                    arch.mem(),
                    self.spec_table() as int,
                    virt.spec_data() & PAGE_ADDRESS_MASK,
                ) == Some((physical.spec_data() | flags | ENTRY_FLAG_PRESENT) as u64));
            }
        }
        r
    }

    /// Removes the mapping of the page of `virt`: clears the governing
    /// leaf slot and returns the physical frame it pointed to, plus the
    /// owed flush token. The frame is not freed — the caller decides its
    /// fate. When no mapping can be removed, memory is left exactly as
    /// it was; success is owed whenever the path exists, is reachable,
    /// visits distinct frames, and the leaf is present.
    #[verifier::rlimit(100)]
    pub fn unmap_phys<A: Arch>(&self, arch: &mut A, virt: VirtualAddress) -> (r: Option<
        (PhysicalAddress, PageFlush),
    >)
        ensures
            final(arch).cache() == old(arch).cache(),
            final(arch).table_root() == old(arch).table_root(),
            final(arch).mem().len() == old(arch).mem().len(),
            r is None ==> final(arch).mem() == old(arch).mem(),
            r matches Some((p, flush)) ==> {
                &&& flush.spec_virt() == virt.spec_data()
                &&& (translate_walk(
                    old(arch).mem(),
                    self.spec_table() as int,
                    virt.spec_data() & PAGE_ADDRESS_MASK,
                ) matches Some(w) && entry_address(w) == p.spec_data())
                &&& translate_walk(
                    final(arch).mem(),
                    self.spec_table() as int,
                    virt.spec_data() & PAGE_ADDRESS_MASK,
                ) is None
            },
            walk_ready(
                &*old(arch),
                self.spec_table(),
                virt.spec_data() & PAGE_ADDRESS_MASK,
            ) && path_distinct(
                old(arch).mem(),
                self.spec_table(),
                virt.spec_data() & PAGE_ADDRESS_MASK,
            ) && entry_present(
                path_e0(old(arch).mem(), self.spec_table(), virt.spec_data() & PAGE_ADDRESS_MASK),
            ) ==> r is Some,
            !frame_usable(&*old(arch), self.spec_table()) ==> r is None,
    {
        let vmask = virt.data() & PAGE_ADDRESS_MASK;
        proof {
            lemma_page_mask(virt.spec_data());
            lemma_level_entry_span_pos(3);
            lemma_level_entry_span_pos(2);
            lemma_level_entry_span_pos(1);
            lemma_level_entry_span_pos(0);
            assert(PAGE_ENTRIES * level_entry_span(3) == PAGE_ADDRESS_SIZE);
        }
        let t = self.table_phys.data();
        let ghost ready = walk_ready(&*old(arch), t, vmask) && path_distinct(
            old(arch).mem(),
            t,
            vmask,
        ) && entry_present(path_e0(old(arch).mem(), t, vmask));
        if !check_frame(arch, t) {
            return None;
        }
        let (lf, li, lw) = match walk_lookup(arch, t, vmask) {
            None => {
                return None;
            },
            Some(x) => x,
        };
        if lw & ENTRY_FLAG_PRESENT == 0 {
            proof {
                assert(!ready);
            }
            return None;
        }
        let ghost m0 = arch.mem();
        write_slot(arch, lf, li, 0);
        proof {
            vstd::bytes::lemma_auto_spec_u64_to_from_le_bytes();
            assert(frame_usable(&*arch, t));
            if ready {
                let om = m0;
                let nm = arch.mem();
                let a = lf + li * (PAGE_ENTRY_SIZE as int);
                let bytes = spec_u64_to_le_bytes(0);
                crate::arch::lemma_word_at_update_hit(om, a, 0);
                lemma_frames_disjoint(t, lf);
                lemma_frames_disjoint(path_f2(om, t, vmask), lf);
                lemma_frames_disjoint(path_f1(om, t, vmask), lf);
                crate::arch::lemma_word_at_update_miss(
                    om,
                    a,
                    bytes,
                    t + (vmask as int / level_entry_span(3)) * (PAGE_ENTRY_SIZE as int),
                );
                crate::arch::lemma_word_at_update_miss(
                    om,
                    a,
                    bytes,
                    path_f2(om, t, vmask) + (path_v2(vmask) / level_entry_span(2)) * (
                    PAGE_ENTRY_SIZE as int),
                );
                crate::arch::lemma_word_at_update_miss(
                    om,
                    a,
                    bytes,
                    path_f1(om, t, vmask) + (path_v1(vmask) / level_entry_span(1)) * (
                    PAGE_ENTRY_SIZE as int),
                );
                assert(path_f2(nm, t, vmask) == path_f2(om, t, vmask));
                assert(path_f1(nm, t, vmask) == path_f1(om, t, vmask));
                assert(path_f0(nm, t, vmask) == path_f0(om, t, vmask));
                assert(path_e0(nm, t, vmask) == 0u64) by {
                    assert(path_v0(vmask) / level_entry_span(0) == li as int);
                }
                assert(walk_ready(&*arch, t, vmask));
                assert(0u64 & 0x1u64 == 0) by (bit_vector);
            }
        }
        match walk_lookup(arch, t, vmask) {
            Some((_f2x, _i2x, lw2)) => {
                if lw2 & ENTRY_FLAG_PRESENT == 0 {
                    let addr = lw & 0xFFFF_FFFF_F000;
                    proof {
                        assert(addr == entry_address(lw));
                    }
                    Some((PhysicalAddress::new(addr), PageFlush::new(virt)))
                } else {
                    proof {
                        assert(0u64 & 0x1u64 == 0) by (bit_vector);
                        assert(!ready);
                    }
                    write_slot_undo(arch, lf, li, lw, Ghost(m0));
                    None
                }
            },
            None => {
                proof {
                    assert(!ready);
                }
                write_slot_undo(arch, lf, li, lw, Ghost(m0));
                None
            },
        }
    }
}

/// Restores the slot that `unmap_phys` cleared when the post-clear
/// re-walk could not confirm the removal: memory returns to exactly the
/// state before the clear, so a failed unmap mutates nothing.
fn write_slot_undo<A: Arch>(arch: &mut A, frame: u64, idx: u64, word: u64, m0: Ghost<Seq<u8>>)
    requires
        frame_usable(&*old(arch), frame),
        idx < PAGE_ENTRIES,
        old(arch).mem() == seq_update_range(
            m0@,
            frame + idx * PAGE_ENTRY_SIZE,
            spec_u64_to_le_bytes(0),
        ),
        m0@.len() == old(arch).mem().len(),
        0 <= frame + idx * PAGE_ENTRY_SIZE,
        frame + idx * PAGE_ENTRY_SIZE + 8 <= m0@.len(),
        word == word_at(m0@, frame + idx * PAGE_ENTRY_SIZE),
    ensures
        final(arch).mem() == m0@,
        final(arch).cache() == old(arch).cache(),
        final(arch).table_root() == old(arch).table_root(),
{
    write_slot(arch, frame, idx, word);
    proof {
        vstd::bytes::lemma_auto_spec_u64_to_from_le_bytes();
        let a = frame + idx * (PAGE_ENTRY_SIZE as int);
        assert(arch.mem() =~= seq_update_range(m0@, a, spec_u64_to_le_bytes(word)));
        crate::arch::lemma_word_at_rewrite(m0@, a);
    }
}

} // verus!
