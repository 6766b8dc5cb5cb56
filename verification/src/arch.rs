//! Architecture capability: page geometry constants, the mathematical model
//! of raw memory and of the translation cache, and the `Arch` trait through
//! which every other component reaches the hardware (or its emulation).

use vstd::prelude::*;

use crate::MemoryArea;
use crate::PhysicalAddress;
use crate::VirtualAddress;
use crate::areas_wf;

verus! {

use vstd::bytes::*;

/// log2 of the page size; `PAGE_SIZE` is `1 << PAGE_SHIFT`.
pub const PAGE_SHIFT: u64 = 12;

/// log2 of the number of entries in one table level; `PAGE_ENTRIES` is
/// `1 << PAGE_ENTRY_SHIFT`.
pub const PAGE_ENTRY_SHIFT: u64 = 9;

/// Number of table levels; level 0 is the leaf.
pub const PAGE_LEVELS: u64 = 4;

pub const PAGE_SIZE: u64 = 0x1000;

pub const PAGE_OFFSET_MASK: u64 = 0xFFF;

/// Bits of a virtual address that participate in translation:
/// `PAGE_LEVELS * PAGE_ENTRY_SHIFT + PAGE_SHIFT`.
pub const PAGE_ADDRESS_SHIFT: u64 = 48;

pub const PAGE_ADDRESS_SIZE: u64 = 0x1_0000_0000_0000;

/// Selects the page-base bits of a virtual address: clears the in-page
/// offset below and the untranslated bits above.
pub const PAGE_ADDRESS_MASK: u64 = 0xFFFF_FFFF_F000;

/// Bytes occupied by one raw table entry.
pub const PAGE_ENTRY_SIZE: u64 = 8;

/// Entries per table level.
pub const PAGE_ENTRIES: u64 = 512;

pub const PAGE_ENTRY_MASK: u64 = 511;

pub const ENTRY_ADDRESS_SHIFT: u64 = 48;

pub const ENTRY_ADDRESS_SIZE: u64 = 0x1_0000_0000_0000;

/// Selects the physical-frame bits of a raw table entry.
pub const ENTRY_ADDRESS_MASK: u64 = 0xFFFF_FFFF_F000;

/// Selects the flag bits of a raw table entry.
pub const ENTRY_FLAGS_MASK: u64 = 0xFFFF_0000_0000_0FFF;

pub const ENTRY_FLAG_PRESENT: u64 = 1;

pub const ENTRY_FLAG_WRITABLE: u64 = 2;

pub const ENTRY_FLAG_USER: u64 = 4;

pub const ENTRY_FLAG_HUGE: u64 = 0x80;

pub const ENTRY_FLAG_GLOBAL: u64 = 0x100;

pub const ENTRY_FLAG_NO_EXEC: u64 = 0x8000_0000_0000_0000;

/// Base of the fixed-offset direct mapping of physical memory.
pub const PHYS_OFFSET: u64 = 0xFFFF_8000_0000_0000;

/// Highest physical address (exclusive) that the direct mapping can reach
/// without wrapping the virtual address space.
pub const PHYS_LIMIT: u64 = 0x8000_0000_0000;

/// The virtual address at which a physical address is visible through the
/// direct mapping.
pub open spec fn spec_phys_to_virt(phys: u64) -> u64
    recommends
        phys < PHYS_LIMIT,
{
    (phys + PHYS_OFFSET) as u64
}

/// Translates a physical address to its direct-mapped virtual address.
/// The direct mapping is a fixed offset shared by every architecture here.
pub fn phys_to_virt(phys: PhysicalAddress) -> (r: VirtualAddress)
    requires
        phys.spec_data() < PHYS_LIMIT,
    ensures
        r.spec_data() == spec_phys_to_virt(phys.spec_data()),
{
    VirtualAddress::new(phys.data() + PHYS_OFFSET)
}

/// The machine word stored little-endian at byte offset `a` of `mem`.
pub open spec fn word_at(mem: Seq<u8>, a: int) -> u64
    recommends
        0 <= a,
        a + 8 <= mem.len(),
{
    spec_u64_from_le_bytes(mem.subrange(a, a + 8))
}

/// `s` with the range starting at `a` overwritten by `bytes`.
pub open spec fn seq_update_range(s: Seq<u8>, a: int, bytes: Seq<u8>) -> Seq<u8> {
    Seq::new(
        s.len(),
        |j: int|
            if a <= j < a + bytes.len() {
                bytes[j - a]
            } else {
                s[j]
            },
    )
}

/// `s` with `count` bytes starting at `a` set to `value`.
pub open spec fn seq_fill_range(s: Seq<u8>, a: int, count: int, value: u8) -> Seq<u8> {
    Seq::new(
        s.len(),
        |j: int|
            if a <= j < a + count {
                value
            } else {
                s[j]
            },
    )
}

pub open spec fn entry_present(e: u64) -> bool {
    e & ENTRY_FLAG_PRESENT != 0
}

pub open spec fn entry_writable(e: u64) -> bool {
    e & ENTRY_FLAG_WRITABLE != 0
}

pub open spec fn entry_address(e: u64) -> u64 {
    e & ENTRY_ADDRESS_MASK
}

pub open spec fn entry_flags(e: u64) -> u64 {
    e & ENTRY_FLAGS_MASK
}

/// Bytes of virtual space covered by one entry of a table at `level`:
/// 4 KiB at the leaf, multiplied by the entry count per level above it.
pub open spec fn level_entry_span(level: nat) -> int
    decreases level,
{
    if level == 0 {
        PAGE_SIZE as int
    } else {
        PAGE_ENTRIES * level_entry_span((level - 1) as nat)
    }
}

/// Result of walking the in-memory table rooted at frame `a` (a table at
/// `level`) for the virtual offset `vrel` relative to the start of the
/// range this table covers: the raw leaf entry, if every step is present.
/// A present entry whose target frame lies outside `mem` is treated as
/// absent (the emulation is bounds-checked rather than fatal here).
pub open spec fn walk_entry(mem: Seq<u8>, a: int, level: nat, vrel: int) -> Option<u64>
    recommends
        0 <= vrel < PAGE_ENTRIES * level_entry_span(level),
    decreases level,
{
    if !(0 <= a && a + PAGE_SIZE <= mem.len()) {
        None
    } else {
        let i = vrel / level_entry_span(level);
        let e = word_at(mem, a + i * (PAGE_ENTRY_SIZE as int));
        if !entry_present(e) {
            None
        } else if level == 0 {
            Some(e)
        } else {
            walk_entry(mem, entry_address(e) as int, (level - 1) as nat, vrel % level_entry_span(level))
        }
    }
}

/// The raw leaf entry that the currently installed table maps the
/// page-aligned virtual address `vb` to, if any.
pub open spec fn translate_walk(mem: Seq<u8>, table: int, vb: u64) -> Option<u64>
    recommends
        vb % PAGE_SIZE == 0,
        vb < PAGE_ADDRESS_SIZE,
{
    walk_entry(mem, table, (PAGE_LEVELS - 1) as nat, vb as int)
}

/// The translation cache holds exactly the present leaf translations that
/// a full walk of the table rooted at `table` produces.
pub open spec fn cache_is_walk(cache: Map<u64, u64>, mem: Seq<u8>, table: int) -> bool {
    &&& forall|vb: u64|
        #[trigger] cache.contains_key(vb) ==> vb % PAGE_SIZE == 0 && vb < PAGE_ADDRESS_SIZE
            && translate_walk(mem, table, vb) == Some(cache[vb])
    &&& forall|vb: u64|
        vb % PAGE_SIZE == 0 && vb < PAGE_ADDRESS_SIZE && (#[trigger] translate_walk(
            mem,
            table,
            vb,
        )) is Some ==> cache.contains_key(vb)
}

/// Whether the cache currently translates `virt`: its page must be cached.
pub open spec fn cached_present(cache: Map<u64, u64>, virt: u64) -> bool {
    cache.contains_key(virt & PAGE_ADDRESS_MASK)
}

/// The cached raw leaf entry for the page of `virt`.
pub open spec fn cached_entry(cache: Map<u64, u64>, virt: u64) -> u64
    recommends
        cached_present(cache, virt),
{
    cache[virt & PAGE_ADDRESS_MASK]
}

/// The physical address that the cache translates `virt` to.
pub open spec fn cached_phys(cache: Map<u64, u64>, virt: u64) -> int
    recommends
        cached_present(cache, virt),
{
    entry_address(cached_entry(cache, virt)) + (virt & PAGE_OFFSET_MASK)
}

/// Whether the cached translation of `virt` permits writing.
pub open spec fn cached_writable(cache: Map<u64, u64>, virt: u64) -> bool
    recommends
        cached_present(cache, virt),
{
    entry_writable(cached_entry(cache, virt))
}

/// The page-aligned physical frame `p` is reachable for reading and
/// writing through the direct mapping, according to the cache.
pub open spec fn direct_mapped_rw(cache: Map<u64, u64>, p: u64) -> bool {
    &&& p % PAGE_SIZE == 0
    &&& p < PHYS_LIMIT
    &&& cached_present(cache, spec_phys_to_virt(p))
    &&& cached_phys(cache, spec_phys_to_virt(p)) == p
    &&& cached_writable(cache, spec_phys_to_virt(p))
}

/// The concrete spans of the four levels.
pub proof fn lemma_level_entry_span_pos(level: nat)
    requires
        level < PAGE_LEVELS,
    ensures
        level_entry_span(level) == if level == 0 {
            0x1000int
        } else if level == 1 {
            0x20_0000int
        } else if level == 2 {
            0x4000_0000int
        } else {
            0x80_0000_0000int
        },
        0 < level_entry_span(level) <= 0x80_0000_0000,
        level_entry_span(level) % (PAGE_SIZE as int) == 0,
{
    assert(level_entry_span(0) == 0x1000);
    assert(level_entry_span(1) == 512 * level_entry_span(0));
    assert(level_entry_span(2) == 512 * level_entry_span(1));
    assert(level_entry_span(3) == 512 * level_entry_span(2));
}

/// A base aligned to a whole table span is aligned to one entry span,
/// and its entry-index part vanishes.
pub proof fn lemma_align_parts(b: int, sp: int)
    requires
        0 <= b,
        0 < sp,
        b % (512 * sp) == 0,
    ensures
        b % sp == 0,
        (b / sp) % 512 == 0,
{
    vstd::arithmetic::div_mod::lemma_breakdown(b, sp, 512);
    assert((b / sp) % 512 == 0 && b % sp == 0) by (nonlinear_arith)
        requires
            sp * ((b / sp) % 512) + b % sp == 0,
            0 <= b % sp,
            0 <= (b / sp) % 512,
            0 < sp,
    {}
}

/// Divisibility is transitive.
pub proof fn lemma_mod_chain(x: int, a: int, b: int)
    requires
        0 <= x,
        0 < a,
        0 < b,
        x % a == 0,
        a % b == 0,
    ensures
        x % b == 0,
{
    vstd::arithmetic::div_mod::lemma_fundamental_div_mod(x, a);
    vstd::arithmetic::div_mod::lemma_fundamental_div_mod(a, b);
    let q = x / a;
    let p = a / b;
    assert(x == (p * q) * b) by (nonlinear_arith)
        requires
            x == a * q,
            a == b * p,
    {}
    vstd::arithmetic::div_mod::lemma_mod_multiples_basic(p * q, b);
}


/// Exec computation of the span of one entry at `level`.
pub fn level_span(level: u64) -> (r: u64)
    requires
        level < PAGE_LEVELS,
    ensures
        r == level_entry_span(level as nat),
{
    proof {
        lemma_level_entry_span_pos(level as nat);
    }
    if level == 0 {
        0x1000
    } else if level == 1 {
        0x20_0000
    } else if level == 2 {
        0x4000_0000
    } else {
        0x80_0000_0000
    }
}

/// Masking a virtual address to its translated bits yields a page-aligned
/// base inside the translated address space.
pub proof fn lemma_page_mask(v: u64)
    ensures
        (v & PAGE_ADDRESS_MASK) % PAGE_SIZE == 0,
        (v & PAGE_ADDRESS_MASK) < PAGE_ADDRESS_SIZE,
{
    assert((v & 0xFFFF_FFFF_F000u64) % 0x1000u64 == 0 && (v & 0xFFFF_FFFF_F000u64)
        < 0x1_0000_0000_0000u64) by (bit_vector);
}

/// The word written at `a` reads back exactly.
pub proof fn lemma_word_at_update_hit(m: Seq<u8>, a: int, v: u64)
    requires
        0 <= a,
        a + 8 <= m.len(),
    ensures
        word_at(seq_update_range(m, a, spec_u64_to_le_bytes(v)), a) == v,
{
    vstd::bytes::lemma_auto_spec_u64_to_from_le_bytes();
    assert(seq_update_range(m, a, spec_u64_to_le_bytes(v)).subrange(a, a + 8)
        =~= spec_u64_to_le_bytes(v));
}

/// A word whose eight bytes an update does not touch is unchanged.
pub proof fn lemma_word_at_update_miss(m: Seq<u8>, a: int, bytes: Seq<u8>, b: int)
    requires
        0 <= b,
        b + 8 <= m.len(),
        b + 8 <= a || a + bytes.len() <= b,
    ensures
        word_at(seq_update_range(m, a, bytes), b) == word_at(m, b),
{
    assert(seq_update_range(m, a, bytes).subrange(b, b + 8) =~= m.subrange(b, b + 8));
}

/// Writing back the word already stored leaves memory unchanged.
pub proof fn lemma_word_at_rewrite(m: Seq<u8>, a: int)
    requires
        0 <= a,
        a + 8 <= m.len(),
    ensures
        seq_update_range(m, a, spec_u64_to_le_bytes(word_at(m, a))) == m,
{
    vstd::bytes::lemma_auto_spec_u64_to_from_le_bytes();
    assert(spec_u64_to_le_bytes(spec_u64_from_le_bytes(m.subrange(a, a + 8))) == m.subrange(
        a,
        a + 8,
    ));
    assert(seq_update_range(m, a, spec_u64_to_le_bytes(word_at(m, a))) =~= m);
}

/// Bit-level facts about direct-mapped accesses: adding an in-page offset
/// to the direct-mapped address of an aligned frame stays on the same
/// virtual page, and the page offset comes out exactly.
pub proof fn lemma_direct_map_offset(frame: u64, off: u64)
    requires
        frame % PAGE_SIZE == 0,
        frame < PHYS_LIMIT,
        off < PAGE_SIZE,
    ensures
        spec_phys_to_virt(frame) + off == spec_phys_to_virt((frame + off) as u64),
        ((spec_phys_to_virt(frame) + off) as u64 & PAGE_ADDRESS_MASK) == (spec_phys_to_virt(frame)
            & PAGE_ADDRESS_MASK),
        ((spec_phys_to_virt(frame) + off) as u64 & PAGE_OFFSET_MASK) == off,
        (spec_phys_to_virt(frame) & PAGE_OFFSET_MASK) == 0,
{
    assert((vstd::prelude::add(vstd::prelude::add(0xFFFF_8000_0000_0000u64, frame), off) & 0xFFFF_FFFF_F000u64) == (vstd::prelude::add(
        0xFFFF_8000_0000_0000u64,
        frame,
    ) & 0xFFFF_FFFF_F000u64) && (vstd::prelude::add(vstd::prelude::add(0xFFFF_8000_0000_0000u64, frame), off) & 0xFFFu64) == off
        && (vstd::prelude::add(0xFFFF_8000_0000_0000u64, frame) & 0xFFFu64) == 0) by (bit_vector)
        requires
            frame % 0x1000u64 == 0,
            frame < 0x8000_0000_0000u64,
            off < 0x1000u64,
    ;
}

/// A direct-mapped frame can be read and written at any in-page offset:
/// the cache translates the offset address to exactly `frame + off`.
pub proof fn lemma_direct_mapped_access(cache: Map<u64, u64>, frame: u64, off: u64)
    requires
        direct_mapped_rw(cache, frame),
        off < PAGE_SIZE,
    ensures
        cached_present(cache, (spec_phys_to_virt(frame) + off) as u64),
        cached_phys(cache, (spec_phys_to_virt(frame) + off) as u64) == frame + off,
        cached_writable(cache, (spec_phys_to_virt(frame) + off) as u64),
        ((spec_phys_to_virt(frame) + off) as u64 & PAGE_OFFSET_MASK) == off,
{
    lemma_direct_map_offset(frame, off);
    lemma_direct_map_offset(frame, 0);
}

/// The architecture capability: page geometry is shared (as the constants
/// of this module), while raw memory access, translation caching and the
/// active-table register are supplied per backend. The model is a byte
/// view of physical memory, a map from virtual page base to cached raw
/// leaf entry, and the physical address of the active top-level table.
///
/// The raw accessors are the inherently dangerous primitives of the
/// design: each requires the caller to establish translation,
/// writability and bounds, and faults on violations are ruled out rather
/// than handled.
pub trait Arch: Sized {
    /// Byte view of the backend's physical memory.
    spec fn mem(&self) -> Seq<u8>;

    /// Cached leaf translations, keyed by virtual page base.
    spec fn cache(&self) -> Map<u64, u64>;

    /// Physical address of the active top-level table.
    spec fn table_root(&self) -> u64;

    /// Architecture/firmware bring-up: returns the authoritative usable
    /// memory map, already normalized — sorted, page-aligned, trimmed to
    /// page granularity — as `areas_wf` demands. Called once, before any
    /// allocator is constructed. A backend with a richer contract (such
    /// as the emulation's concrete map) states it on a method of its
    /// own and forwards this one to it.
    fn init(&mut self) -> (areas: Vec<MemoryArea>)
        ensures
            areas_wf(areas@),
            final(self).mem().len() <= PHYS_LIMIT,
            forall|i: int| 0 <= i < areas@.len() ==> (#[trigger] areas@[i]).spec_end() <= final(self).mem().len(),
            cache_is_walk(final(self).cache(), final(self).mem(), final(self).table_root() as int),
    ;

    /// The size in bytes of the backend's physical memory.
    fn mem_size(&self) -> (r: u64)
        ensures
            r == self.mem().len(),
    ;

    /// Raw read of one byte through the currently cached translations.
    fn read(&self, address: VirtualAddress) -> (r: u8)
        requires
            cached_present(self.cache(), address.spec_data()),
            cached_phys(self.cache(), address.spec_data()) + 1 <= self.mem().len(),
        ensures
            r == self.mem()[cached_phys(self.cache(), address.spec_data())],
    ;

    /// Raw write of one byte through the currently cached translations.
    fn write(&mut self, address: VirtualAddress, value: u8)
        requires
            cached_present(old(self).cache(), address.spec_data()),
            cached_writable(old(self).cache(), address.spec_data()),
            cached_phys(old(self).cache(), address.spec_data()) + 1 <= old(self).mem().len(),
        ensures
            final(self).mem() == old(self).mem().update(
                cached_phys(old(self).cache(), address.spec_data()),
                value,
            ),
            final(self).cache() == old(self).cache(),
            final(self).table_root() == old(self).table_root(),
    ;

    /// Raw read of one machine word; must not cross a page boundary.
    fn read_word(&self, address: VirtualAddress) -> (r: u64)
        requires
            cached_present(self.cache(), address.spec_data()),
            address.spec_data() & PAGE_OFFSET_MASK <= PAGE_SIZE - PAGE_ENTRY_SIZE,
            cached_phys(self.cache(), address.spec_data()) + 8 <= self.mem().len(),
        ensures
            r == word_at(self.mem(), cached_phys(self.cache(), address.spec_data())),
    ;

    /// Raw write of one machine word; must not cross a page boundary.
    fn write_word(&mut self, address: VirtualAddress, value: u64)
        requires
            cached_present(old(self).cache(), address.spec_data()),
            cached_writable(old(self).cache(), address.spec_data()),
            address.spec_data() & PAGE_OFFSET_MASK <= PAGE_SIZE - PAGE_ENTRY_SIZE,
            cached_phys(old(self).cache(), address.spec_data()) + 8 <= old(self).mem().len(),
        ensures
            final(self).mem() == seq_update_range(
                old(self).mem(),
                cached_phys(old(self).cache(), address.spec_data()),
                spec_u64_to_le_bytes(value),
            ),
            final(self).cache() == old(self).cache(),
            final(self).table_root() == old(self).table_root(),
    ;

    /// Raw fill of `count` bytes; must stay within one page.
    fn write_bytes(&mut self, address: VirtualAddress, value: u8, count: u64)
        requires
            cached_present(old(self).cache(), address.spec_data()),
            cached_writable(old(self).cache(), address.spec_data()),
            (address.spec_data() & PAGE_OFFSET_MASK) + count <= PAGE_SIZE,
            cached_phys(old(self).cache(), address.spec_data()) + count <= old(self).mem().len(),
        ensures
            final(self).mem() == seq_fill_range(
                old(self).mem(),
                cached_phys(old(self).cache(), address.spec_data()),
                count as int,
                value,
            ),
            final(self).cache() == old(self).cache(),
            final(self).table_root() == old(self).table_root(),
    ;

    /// The cached translation of `address`, if any: the physical address
    /// it maps to, and the flag bits of the governing leaf entry.
    fn translate(&self, address: VirtualAddress) -> (r: Option<(PhysicalAddress, u64)>)
        ensures
            r is Some <==> cached_present(self.cache(), address.spec_data()),
            r matches Some((p, flags)) ==> p.spec_data() == cached_phys(
                self.cache(),
                address.spec_data(),
            ) && flags == entry_flags(cached_entry(self.cache(), address.spec_data())),
    ;

    /// Drops the one cached translation for the page of `address`.
    fn invalid_data(&mut self, address: VirtualAddress)
        ensures
            final(self).mem() == old(self).mem(),
            final(self).table_root() == old(self).table_root(),
            final(self).cache() == old(self).cache().remove(address.spec_data() & PAGE_ADDRESS_MASK),
    ;

    /// Rebuilds the whole translation cache from the active table.
    fn invalid_data_all(&mut self)
        ensures
            final(self).mem() == old(self).mem(),
            final(self).table_root() == old(self).table_root(),
            cache_is_walk(final(self).cache(), final(self).mem(), final(self).table_root() as int),
    ;

    /// The physical address of the active top-level table.
    fn table(&self) -> (r: PhysicalAddress)
        ensures
            r.spec_data() == self.table_root(),
    ;

    /// Installs a new active top-level table; implicitly rebuilds every
    /// cached translation.
    fn set_table(&mut self, address: PhysicalAddress)
        ensures
            final(self).mem() == old(self).mem(),
            final(self).table_root() == address.spec_data(),
            cache_is_walk(final(self).cache(), final(self).mem(), address.spec_data() as int),
    ;
}

} // verus!
