//! Read-only traversal of one level of the multi-level page table: a
//! borrowed view of the frame holding that level's entries, built on the
//! architecture's raw accessors through the direct mapping.

use vstd::prelude::*;

use crate::PhysicalAddress;
use crate::VirtualAddress;
use crate::arch::Arch;
use crate::arch::ENTRY_ADDRESS_MASK;
use crate::arch::ENTRY_FLAGS_MASK;
use crate::arch::ENTRY_FLAG_PRESENT;
use crate::arch::ENTRY_FLAG_WRITABLE;
use crate::arch::PAGE_ADDRESS_MASK;
use crate::arch::PAGE_ADDRESS_SIZE;
use crate::arch::PAGE_ENTRIES;
use crate::arch::PAGE_ENTRY_SIZE;
use crate::arch::PAGE_LEVELS;
use crate::arch::PAGE_SIZE;
use crate::arch::PHYS_LIMIT;
use crate::arch::direct_mapped_rw;
use crate::arch::entry_address;
use crate::arch::entry_flags;
use crate::arch::entry_present;
use crate::arch::entry_writable;
use crate::arch::lemma_direct_mapped_access;
use crate::arch::level_entry_span;
use crate::arch::phys_to_virt;
use crate::arch::seq_update_range;
use crate::arch::word_at;

verus! {

use vstd::bytes::spec_u64_to_le_bytes;

/// Decoded view of one raw table slot: a frame address plus flag bits,
/// produced by masking the raw machine word.
#[derive(Clone, Copy, Debug)]
pub struct PageEntry {
    data: u64,
}

impl PageEntry {
    /// The raw word, for use in contracts.
    pub closed spec fn spec_data(&self) -> u64 {
        self.data
    }

    pub fn new(data: u64) -> (r: Self)
        ensures
            r.spec_data() == data,
    {
        PageEntry { data }
    }

    pub fn data(&self) -> (r: u64)
        ensures
            r == self.spec_data(),
    {
        self.data
    }

    pub fn present(&self) -> (r: bool)
        ensures
            r == entry_present(self.spec_data()),
    {
        self.data & ENTRY_FLAG_PRESENT != 0
    }

    pub fn writable(&self) -> (r: bool)
        ensures
            r == entry_writable(self.spec_data()),
    {
        self.data & ENTRY_FLAG_WRITABLE != 0
    }

    /// The physical frame bits of the entry.
    pub fn address(&self) -> (r: PhysicalAddress)
        ensures
            r.spec_data() == entry_address(self.spec_data()),
    {
        PhysicalAddress::new(self.data & ENTRY_ADDRESS_MASK)
    }

    /// The flag bits of the entry.
    pub fn flags(&self) -> (r: u64)
        ensures
            r == entry_flags(self.spec_data()),
    {
        self.data & ENTRY_FLAGS_MASK
    }
}

/// Bytes of virtual space covered by a whole table at `level`.
pub open spec fn table_span(level: nat) -> int {
    PAGE_ENTRIES * level_entry_span(level)
}


/// A borrowed, read-only view of one level of the table: the virtual
/// range it covers starts at `base`, its entries live in the frame at
/// `phys`, and level 0 is the leaf.
#[derive(Clone, Copy, Debug)]
pub struct PageTable {
    base: VirtualAddress,
    phys: PhysicalAddress,
    level: u64,
}

impl PageTable {
    pub closed spec fn spec_base(&self) -> u64 {
        self.base.spec_data()
    }

    pub closed spec fn spec_phys(&self) -> u64 {
        self.phys.spec_data()
    }

    pub closed spec fn spec_level(&self) -> u64 {
        self.level
    }

    /// The virtual address where slot `i`'s covered range begins.
    pub open spec fn spec_entry_base(&self, i: int) -> int {
        self.spec_base() + i * level_entry_span(self.spec_level() as nat)
    }

    /// The exact inverse of `spec_entry_base`: the slot index whose range
    /// covers `address`, after masking to the translated bits, or nothing
    /// when the address lies outside this level's range.
    pub open spec fn spec_index_of(&self, address: u64) -> Option<u64> {
        let m = address & PAGE_ADDRESS_MASK;
        let span = level_entry_span(self.spec_level() as nat);
        if self.spec_base() <= m && m <= self.spec_base() + (PAGE_ENTRIES * span - 1) {
            Some((((m / span as u64) % PAGE_ENTRIES)) as u64)
        } else {
            None
        }
    }

    /// Internal invariant: a valid level, a base aligned to this level's
    /// whole span and inside the translated address space, and an
    /// entry frame that the direct map can reach.
    pub open spec fn wf(&self) -> bool {
        &&& self.spec_level() < PAGE_LEVELS
        &&& self.spec_base() % (table_span(self.spec_level() as nat) as u64) == 0
        &&& self.spec_base() + table_span(self.spec_level() as nat) <= PAGE_ADDRESS_SIZE
        &&& self.spec_phys() % PAGE_SIZE == 0
        &&& self.spec_phys() + PAGE_SIZE <= PHYS_LIMIT
    }

    pub fn new(base: VirtualAddress, phys: PhysicalAddress, level: u64) -> (r: Self)
        requires
            level < PAGE_LEVELS,
            base.spec_data() % (table_span(level as nat) as u64) == 0,
            base.spec_data() + table_span(level as nat) <= PAGE_ADDRESS_SIZE,
            phys.spec_data() % PAGE_SIZE == 0,
            phys.spec_data() + PAGE_SIZE <= PHYS_LIMIT,
        ensures
            r.wf(),
            r.spec_base() == base.spec_data(),
            r.spec_phys() == phys.spec_data(),
            r.spec_level() == level,
    {
        PageTable { base, phys, level }
    }

    /// The view of the top level of the currently active table.
    pub fn top<A: Arch>(arch: &A) -> (r: Self)
        requires
            arch.table_root() % PAGE_SIZE == 0,
            arch.table_root() + PAGE_SIZE <= PHYS_LIMIT,
        ensures
            r.wf(),
            r.spec_base() == 0,
            r.spec_phys() == arch.table_root(),
            r.spec_level() == PAGE_LEVELS - 1,
    {
        proof {
            crate::arch::lemma_level_entry_span_pos(3);
        }
        Self::new(VirtualAddress::new(0), arch.table(), PAGE_LEVELS - 1)
    }

    pub fn base(&self) -> (r: VirtualAddress)
        ensures
            r.spec_data() == self.spec_base(),
    {
        self.base
    }

    pub fn phys(&self) -> (r: PhysicalAddress)
        ensures
            r.spec_data() == self.spec_phys(),
    {
        self.phys
    }

    pub fn level(&self) -> (r: u64)
        ensures
            r == self.spec_level(),
    {
        self.level
    }

    /// The direct-mapped virtual address of this level's entry frame.
    pub fn virt(&self) -> (r: VirtualAddress)
        requires
            self.wf(),
        ensures
            r.spec_data() == crate::arch::spec_phys_to_virt(self.spec_phys()),
    {
        phys_to_virt(self.phys)
    }

    /// The virtual address at which slot `i`'s covered range begins.
    pub fn entry_base(&self, i: u64) -> (r: Option<VirtualAddress>)
        requires
            self.wf(),
        ensures
            r is Some <==> i < PAGE_ENTRIES,
            r matches Some(v) ==> v.spec_data() == self.spec_entry_base(i as int),
    {
        if i < PAGE_ENTRIES {
            let span = crate::arch::level_span(self.level);
            proof {
                crate::arch::lemma_level_entry_span_pos(self.spec_level() as nat);
                assert(i * span <= (PAGE_ENTRIES - 1) * span && (PAGE_ENTRIES - 1) * span
                    < PAGE_ENTRIES * span) by (nonlinear_arith)
                    requires
                        i < PAGE_ENTRIES,
                        span > 0,
                        PAGE_ENTRIES == 512,
                {}
            }
            Some(VirtualAddress::new(self.base.data() + i * span))
        } else {
            None
        }
    }

    /// The direct-mapped virtual address of slot `i`'s raw word.
    pub fn entry_virt(&self, i: u64) -> (r: Option<VirtualAddress>)
        requires
            self.wf(),
        ensures
            r is Some <==> i < PAGE_ENTRIES,
            r matches Some(v) ==> v.spec_data() == crate::arch::spec_phys_to_virt(self.spec_phys())
                + i * PAGE_ENTRY_SIZE,
    {
        if i < PAGE_ENTRIES {
            let v = phys_to_virt(self.phys);
            Some(v.add(i * PAGE_ENTRY_SIZE))
        } else {
            None
        }
    }

    /// Reads and decodes the raw word at slot `i` of this level's frame.
    pub fn entry<A: Arch>(&self, arch: &A, i: u64) -> (r: Option<PageEntry>)
        requires
            self.wf(),
            direct_mapped_rw(arch.cache(), self.spec_phys()),
            self.spec_phys() + PAGE_SIZE <= arch.mem().len(),
        ensures
            r is Some <==> i < PAGE_ENTRIES,
            r matches Some(e) ==> e.spec_data() == word_at(
                arch.mem(),
                self.spec_phys() + i * PAGE_ENTRY_SIZE,
            ),
    {
        if i < PAGE_ENTRIES {
            proof {
                lemma_direct_mapped_access(arch.cache(), self.spec_phys(), (i * PAGE_ENTRY_SIZE) as u64);
            }
            let v = phys_to_virt(self.phys);
            let w = arch.read_word(v.add(i * PAGE_ENTRY_SIZE));
            Some(PageEntry::new(w))
        } else {
            None
        }
    }

    /// Writes the raw word of `entry` into slot `i` of this level's frame.
    /// The write changes only those eight bytes of memory and no cached
    /// translation: the caller still owes a flush.
    pub fn set_entry<A: Arch>(&self, arch: &mut A, i: u64, entry: PageEntry) -> (r: Option<()>)
        requires
            self.wf(),
            direct_mapped_rw(old(arch).cache(), self.spec_phys()),
            self.spec_phys() + PAGE_SIZE <= old(arch).mem().len(),
        ensures
            r is Some <==> i < PAGE_ENTRIES,
            r is Some ==> final(arch).mem() == seq_update_range(
                old(arch).mem(),
                self.spec_phys() + i * PAGE_ENTRY_SIZE,
                spec_u64_to_le_bytes(entry.spec_data()),
            ),
            r is None ==> final(arch).mem() == old(arch).mem(),
            final(arch).cache() == old(arch).cache(),
            final(arch).table_root() == old(arch).table_root(),
    {
        if i < PAGE_ENTRIES {
            proof {
                lemma_direct_mapped_access(old(arch).cache(), self.spec_phys(), (i * PAGE_ENTRY_SIZE) as u64);
            }
            let v = phys_to_virt(self.phys);
            arch.write_word(v.add(i * PAGE_ENTRY_SIZE), entry.data());
            Some(())
        } else {
            None
        }
    }

    /// The slot index whose range covers `address`, or nothing when the
    /// address lies outside the range this level covers.
    pub fn index_of(&self, address: VirtualAddress) -> (r: Option<u64>)
        requires
            self.wf(),
        ensures
            r == self.spec_index_of(address.spec_data()),
    {
        let m = address.data() & PAGE_ADDRESS_MASK;
        let span = crate::arch::level_span(self.level);
        proof {
            crate::arch::lemma_level_entry_span_pos(self.spec_level() as nat);
        }
        if self.base.data() <= m && m - self.base.data() <= PAGE_ENTRIES * span - 1 {
            proof {
                assert(PAGE_ENTRIES * span == table_span(self.spec_level() as nat));
            }
            Some((m / span) % PAGE_ENTRIES)
        } else {
            None
        }
    }

    /// The child-level view under slot `i`: present only below this level
    /// (never at the leaf), when the slot is present, and when the child
    /// frame lies inside the direct-mappable range.
    pub fn next<A: Arch>(&self, arch: &A, i: u64) -> (r: Option<PageTable>)
        requires
            self.wf(),
            direct_mapped_rw(arch.cache(), self.spec_phys()),
            self.spec_phys() + PAGE_SIZE <= arch.mem().len(),
        ensures
            ({
                let w = word_at(arch.mem(), self.spec_phys() + i * PAGE_ENTRY_SIZE);
                &&& r is Some <==> self.spec_level() > 0 && i < PAGE_ENTRIES && entry_present(w)
                    && entry_address(w) + PAGE_SIZE <= PHYS_LIMIT
                &&& r matches Some(t) ==> {
                    &&& t.wf()
                    &&& t.spec_base() == self.spec_entry_base(i as int)
                    &&& t.spec_phys() == entry_address(w)
                    &&& t.spec_level() == self.spec_level() - 1
                }
            }),
    {
        if self.level > 0 && i < PAGE_ENTRIES {
            let e = self.entry(arch, i).unwrap();
            if e.present() {
                let child = e.address();
                if child.data() <= PHYS_LIMIT - PAGE_SIZE {
                    let eb = self.entry_base(i).unwrap();
                    proof {
                        let l = self.spec_level() as nat;
                        let span = level_entry_span(l);
                        crate::arch::lemma_level_entry_span_pos(l);
                        assert(span == PAGE_ENTRIES * level_entry_span((l - 1) as nat));
                        let cd = child.spec_data();
                        let ed = e.spec_data();
                        assert(cd % 0x1000u64 == 0) by (bit_vector)
                            requires
                                cd == ed & 0xFFFF_FFFF_F000u64,
                        ;
                        let b = self.spec_base() as int;
                        crate::arch::lemma_align_parts(b, span);
                        vstd::arithmetic::div_mod::lemma_mod_multiples_vanish(i as int, b, span);
                        assert(span * i + b == eb.spec_data()) by (nonlinear_arith)
                            requires
                                eb.spec_data() == b + i * span,
                        {}
                        assert((i + 1) * span <= 512 * span && i * span >= 0 && (i + 1) * span
                            == i * span + span) by (nonlinear_arith)
                            requires
                                0 <= i < 512,
                                span > 0,
                        {}
                        assert(eb.spec_data() % (table_span((l - 1) as nat) as u64) == 0);
                        assert(eb.spec_data() + table_span((l - 1) as nat) <= PAGE_ADDRESS_SIZE);
                    }
                    return Some(PageTable::new(eb, child, self.level - 1));
                }
            }
        }
        None
    }
}


/// Law: table walk determinism. `index_of` is the exact inverse of
/// `entry_base`: for every valid slot `i` of a well-formed level view,
/// looking up the base address of slot `i` yields exactly `i`.
pub proof fn lemma_index_of_entry_base(t: PageTable, i: u64)
    requires
        t.wf(),
        i < PAGE_ENTRIES,
    ensures
        t.spec_index_of(t.spec_entry_base(i as int) as u64) == Some(i),
{
    let l = t.spec_level() as nat;
    let span = level_entry_span(l);
    crate::arch::lemma_level_entry_span_pos(l);
    let b = t.spec_base() as int;
    let eb = t.spec_entry_base(i as int);
    crate::arch::lemma_align_parts(b, span);
    let q = b / span;
    vstd::arithmetic::div_mod::lemma_fundamental_div_mod(b, span);
    assert(eb == span * (q + i)) by (nonlinear_arith)
        requires
            b == span * q,
            eb == b + i * span,
    {}
    vstd::arithmetic::div_mod::lemma_div_multiples_vanish(q + i, span);
    assert(eb / span == q + i);
    let m = q / 512;
    vstd::arithmetic::div_mod::lemma_fundamental_div_mod(q, 512);
    assert(q + i == 512 * m + i);
    vstd::arithmetic::div_mod::lemma_mod_multiples_vanish(m, i as int, 512);
    vstd::arithmetic::div_mod::lemma_small_mod(i as nat, 512);
    assert((eb / span) % 512 == i);
    assert(eb % span == 0) by {
        vstd::arithmetic::div_mod::lemma_mod_multiples_vanish(i as int, b, span);
        assert(span * i + b == eb) by (nonlinear_arith)
            requires
                eb == b + i * span,
        {}
    }
    crate::arch::lemma_mod_chain(eb, span, PAGE_SIZE as int);
    assert(i * span >= 0 && (i + 1) * span <= 512 * span && (i + 1) * span == i * span + span)
        by (nonlinear_arith)
        requires
            0 <= i < 512,
            span > 0,
    {}
    assert(b <= eb && eb + span <= b + 512 * span);
    let ebu = eb as u64;
    assert(ebu & PAGE_ADDRESS_MASK == ebu) by (bit_vector)
        requires
            ebu < 0x1_0000_0000_0000u64,
            ebu % 0x1000u64 == 0,
    ;
    assert((ebu / span as u64) % PAGE_ENTRIES == i);
}

} // verus!
