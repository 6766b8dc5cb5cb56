//! A software-emulated machine backend: the same architecture contract as
//! real hardware, implemented over an owned, bounds-checked byte arena
//! plus an explicit translation cache. Translation consults only the
//! cache, which is rebuilt by a full walk of the active table on a global
//! invalidation — exactly the discipline that makes a forgotten flush
//! observable: a mutated table entry has no effect until the owed
//! invalidation runs.

use std::collections::HashMap;

use vstd::prelude::*;

use crate::MemoryArea;
use crate::PhysicalAddress;
use crate::VirtualAddress;
use crate::arch::Arch;
use crate::arch::ENTRY_FLAG_PRESENT;
use crate::arch::ENTRY_FLAG_WRITABLE;
use crate::arch::PAGE_ADDRESS_MASK;
use crate::arch::PAGE_ADDRESS_SIZE;
use crate::arch::PAGE_ENTRIES;
use crate::arch::PAGE_ENTRY_SIZE;
use crate::arch::PAGE_LEVELS;
use crate::arch::PAGE_OFFSET_MASK;
use crate::arch::PAGE_SIZE;
use crate::arch::PHYS_LIMIT;
use crate::arch::cache_is_walk;
use crate::arch::cached_entry;
use crate::arch::cached_phys;
use crate::arch::cached_present;
use crate::arch::cached_writable;
use crate::arch::direct_mapped_rw;
use crate::arch::entry_address;
use crate::arch::entry_flags;
use crate::arch::entry_present;
use crate::arch::level_entry_span;
use crate::arch::seq_fill_range;
use crate::arch::seq_update_range;
use crate::arch::translate_walk;
use crate::arch::walk_entry;
use crate::areas_wf;

verus! {

use vstd::bytes::spec_u64_to_le_bytes;
use vstd::bytes::u64_from_le_bytes;
use vstd::bytes::u64_to_le_bytes;
use vstd::slice::slice_subrange;

/// Bytes of emulated physical memory.
pub const EMULATE_MEMORY_SIZE: u64 = 64 * crate::MEGA_BYTE;

/// Bytes of physical memory that the boot tables identity-map into the
/// direct-map window: one leaf table's worth.
pub const BOOT_WINDOW: u64 = 0x20_0000;

/// The word stored little-endian at physical offset `a` of the arena.
fn word_of(memory: &Vec<u8>, a: u64) -> (r: u64)
    requires
        a + 8 <= memory@.len(),
    ensures
        r == crate::arch::word_at(memory@, a as int),
{
    let n = memory.len();
    proof {
        assert(a + 8 <= n);
    }
    let i = a as usize;
    let s = slice_subrange(memory.as_slice(), i, i + 8);
    u64_from_le_bytes(s)
}

/// The owned machine: a flat byte arena standing for physical memory, the
/// translation cache keyed by virtual page base, and the active top-level
/// table address.
pub struct Machine {
    memory: Vec<u8>,
    cache: HashMap<u64, u64>,
    table_addr: u64,
}

/// Every cache key is a page-aligned virtual base within the translated
/// address space.
pub open spec fn cache_keys_wf(cache: Map<u64, u64>) -> bool {
    forall|vb: u64|
        #[trigger] cache.contains_key(vb) ==> vb % PAGE_SIZE == 0 && vb < PAGE_ADDRESS_SIZE
}

/// Fills the cache with every present leaf translation in the subtree of
/// the table at frame `a` (level `level`, covering the virtual range that
/// starts at `vbase`), leaving every key outside that range untouched.
#[verifier::loop_isolation(false)]
#[verifier::rlimit(100)]
fn walk_fill(memory: &Vec<u8>, cache: &mut HashMap<u64, u64>, a: u64, level: u64, vbase: u64)
    requires
        level < PAGE_LEVELS,
        a + PAGE_SIZE <= memory@.len(),
        vbase % ((PAGE_ENTRIES * level_entry_span(level as nat)) as u64) == 0,
        vbase + PAGE_ENTRIES * level_entry_span(level as nat) <= PAGE_ADDRESS_SIZE,
        cache_keys_wf(old(cache)@),
        forall|vb: u64|
            vbase <= vb < vbase + PAGE_ENTRIES * level_entry_span(level as nat) ==> !(
            #[trigger] old(cache)@.contains_key(vb)),
    ensures
        cache_keys_wf(final(cache)@),
        forall|vr: int|
            #![trigger walk_entry(memory@, a as int, level as nat, vr)]
            0 <= vr < PAGE_ENTRIES * level_entry_span(level as nat) && vr % (PAGE_SIZE as int)
                == 0 ==> match walk_entry(memory@, a as int, level as nat, vr) {
                Some(e) => final(cache)@.contains_key((vbase + vr) as u64) && final(cache)@[(vbase
                    + vr) as u64] == e,
                None => !final(cache)@.contains_key((vbase + vr) as u64),
            },
        forall|vb: u64|
            !(vbase <= vb < vbase + PAGE_ENTRIES * level_entry_span(level as nat)) ==> ((
            #[trigger] final(cache)@.contains_key(vb)) == old(cache)@.contains_key(vb) && (old(
                cache,
            )@.contains_key(vb) ==> final(cache)@[vb] == old(cache)@[vb])),
    decreases level,
{
    let ghost span = level_entry_span(level as nat);
    proof {
        crate::arch::lemma_level_entry_span_pos(level as nat);
    }
    let espan: u64 = if level == 0 {
        0x1000
    } else if level == 1 {
        0x20_0000
    } else if level == 2 {
        0x4000_0000
    } else {
        0x80_0000_0000
    };
    let ml = memory.len();
    proof {
        assert(a + PAGE_SIZE <= ml);
    }
    let mut i: u64 = 0;
    while i < PAGE_ENTRIES
        invariant
            i <= PAGE_ENTRIES,
            espan == span,
            cache_keys_wf(cache@),
            forall|vr: int|
                #![trigger walk_entry(memory@, a as int, level as nat, vr)]
                0 <= vr < i * span && vr % (PAGE_SIZE as int) == 0 ==> match walk_entry(
                    memory@,
                    a as int,
                    level as nat,
                    vr,
                ) {
                    Some(e) => cache@.contains_key((vbase + vr) as u64) && cache@[(vbase
                        + vr) as u64] == e,
                    None => !cache@.contains_key((vbase + vr) as u64),
                },
            forall|vb: u64|
                vbase + i * span <= vb < vbase + PAGE_ENTRIES * span ==> !(
                #[trigger] cache@.contains_key(vb)),
            forall|vb: u64|
                !(vbase <= vb < vbase + PAGE_ENTRIES * span) ==> ((
                #[trigger] cache@.contains_key(vb)) == old(cache)@.contains_key(vb) && (old(
                    cache,
                )@.contains_key(vb) ==> cache@[vb] == old(cache)@[vb])),
        decreases PAGE_ENTRIES - i,
    {
        proof {
            assert(i * span + span == (i + 1) * span && (i + 1) * span <= PAGE_ENTRIES * span
                && i * (PAGE_ENTRY_SIZE as int) + 8 <= PAGE_SIZE && i * span >= 0)
                by (nonlinear_arith)
                requires
                    0 <= i < PAGE_ENTRIES,
                    span > 0,
                    PAGE_ENTRIES == 512,
                    PAGE_ENTRY_SIZE == 8,
                    PAGE_SIZE == 0x1000,
            {}
        }
        let off = i * PAGE_ENTRY_SIZE;
        let e = word_of(memory, a + off);
        let ghost pre_loop_cache = cache@;
        let ghost cb = vbase + i * span;
        proof {
            assert((i * span) % (PAGE_SIZE as int) == 0 && cb % (PAGE_SIZE as int) == 0) by {
                let k = span / (PAGE_SIZE as int);
                assert(span == (PAGE_SIZE as int) * k && i * span == (i * k) * (
                PAGE_SIZE as int) && 512 * span == (512 * k) * (PAGE_SIZE as int))
                    by (nonlinear_arith)
                    requires
                        span % (PAGE_SIZE as int) == 0,
                        k == span / (PAGE_SIZE as int),
                        span > 0,
                        PAGE_SIZE == 0x1000,
                {}
                vstd::arithmetic::div_mod::lemma_mod_multiples_basic(i * k, PAGE_SIZE as int);
                vstd::arithmetic::div_mod::lemma_mod_multiples_basic(512 * k, PAGE_SIZE as int);
                crate::arch::lemma_mod_chain(
                    vbase as int,
                    512 * span,
                    PAGE_SIZE as int,
                );
                assert(cb % (PAGE_SIZE as int) == 0) by (nonlinear_arith)
                    requires
                        (vbase as int) % (PAGE_SIZE as int) == 0,
                        (i * span) % (PAGE_SIZE as int) == 0,
                        cb == vbase + i * span,
                        PAGE_SIZE == 0x1000,
                {}
            }
        }
        if e & ENTRY_FLAG_PRESENT != 0 {
            if level == 0 {
                let vb = vbase + i * PAGE_SIZE;
                proof {
                    assert(vb == cb);
                }
                cache.insert(vb, e);
            } else {
                let child = e & 0xFFFF_FFFF_F000;
                proof {
                    assert(child == entry_address(e));
                    assert((e & 0xFFFF_FFFF_F000u64) <= 0xFFFF_FFFF_F000u64) by (bit_vector);
                }
                if child + PAGE_SIZE <= memory.len() as u64 {
                    proof {
                        assert(span == PAGE_ENTRIES * level_entry_span((level - 1) as nat));
                        assert((vbase + i * span) % (PAGE_ENTRIES * level_entry_span((level
                            - 1) as nat)) == 0) by {
                            let b = vbase as int;
                            vstd::arithmetic::div_mod::lemma_mod_multiples_vanish(
                                i as int,
                                b,
                                span,
                            );
                            assert(span * i + b == b + i * span) by (nonlinear_arith) {}
                            assert(b % span == 0) by {
                                vstd::arithmetic::div_mod::lemma_breakdown(b, span, 512);
                                assert(span * ((b / span) % 512) + b % span == 0 ==> b % span
                                    == 0) by (nonlinear_arith)
                                    requires
                                        0 <= b % span,
                                        0 <= (b / span) % 512,
                                        0 < span,
                                {}
                            }
                        }
                    }
                    walk_fill(memory, cache, child, level - 1, vbase + i * espan);
                }
            }
        }
        proof {
            let m = memory@;
            let ai = a as int;
            let ln = level as nat;
            assert forall|vb: u64| !(cb <= vb < cb + span) implies ((
            #[trigger] cache@.contains_key(vb)) == pre_loop_cache.contains_key(vb) && (
            pre_loop_cache.contains_key(vb) ==> cache@[vb] == pre_loop_cache[vb])) by {
                if entry_present(e) && level > 0 && entry_address(e) + PAGE_SIZE <= m.len() {
                    assert(512 * level_entry_span((ln - 1) as nat) == span);
                }
                assert(cache@.contains_key(vb) == pre_loop_cache.contains_key(vb));
                assert(pre_loop_cache.contains_key(vb) ==> cache@[vb] == pre_loop_cache[vb]);
            }
            assert forall|vr: int|
                #![trigger walk_entry(m, ai, ln, vr)]
                0 <= vr < (i + 1) * span && vr % (PAGE_SIZE as int) == 0 implies match walk_entry(
                m,
                ai,
                ln,
                vr,
            ) {
                Some(ev) => cache@.contains_key((vbase + vr) as u64) && cache@[(vbase
                    + vr) as u64] == ev,
                None => !cache@.contains_key((vbase + vr) as u64),
            } by {
                let key = (vbase + vr) as u64;
                if vr < i * span {
                    assert(key < cb);
                    assert(!(cb <= key < cb + span));
                    assert(cache@.contains_key(key) == pre_loop_cache.contains_key(key));
                    assert(pre_loop_cache.contains_key(key) ==> cache@[key]
                        == pre_loop_cache[key]);
                } else {
                    assert(vr / span == i && vr % span == vr - i * span) by (nonlinear_arith)
                        requires
                            i * span <= vr < (i + 1) * span,
                            span > 0,
                            (i + 1) * span == i * span + span,
                    {}
                    assert(walk_entry(m, ai, ln, vr) == if !entry_present(e) {
                        None
                    } else if ln == 0 {
                        Some(e)
                    } else {
                        walk_entry(m, entry_address(e) as int, (ln - 1) as nat, vr - i * span)
                    });
                    if !entry_present(e) {
                        assert(cache@ == pre_loop_cache);
                        assert(!pre_loop_cache.contains_key(key));
                    } else if level == 0 {
                        assert(vr == i * span) by (nonlinear_arith)
                            requires
                                i * span <= vr < (i + 1) * span,
                                span == 0x1000,
                                vr % 0x1000int == 0,
                                (i * span) % 0x1000int == 0,
                                (i + 1) * span == i * span + span,
                        {}
                        assert(key == cb as u64);
                        assert(cache@ == pre_loop_cache.insert(key, e));
                    } else {
                        let child = entry_address(e);
                        if child + PAGE_SIZE <= m.len() {
                            assert(512 * level_entry_span((ln - 1) as nat) == span);
                            let vrc = vr - i * span;
                            assert(vrc % (PAGE_SIZE as int) == 0) by (nonlinear_arith)
                                requires
                                    vr % (PAGE_SIZE as int) == 0,
                                    (i * span) % (PAGE_SIZE as int) == 0,
                                    vrc == vr - i * span,
                                    PAGE_SIZE == 0x1000,
                            {}
                            assert(0 <= vrc < span);
                            assert(walk_entry(m, child as int, (ln - 1) as nat, vrc) is Some
                                ==> cache@.contains_key((cb + vrc) as u64) && cache@[(cb
                                + vrc) as u64] == walk_entry(
                                m,
                                child as int,
                                (ln - 1) as nat,
                                vrc,
                            ).unwrap());
                            assert(walk_entry(m, child as int, (ln - 1) as nat, vrc) is None
                                ==> !cache@.contains_key((cb + vrc) as u64));
                            assert(cb + vrc == vbase + vr);
                        } else {
                            assert(walk_entry(m, child as int, (ln - 1) as nat, vr - i
                                * span) is None);
                            assert(cache@ == pre_loop_cache);
                            assert(!pre_loop_cache.contains_key(key));
                        }
                    }
                }
            }
            assert forall|vb: u64|
                vbase + (i + 1) * span <= vb < vbase + PAGE_ENTRIES * span implies !(
            #[trigger] cache@.contains_key(vb)) by {
                assert(!pre_loop_cache.contains_key(vb));
                assert(!(cb <= vb < cb + span));
            }
            assert forall|vb: u64|
                !(vbase <= vb < vbase + PAGE_ENTRIES * span) implies ((
            #[trigger] cache@.contains_key(vb)) == old(cache)@.contains_key(vb) && (old(
                cache,
            )@.contains_key(vb) ==> cache@[vb] == old(cache)@[vb])) by {
                assert(!(cb <= vb < cb + span));
                assert(cache@.contains_key(vb) == pre_loop_cache.contains_key(vb));
                assert(pre_loop_cache.contains_key(vb) ==> cache@[vb] == pre_loop_cache[vb]);
                assert(pre_loop_cache.contains_key(vb) == old(cache)@.contains_key(vb));
                assert(old(cache)@.contains_key(vb) ==> pre_loop_cache[vb] == old(cache)@[vb]);
                assert(cache@.contains_key(vb) == old(cache)@.contains_key(vb));
                assert(old(cache)@.contains_key(vb) ==> cache@[vb] == old(cache)@[vb]);
            }
            assert(cache_keys_wf(cache@)) by {
                assert forall|vb: u64| #[trigger] cache@.contains_key(vb) implies vb % PAGE_SIZE
                    == 0 && vb < PAGE_ADDRESS_SIZE by {
                    if !(cb <= vb < cb + span) {
                        assert(pre_loop_cache.contains_key(vb));
                    } else {
                        if !pre_loop_cache.contains_key(vb) {
                            assert(entry_present(e));
                            if level == 0 {
                                assert(vb == cb as u64);
                            }
                        }
                    }
                }
            }
        }
        i = i + 1;
    }
}

impl Machine {
    /// Byte view of the arena, for use in contracts.
    pub closed spec fn spec_mem(&self) -> Seq<u8> {
        self.memory@
    }

    /// The cached leaf translations, for use in contracts.
    pub closed spec fn spec_cache(&self) -> Map<u64, u64> {
        self.cache@
    }

    /// The active top-level table address, for use in contracts.
    pub closed spec fn spec_table(&self) -> u64 {
        self.table_addr
    }

    /// A fresh machine: zeroed memory, nothing cached, table at zero.
    pub fn new(memory_size: u64) -> (r: Self)
        requires
            memory_size <= PHYS_LIMIT,
            memory_size <= usize::MAX,
        ensures
            r.spec_mem().len() == memory_size,
            forall|j: int| 0 <= j < memory_size ==> r.spec_mem()[j] == 0,
            r.spec_cache() == Map::<u64, u64>::empty(),
            r.spec_table() == 0,
    {
        let n = memory_size as usize;
        let mut memory: Vec<u8> = Vec::new();
        let mut j: usize = 0;
        while j < n
            invariant
                j <= n,
                memory@.len() == j,
                forall|t: int| 0 <= t < j ==> memory@[t] == 0,
            decreases n - j,
        {
            memory.push(0);
            j = j + 1;
        }
        Machine { memory, cache: HashMap::new(), table_addr: 0 }
    }

    /// The size of the arena in bytes.
    pub fn mem_size(&self) -> (r: u64)
        ensures
            r == self.spec_mem().len(),
    {
        self.memory.len() as u64
    }

    /// Reads one byte of physical memory, bounds-checked by contract.
    pub fn read_phys(&self, phys: u64) -> (r: u8)
        requires
            phys < self.spec_mem().len(),
        ensures
            r == self.spec_mem()[phys as int],
    {
        let n = self.memory.len();
        proof {
            assert(phys < n);
        }
        self.memory[phys as usize]
    }

    /// Writes one byte of physical memory.
    pub fn write_phys(&mut self, phys: u64, value: u8)
        requires
            phys < old(self).spec_mem().len(),
        ensures
            final(self).spec_mem() == old(self).spec_mem().update(phys as int, value),
            final(self).spec_cache() == old(self).spec_cache(),
            final(self).spec_table() == old(self).spec_table(),
    {
        let n = self.memory.len();
        proof {
            assert(phys < n);
        }
        self.memory[phys as usize] = value;
    }

    /// Reads one machine word of physical memory.
    pub fn read_phys_word(&self, phys: u64) -> (r: u64)
        requires
            phys + 8 <= self.spec_mem().len(),
        ensures
            r == crate::arch::word_at(self.spec_mem(), phys as int),
    {
        word_of(&self.memory, phys)
    }

    /// Writes one machine word of physical memory, little-endian.
    #[verifier::loop_isolation(false)]
    pub fn write_phys_word(&mut self, phys: u64, value: u64)
        requires
            phys + 8 <= old(self).spec_mem().len(),
        ensures
            final(self).spec_mem() == seq_update_range(
                old(self).spec_mem(),
                phys as int,
                spec_u64_to_le_bytes(value),
            ),
            final(self).spec_cache() == old(self).spec_cache(),
            final(self).spec_table() == old(self).spec_table(),
    {
        let bytes = u64_to_le_bytes(value);
        let n = self.memory.len();
        proof {
            assert(phys + 8 <= n);
            vstd::bytes::lemma_auto_spec_u64_to_from_le_bytes();
        }
        let p = phys as usize;
        let mut j: usize = 0;
        while j < 8
            invariant
                j <= 8,
                bytes@ == spec_u64_to_le_bytes(value),
                bytes@.len() == 8,
                p == phys,
                phys + 8 <= self.spec_mem().len(),
                self.spec_mem().len() == old(self).spec_mem().len(),
                self.spec_cache() == old(self).spec_cache(),
                self.spec_table() == old(self).spec_table(),
                forall|t: int|
                    0 <= t < self.spec_mem().len() ==> self.spec_mem()[t] == if phys <= t < phys
                        + j {
                        bytes@[t - phys]
                    } else {
                        old(self).spec_mem()[t]
                    },
            decreases 8 - j,
        {
            let b = bytes[j];
            self.memory[p + j] = b;
            j = j + 1;
        }
        proof {
            assert(final(self).spec_mem() =~= seq_update_range(
                old(self).spec_mem(),
                phys as int,
                spec_u64_to_le_bytes(value),
            ));
        }
    }

    /// Fills `count` bytes of physical memory with `value`.
    #[verifier::loop_isolation(false)]
    pub fn write_phys_bytes(&mut self, phys: u64, value: u8, count: u64)
        requires
            phys + count <= old(self).spec_mem().len(),
        ensures
            final(self).spec_mem() == seq_fill_range(
                old(self).spec_mem(),
                phys as int,
                count as int,
                value,
            ),
            final(self).spec_cache() == old(self).spec_cache(),
            final(self).spec_table() == old(self).spec_table(),
    {
        let ml = self.memory.len();
        proof {
            assert(phys + count <= ml);
        }
        let p = phys as usize;
        let n = count as usize;
        let mut j: usize = 0;
        while j < n
            invariant
                j <= n,
                n == count,
                p == phys,
                phys + count <= self.spec_mem().len(),
                self.spec_mem().len() == old(self).spec_mem().len(),
                self.spec_cache() == old(self).spec_cache(),
                self.spec_table() == old(self).spec_table(),
                forall|t: int|
                    0 <= t < self.spec_mem().len() ==> self.spec_mem()[t] == if phys <= t < phys
                        + j {
                        value
                    } else {
                        old(self).spec_mem()[t]
                    },
            decreases n - j,
        {
            self.memory[p + j] = value;
            j = j + 1;
        }
        proof {
            assert(final(self).spec_mem() =~= seq_fill_range(
                old(self).spec_mem(),
                phys as int,
                count as int,
                value,
            ));
        }
    }

    /// The cached translation of `virt`: the physical address plus the
    /// governing leaf entry's flag bits, or nothing when no translation
    /// is cached. Never consults the in-memory table: a mutated table
    /// has no effect here until an invalidation rebuilds the cache.
    pub fn translate(&self, virt: VirtualAddress) -> (r: Option<(PhysicalAddress, u64)>)
        ensures
            r is Some <==> cached_present(self.spec_cache(), virt.spec_data()),
            r matches Some((p, flags)) ==> p.spec_data() == cached_phys(
                self.spec_cache(),
                virt.spec_data(),
            ) && flags == entry_flags(cached_entry(self.spec_cache(), virt.spec_data())),
    {
        let vb = virt.data() & PAGE_ADDRESS_MASK;
        match self.cache.get(&vb) {
            Some(e) => {
                let entry = *e;
                proof {
                    let ed = entry;
                    let vd = virt.spec_data();
                    assert((ed & 0xFFFF_FFFF_F000u64) <= 0xFFFF_FFFF_F000u64) by (bit_vector);
                    assert((vd & 0xFFFu64) <= 0xFFFu64) by (bit_vector);
                }
                Some(
                    (
                        PhysicalAddress::new(
                            (entry & 0xFFFF_FFFF_F000) + (virt.data() & PAGE_OFFSET_MASK),
                        ),
                        entry & 0xFFFF_0000_0000_0FFF,
                    ),
                )
            },
            None => None,
        }
    }
}

impl Machine {
    /// Raw read of one byte through the currently cached translations.
    pub fn read(&self, virt: VirtualAddress) -> (r: u8)
        requires
            cached_present(self.spec_cache(), virt.spec_data()),
            cached_phys(self.spec_cache(), virt.spec_data()) + 1 <= self.spec_mem().len(),
        ensures
            r == self.spec_mem()[cached_phys(self.spec_cache(), virt.spec_data())],
    {
        let (p, _flags) = self.translate(virt).unwrap();
        self.read_phys(p.data())
    }

    /// Raw write of one byte through the currently cached translations.
    pub fn write(&mut self, virt: VirtualAddress, value: u8)
        requires
            cached_present(old(self).spec_cache(), virt.spec_data()),
            cached_writable(old(self).spec_cache(), virt.spec_data()),
            cached_phys(old(self).spec_cache(), virt.spec_data()) + 1 <= old(
                self,
            ).spec_mem().len(),
        ensures
            final(self).spec_mem() == old(self).spec_mem().update(
                cached_phys(old(self).spec_cache(), virt.spec_data()),
                value,
            ),
            final(self).spec_cache() == old(self).spec_cache(),
            final(self).spec_table() == old(self).spec_table(),
    {
        let (p, _flags) = self.translate(virt).unwrap();
        self.write_phys(p.data(), value);
    }

    /// Raw read of one machine word; must not cross a page boundary.
    pub fn read_word(&self, virt: VirtualAddress) -> (r: u64)
        requires
            cached_present(self.spec_cache(), virt.spec_data()),
            virt.spec_data() & PAGE_OFFSET_MASK <= PAGE_SIZE - PAGE_ENTRY_SIZE,
            cached_phys(self.spec_cache(), virt.spec_data()) + 8 <= self.spec_mem().len(),
        ensures
            r == crate::arch::word_at(
                self.spec_mem(),
                cached_phys(self.spec_cache(), virt.spec_data()),
            ),
    {
        let (p, _flags) = self.translate(virt).unwrap();
        self.read_phys_word(p.data())
    }

    /// Raw write of one machine word; must not cross a page boundary.
    pub fn write_word(&mut self, virt: VirtualAddress, value: u64)
        requires
            cached_present(old(self).spec_cache(), virt.spec_data()),
            cached_writable(old(self).spec_cache(), virt.spec_data()),
            virt.spec_data() & PAGE_OFFSET_MASK <= PAGE_SIZE - PAGE_ENTRY_SIZE,
            cached_phys(old(self).spec_cache(), virt.spec_data()) + 8 <= old(
                self,
            ).spec_mem().len(),
        ensures
            final(self).spec_mem() == seq_update_range(
                old(self).spec_mem(),
                cached_phys(old(self).spec_cache(), virt.spec_data()),
                spec_u64_to_le_bytes(value),
            ),
            final(self).spec_cache() == old(self).spec_cache(),
            final(self).spec_table() == old(self).spec_table(),
    {
        let (p, _flags) = self.translate(virt).unwrap();
        self.write_phys_word(p.data(), value);
    }

    /// Raw fill of `count` bytes; must stay within one page.
    pub fn write_bytes(&mut self, virt: VirtualAddress, value: u8, count: u64)
        requires
            cached_present(old(self).spec_cache(), virt.spec_data()),
            cached_writable(old(self).spec_cache(), virt.spec_data()),
            (virt.spec_data() & PAGE_OFFSET_MASK) + count <= PAGE_SIZE,
            cached_phys(old(self).spec_cache(), virt.spec_data()) + count <= old(
                self,
            ).spec_mem().len(),
        ensures
            final(self).spec_mem() == seq_fill_range(
                old(self).spec_mem(),
                cached_phys(old(self).spec_cache(), virt.spec_data()),
                count as int,
                value,
            ),
            final(self).spec_cache() == old(self).spec_cache(),
            final(self).spec_table() == old(self).spec_table(),
    {
        let (p, _flags) = self.translate(virt).unwrap();
        self.write_phys_bytes(p.data(), value, count);
    }

    /// Drops the one cached translation for the page of `virt`.
    pub fn invalid_data(&mut self, virt: VirtualAddress)
        ensures
            final(self).spec_mem() == old(self).spec_mem(),
            final(self).spec_table() == old(self).spec_table(),
            final(self).spec_cache() == old(self).spec_cache().remove(
                virt.spec_data() & PAGE_ADDRESS_MASK,
            ),
    {
        let vb = virt.data() & PAGE_ADDRESS_MASK;
        self.cache.remove(&vb);
    }

    /// The physical address of the active top-level table.
    pub fn get_table(&self) -> (r: PhysicalAddress)
        ensures
            r.spec_data() == self.spec_table(),
    {
        PhysicalAddress::new(self.table_addr)
    }

    /// Installs a new active top-level table and rebuilds the cache.
    pub fn set_table(&mut self, address: PhysicalAddress)
        ensures
            final(self).spec_mem() == old(self).spec_mem(),
            final(self).spec_table() == address.spec_data(),
            cache_is_walk(
                final(self).spec_cache(),
                final(self).spec_mem(),
                address.spec_data() as int,
            ),
    {
        self.table_addr = address.data();
        self.invalid_data_all();
    }

    /// Rebuilds the whole translation cache by walking the active table:
    /// afterwards the cache holds exactly the present leaf translations
    /// the in-memory table describes.
    pub fn invalid_data_all(&mut self)
        ensures
            final(self).spec_mem() == old(self).spec_mem(),
            final(self).spec_table() == old(self).spec_table(),
            cache_is_walk(
                final(self).spec_cache(),
                final(self).spec_mem(),
                final(self).spec_table() as int,
            ),
    {
        self.cache.clear();
        let t = self.table_addr;
        let len = self.memory.len();
        let walkable = PAGE_SIZE <= len as u64 && t <= len as u64 - PAGE_SIZE;
        proof {
            crate::arch::lemma_level_entry_span_pos(3);
            assert(PAGE_ENTRIES * level_entry_span(3) == PAGE_ADDRESS_SIZE);
        }
        if walkable {
            walk_fill(&self.memory, &mut self.cache, t, PAGE_LEVELS - 1, 0);
            proof {
                let m = self.spec_mem();
                let ti = self.spec_table() as int;
                let c = self.spec_cache();
                assert forall|vb: u64| #[trigger] c.contains_key(vb) implies vb % PAGE_SIZE == 0
                    && vb < PAGE_ADDRESS_SIZE && translate_walk(m, ti, vb) == Some(c[vb]) by {
                    assert(walk_entry(m, ti, 3, vb as int) == translate_walk(m, ti, vb));
                    assert((0 + vb as int) as u64 == vb);
                }
                assert forall|vb: u64|
                    vb % PAGE_SIZE == 0 && vb < PAGE_ADDRESS_SIZE && (#[trigger] translate_walk(
                        m,
                        ti,
                        vb,
                    )) is Some implies c.contains_key(vb) by {
                    assert(walk_entry(m, ti, 3, vb as int) == translate_walk(m, ti, vb));
                    assert((0 + vb as int) as u64 == vb);
                }
            }
        } else {
            proof {
                let m = self.spec_mem();
                let ti = self.spec_table() as int;
                assert forall|vb: u64|
                    vb % PAGE_SIZE == 0 && vb < PAGE_ADDRESS_SIZE implies (
                #[trigger] translate_walk(m, ti, vb)) is None by {
                    assert(!(0 <= ti && ti + PAGE_SIZE <= m.len()));
                }
            }
        }
    }
}

/// The software-emulated architecture backend: the shared contract over
/// an owned machine.
pub struct EmulateArch {
    machine: Machine,
}

impl EmulateArch {
    /// A backend over a fresh machine; `init` installs the boot tables.
    pub fn new() -> (r: Self)
        ensures
            r.mem().len() == EMULATE_MEMORY_SIZE,
            r.table_root() == 0,
    {
        EmulateArch { machine: Machine::new(EMULATE_MEMORY_SIZE) }
    }
}

impl EmulateArch {
    /// Emulated firmware bring-up, with the backend's concrete contract:
    /// resets the machine, installs boot tables that identity-map the
    /// first `BOOT_WINDOW` bytes of frames into the direct-map window,
    /// activates them, and reports exactly the two adjacent usable
    /// regions that together cover the arena above the boot frames.
    /// Afterwards every boot-window frame is reachable read-write
    /// through the direct mapping. The `Arch::init` of this backend is
    /// exactly this.
    #[verifier::loop_isolation(false)]
    #[verifier::rlimit(100)]
    pub fn bring_up(&mut self) -> (areas: Vec<MemoryArea>)
        ensures
            areas@.len() == 2,
            areas@[0].base.spec_data() == 4 * PAGE_SIZE,
            areas@[0].size == EMULATE_MEMORY_SIZE / 2 - 4 * PAGE_SIZE,
            areas@[1].base.spec_data() == EMULATE_MEMORY_SIZE / 2,
            areas@[1].size == EMULATE_MEMORY_SIZE / 2,
            areas_wf(areas@),
            final(self).mem().len() == EMULATE_MEMORY_SIZE,
            final(self).table_root() == 0,
            cache_is_walk(final(self).cache(), final(self).mem(), 0),
            forall|p: u64|
                p % PAGE_SIZE == 0 && p < BOOT_WINDOW ==> direct_mapped_rw(
                    final(self).cache(),
                    p,
                ),
    {
        self.machine = Machine::new(EMULATE_MEMORY_SIZE);
        let flags: u64 = ENTRY_FLAG_PRESENT | ENTRY_FLAG_WRITABLE;
        let pml4: u64 = 0;
        let pdp: u64 = 0x1000;
        let pd: u64 = 0x2000;
        let pt: u64 = 0x3000;
        proof {
            assert(0x1u64 | 0x2u64 == 0x3u64 && 0x1000u64 | 0x3u64 == 0x1003u64 && 0x2000u64
                | 0x3u64 == 0x2003u64 && 0x3000u64 | 0x3u64 == 0x3003u64) by (bit_vector);
            vstd::bytes::lemma_auto_spec_u64_to_from_le_bytes();
        }
        let ghost m0 = self.machine.spec_mem();
        self.machine.write_phys_word(pml4 + 256 * PAGE_ENTRY_SIZE, pdp | flags);
        proof {
            crate::arch::lemma_word_at_update_hit(m0, 0x800, 0x1003);
        }
        let ghost m1 = self.machine.spec_mem();
        self.machine.write_phys_word(pdp, pd | flags);
        proof {
            crate::arch::lemma_word_at_update_hit(m1, 0x1000, 0x2003);
            crate::arch::lemma_word_at_update_miss(
                m1,
                0x1000,
                vstd::bytes::spec_u64_to_le_bytes(0x2003),
                0x800,
            );
        }
        let ghost m2 = self.machine.spec_mem();
        self.machine.write_phys_word(pd, pt | flags);
        proof {
            crate::arch::lemma_word_at_update_hit(m2, 0x2000, 0x3003);
            crate::arch::lemma_word_at_update_miss(
                m2,
                0x2000,
                vstd::bytes::spec_u64_to_le_bytes(0x3003),
                0x800,
            );
            crate::arch::lemma_word_at_update_miss(
                m2,
                0x2000,
                vstd::bytes::spec_u64_to_le_bytes(0x3003),
                0x1000,
            );
        }
        let mut i: u64 = 0;
        while i < PAGE_ENTRIES
            invariant
                i <= PAGE_ENTRIES,
                self.machine.spec_mem().len() == EMULATE_MEMORY_SIZE,
                crate::arch::word_at(self.machine.spec_mem(), 0x800) == 0x1003u64,
                crate::arch::word_at(self.machine.spec_mem(), 0x1000) == 0x2003u64,
                crate::arch::word_at(self.machine.spec_mem(), 0x2000) == 0x3003u64,
                forall|aj: int|
                    0x3000 <= aj < 0x3000 + 8 * i && (aj - 0x3000) % 8 == 0 ==> (
                    #[trigger] crate::arch::word_at(self.machine.spec_mem(), aj)) == ((((aj
                        - 0x3000) / 8 * 0x1000) as u64) | 3u64),
            decreases PAGE_ENTRIES - i,
        {
            let ghost mp = self.machine.spec_mem();
            let word = (i * PAGE_SIZE) | flags;
            self.machine.write_phys_word(pt + i * PAGE_ENTRY_SIZE, word);
            proof {
                let a = 0x3000 + 8 * (i as int);
                let bytes = vstd::bytes::spec_u64_to_le_bytes(word);
                crate::arch::lemma_word_at_update_hit(mp, a, word);
                crate::arch::lemma_word_at_update_miss(mp, a, bytes, 0x800);
                crate::arch::lemma_word_at_update_miss(mp, a, bytes, 0x1000);
                crate::arch::lemma_word_at_update_miss(mp, a, bytes, 0x2000);
                assert forall|aj: int|
                    0x3000 <= aj < 0x3000 + 8 * (i + 1) && (aj - 0x3000) % 8 == 0 implies (
                #[trigger] crate::arch::word_at(self.machine.spec_mem(), aj)) == ((((aj - 0x3000)
                    / 8 * 0x1000) as u64) | 3u64) by {
                    let j = (aj - 0x3000) / 8;
                    vstd::arithmetic::div_mod::lemma_fundamental_div_mod(aj - 0x3000, 8);
                    assert(aj == 0x3000 + 8 * j);
                    if aj < a {
                        crate::arch::lemma_word_at_update_miss(mp, a, bytes, aj);
                    } else {
                        assert(aj == a && j == i);
                        assert(word == ((i as int * 0x1000) as u64) | 3u64);
                    }
                }
            }
            i = i + 1;
        }
        self.machine.set_table(PhysicalAddress::new(pml4));
        proof {
            lemma_boot_window_live(self.machine.spec_mem(), self.machine.spec_cache());
        }
        let mut areas: Vec<MemoryArea> = Vec::new();
        areas.push(
            MemoryArea {
                base: PhysicalAddress::new(4 * PAGE_SIZE),
                size: EMULATE_MEMORY_SIZE / 2 - 4 * PAGE_SIZE,
            },
        );
        areas.push(
            MemoryArea {
                base: PhysicalAddress::new(EMULATE_MEMORY_SIZE / 2),
                size: EMULATE_MEMORY_SIZE / 2,
            },
        );
        proof {
            assert(areas_wf(areas@)) by {
                assert forall|k: int| 0 <= k < areas@.len() implies {
                    &&& (#[trigger] areas@[k]).size > 0
                    &&& areas@[k].size % PAGE_SIZE == 0
                    &&& areas@[k].base.spec_data() % PAGE_SIZE == 0
                    &&& areas@[k].spec_end() <= PHYS_LIMIT
                    &&& (k + 1 < areas@.len() ==> areas@[k].spec_end() <= areas@[k
                        + 1].base.spec_data())
                } by {
                    if k == 0 {
                        assert(areas@[0].base.spec_data() == 4 * PAGE_SIZE);
                    } else {
                        assert(areas@[1].base.spec_data() == EMULATE_MEMORY_SIZE / 2);
                    }
                }
            }
        }
        areas
    }
}

/// The boot tables written by `bring_up` make every frame of the boot
/// window reachable read-write through the direct mapping once the cache
/// reflects them.
#[verifier::rlimit(100)]
proof fn lemma_boot_window_live(mem: Seq<u8>, cache: Map<u64, u64>)
    requires
        mem.len() == EMULATE_MEMORY_SIZE,
        cache_is_walk(cache, mem, 0),
        crate::arch::word_at(mem, 0x800) == 0x1003u64,
        crate::arch::word_at(mem, 0x1000) == 0x2003u64,
        crate::arch::word_at(mem, 0x2000) == 0x3003u64,
        forall|aj: int|
            0x3000 <= aj < 0x4000 && (aj - 0x3000) % 8 == 0 ==> (#[trigger] crate::arch::word_at(
                mem,
                aj,
            )) == ((((aj - 0x3000) / 8 * 0x1000) as u64) | 3u64),
    ensures
        forall|p: u64|
            p % PAGE_SIZE == 0 && p < BOOT_WINDOW ==> direct_mapped_rw(cache, p),
{
    crate::arch::lemma_level_entry_span_pos(3);
    crate::arch::lemma_level_entry_span_pos(2);
    crate::arch::lemma_level_entry_span_pos(1);
    crate::arch::lemma_level_entry_span_pos(0);
    assert(0x1003u64 & 0x1u64 != 0 && 0x1003u64 & 0xFFFF_FFFF_F000u64 == 0x1000u64 && 0x2003u64
        & 0x1u64 != 0 && 0x2003u64 & 0xFFFF_FFFF_F000u64 == 0x2000u64 && 0x3003u64 & 0x1u64 != 0
        && 0x3003u64 & 0xFFFF_FFFF_F000u64 == 0x3000u64) by (bit_vector);
    assert forall|p: u64| p % PAGE_SIZE == 0 && p < BOOT_WINDOW implies direct_mapped_rw(
        cache,
        p,
    ) by {
        let va: u64 = (0xFFFF_8000_0000_0000 + p) as u64;
        let vb: u64 = (0x8000_0000_0000 + p) as u64;
        let w: u64 = p | 3;
        assert(va & 0xFFFF_FFFF_F000u64 == vb && va & 0xFFFu64 == 0 && vb % 0x1000u64 == 0 && w
            & 0x1u64 != 0 && w & 0x2u64 != 0 && w & 0xFFFF_FFFF_F000u64 == p) by (bit_vector)
            requires
                p % 0x1000u64 == 0,
                p < 0x20_0000u64,
                va == vstd::prelude::add(0xFFFF_8000_0000_0000u64, p),
                vb == vstd::prelude::add(0x8000_0000_0000u64, p),
                w == p | 3u64,
        ;
        let vbi = vb as int;
        let pi = p as int;
        assert(vbi / 0x80_0000_0000 == 256 && vbi % 0x80_0000_0000 == pi) by (nonlinear_arith)
            requires
                vbi == 256 * 0x80_0000_0000 + pi,
                0 <= pi < 0x80_0000_0000,
        {}
        assert(pi / 0x4000_0000 == 0 && pi % 0x4000_0000 == pi && pi / 0x20_0000 == 0 && pi
            % 0x20_0000 == pi) by (nonlinear_arith)
            requires
                0 <= pi < 0x20_0000,
        {}
        let i0 = pi / 0x1000;
        assert(0 <= i0 < 512 && i0 * 0x1000 == pi) by (nonlinear_arith)
            requires
                0 <= pi < 0x20_0000,
                pi % 0x1000int == 0,
                i0 == pi / 0x1000,
        {}
        assert((0x3000 + 8 * i0 - 0x3000) % 8 == 0 && (0x3000 + 8 * i0 - 0x3000) / 8 == i0)
            by (nonlinear_arith)
            requires
                0 <= i0 < 512,
        {}
        assert(crate::arch::word_at(mem, 0x3000 + 8 * i0) == (((i0 * 0x1000) as u64) | 3u64));
        assert(walk_entry(mem, 0, 3, vbi) == walk_entry(mem, 0x1000, 2, pi));
        assert(walk_entry(mem, 0x1000, 2, pi) == walk_entry(mem, 0x2000, 1, pi));
        assert(walk_entry(mem, 0x2000, 1, pi) == walk_entry(mem, 0x3000, 0, pi));
        assert(walk_entry(mem, 0x3000, 0, pi) == Some(w));
        assert(translate_walk(mem, 0, vb) == Some(w));
        assert(cache.contains_key(vb) && cache[vb] == w);
        assert(crate::arch::spec_phys_to_virt(p) == va);
        assert(cached_present(cache, va) && cached_entry(cache, va) == w);
        assert(cached_phys(cache, va) == p && cached_writable(cache, va));
    }
}

impl Arch for EmulateArch {
    closed spec fn mem(&self) -> Seq<u8> {
        self.machine.spec_mem()
    }

    closed spec fn cache(&self) -> Map<u64, u64> {
        self.machine.spec_cache()
    }

    closed spec fn table_root(&self) -> u64 {
        self.machine.spec_table()
    }

    fn init(&mut self) -> (areas: Vec<MemoryArea>) {
        self.bring_up()
    }

    fn mem_size(&self) -> (r: u64) {
        self.machine.mem_size()
    }

    fn read(&self, address: VirtualAddress) -> (r: u8) {
        self.machine.read(address)
    }

    fn write(&mut self, address: VirtualAddress, value: u8) {
        self.machine.write(address, value);
    }

    fn read_word(&self, address: VirtualAddress) -> (r: u64) {
        self.machine.read_word(address)
    }

    fn write_word(&mut self, address: VirtualAddress, value: u64) {
        self.machine.write_word(address, value);
    }

    fn write_bytes(&mut self, address: VirtualAddress, value: u8, count: u64) {
        self.machine.write_bytes(address, value, count);
    }

    fn translate(&self, address: VirtualAddress) -> (r: Option<(PhysicalAddress, u64)>) {
        self.machine.translate(address)
    }

    fn invalid_data(&mut self, address: VirtualAddress) {
        self.machine.invalid_data(address);
    }

    fn invalid_data_all(&mut self) {
        self.machine.invalid_data_all();
    }

    fn table(&self) -> (r: PhysicalAddress) {
        self.machine.get_table()
    }

    fn set_table(&mut self, address: PhysicalAddress) {
        self.machine.set_table(address);
    }
}

} // verus!
